//! The area enclosed by an outline: when the boundary walk of a set of pixels
//! takes every boundary edge of the set (the set has no hole), the polygon that
//! the outline draws has exactly as much area as there are pixels.
use vstd::prelude::*;
use vstd::set_lib::*;
use crate::outline::{
    boundary_walk, open_side_total, cyc_next, is_edge, lemma_edge_corners, is_corner,
    corners_upto, close_ring, open_ring, close_if_open, as_i32, outline_of,
};
use crate::counting::inside;
use crate::walk::{
    outline_is_rectilinear, outline_is_nonempty_closed_ring,
    rectilinear, pixel_edges, edge_list, walk, is_bedge, step_of, lemma_boundary_walk_edges,
    lemma_bedge_listed, lemma_edge_list_len, closed_edge_walk, turns_at, rot, rotated,
    lemma_no_reversal, lemma_rotated_walk, corner_indices, lemma_corner_indices,
    lemma_turns_are_corners, lemma_walk_in_range, lemma_walk_turns, lemma_corner_listed,
    lemma_boundary_walk_of_set,
};

verus! {

/// `f(a) + f(a + 1) + ... + f(b - 1)`.
pub open spec fn range_sum(f: spec_fn(int) -> int, a: int, b: int) -> int
    decreases b - a,
{
    if b <= a {
        0
    } else {
        range_sum(f, a, b - 1) + f(b - 1)
    }
}

proof fn lemma_range_split(f: spec_fn(int) -> int, a: int, m: int, b: int)
    requires
        a <= m <= b,
    ensures
        range_sum(f, a, b) == range_sum(f, a, m) + range_sum(f, m, b),
    decreases b - m,
{
    if b > m {
        lemma_range_split(f, a, m, b - 1);
    }
}

proof fn lemma_range_ext(f: spec_fn(int) -> int, g: spec_fn(int) -> int, a: int, b: int)
    requires
        forall|k: int| a <= k < b ==> #[trigger] f(k) == g(k),
    ensures
        range_sum(f, a, b) == range_sum(g, a, b),
    decreases b - a,
{
    if b > a {
        lemma_range_ext(f, g, a, b - 1);
    }
}

proof fn lemma_range_shift(f: spec_fn(int) -> int, a: int, b: int, d: int)
    ensures
        range_sum(|k: int| f(k + d), a, b) == range_sum(f, a + d, b + d),
    decreases b - a,
{
    if b > a {
        lemma_range_shift(f, a, b - 1, d);
    }
}

/// The sum of `f` over the items of `q`.
pub open spec fn seq_sum<A>(q: Seq<A>, f: spec_fn(A) -> int) -> int
    decreases q.len(),
{
    if q.len() == 0 {
        0
    } else {
        seq_sum(q.drop_last(), f) + f(q.last())
    }
}

proof fn lemma_seq_sum_concat<A>(a: Seq<A>, b: Seq<A>, f: spec_fn(A) -> int)
    ensures
        seq_sum(a + b, f) == seq_sum(a, f) + seq_sum(b, f),
    decreases b.len(),
{
    if b.len() == 0 {
        assert(a + b =~= a);
    } else {
        assert((a + b).drop_last() =~= a + b.drop_last());
        assert((a + b).last() == b.last());
        lemma_seq_sum_concat(a, b.drop_last(), f);
    }
}

proof fn lemma_seq_sum_remove<A>(q: Seq<A>, j: int, f: spec_fn(A) -> int)
    requires
        0 <= j < q.len(),
    ensures
        seq_sum(q, f) == seq_sum(q.remove(j), f) + f(q[j]),
{
    let pre = q.subrange(0, j);
    let post = q.subrange(j + 1, q.len() as int);
    assert(q =~= pre + seq![q[j]] + post);
    assert(q.remove(j) =~= pre + post);
    lemma_seq_sum_concat(pre + seq![q[j]], post, f);
    lemma_seq_sum_concat(pre, seq![q[j]], f);
    lemma_seq_sum_concat(pre, post, f);
    assert(seq![q[j]].drop_last() =~= Seq::<A>::empty());
    assert(seq_sum(seq![q[j]], f) == f(q[j])) by {
        reveal_with_fuel(seq_sum, 2);
    }
}

/// Two lists of the same items, each without repeats, have the same sum.
proof fn lemma_seq_sum_perm<A>(a: Seq<A>, b: Seq<A>, f: spec_fn(A) -> int)
    requires
        a.no_duplicates(),
        b.no_duplicates(),
        a.to_set() == b.to_set(),
    ensures
        seq_sum(a, f) == seq_sum(b, f),
    decreases a.len(),
{
    if a.len() == 0 {
        if b.len() > 0 {
            assert(b.to_set().contains(b[0]));
            assert(a.to_set().contains(b[0]));
        }
    } else {
        let x = a.last();
        assert(a.to_set().contains(x));
        assert(b.to_set().contains(x));
        let j = choose|j: int| 0 <= j < b.len() && b[j] == x;
        let a2 = a.drop_last();
        let b2 = b.remove(j);
        assert(b2.no_duplicates()) by {
            assert forall|i1: int, i2: int|
                0 <= i1 < b2.len() && 0 <= i2 < b2.len() && i1 != i2 implies b2[i1] != b2[i2] by {
                let k1 = if i1 < j { i1 } else { i1 + 1 };
                let k2 = if i2 < j { i2 } else { i2 + 1 };
                assert(b2[i1] == b[k1]);
                assert(b2[i2] == b[k2]);
            }
        }
        assert(a2.to_set() =~= b2.to_set()) by {
            assert forall|y: A| a2.to_set().contains(y) implies b2.to_set().contains(y) by {
                let i = choose|i: int| 0 <= i < a2.len() && a2[i] == y;
                assert(a[i] == y);
                assert(y != x);
                assert(b.to_set().contains(y));
                let k = choose|k: int| 0 <= k < b.len() && b[k] == y;
                assert(k != j);
                if k < j {
                    assert(b2[k] == y);
                } else {
                    assert(b2[k - 1] == y);
                }
            }
            assert forall|y: A| b2.to_set().contains(y) implies a2.to_set().contains(y) by {
                let i = choose|i: int| 0 <= i < b2.len() && b2[i] == y;
                let k = if i < j { i } else { i + 1 };
                assert(b[k] == y);
                assert(y != x);
                assert(a.to_set().contains(y));
                let l = choose|l: int| 0 <= l < a.len() && a[l] == y;
                assert(l != a.len() - 1);
                assert(a2[l] == y);
            }
        }
        lemma_seq_sum_perm(a2, b2, f);
        lemma_seq_sum_remove(b, j, f);
    }
}

proof fn lemma_seq_sum_add<A>(
    q: Seq<A>,
    f: spec_fn(A) -> int,
    g: spec_fn(A) -> int,
    h: spec_fn(A) -> int,
)
    requires
        forall|i: int| 0 <= i < q.len() ==> f(#[trigger] q[i]) == g(q[i]) + h(q[i]),
    ensures
        seq_sum(q, f) == seq_sum(q, g) + seq_sum(q, h),
    decreases q.len(),
{
    if q.len() > 0 {
        let r = q.drop_last();
        assert forall|i: int| 0 <= i < r.len() implies f(#[trigger] r[i]) == g(r[i]) + h(r[i]) by {
            assert(r[i] == q[i]);
        }
        lemma_seq_sum_add(r, f, g, h);
        assert(f(q[q.len() - 1]) == g(q[q.len() - 1]) + h(q[q.len() - 1]));
    }
}

proof fn lemma_seq_sum_single<A>(q: Seq<A>, f: spec_fn(A) -> int, x: A, c: int)
    requires
        q.no_duplicates(),
        forall|y: A| #[trigger] f(y) == if y == x { c } else { 0 },
    ensures
        seq_sum(q, f) == if q.contains(x) { c } else { 0 },
    decreases q.len(),
{
    if q.len() > 0 {
        let r = q.drop_last();
        lemma_seq_sum_single(r, f, x, c);
        assert(f(q.last()) == if q.last() == x { c } else { 0 });
        if q.last() == x {
            if r.contains(x) {
                let i = choose|i: int| 0 <= i < r.len() && r[i] == x;
                assert(q[i] == q[q.len() - 1]);
            }
        } else {
            if q.contains(x) {
                let i = choose|i: int| 0 <= i < q.len() && q[i] == x;
                assert(r[i] == x);
            }
            if r.contains(x) {
                let i = choose|i: int| 0 <= i < r.len() && r[i] == x;
                assert(q[i] == x);
            }
        }
    }
}

proof fn lemma_seq_sum_ext<A>(q: Seq<A>, f: spec_fn(A) -> int, g: spec_fn(A) -> int)
    requires
        forall|i: int| 0 <= i < q.len() ==> f(#[trigger] q[i]) == g(q[i]),
    ensures
        seq_sum(q, f) == seq_sum(q, g),
    decreases q.len(),
{
    if q.len() > 0 {
        let r = q.drop_last();
        assert forall|i: int| 0 <= i < r.len() implies f(#[trigger] r[i]) == g(r[i]) by {
            assert(r[i] == q[i]);
        }
        lemma_seq_sum_ext(r, f, g);
        assert(f(q[q.len() - 1]) == g(q[q.len() - 1]));
    }
}

/// Twice the signed area of the closed ring `r`, by the shoelace formula.  With y
/// growing downward, a ring that runs clockwise on screen has a positive area.
pub open spec fn shoelace(r: Seq<(i32, i32)>) -> int
    decreases r.len(),
{
    if r.len() < 2 {
        0
    } else {
        let a = r[r.len() - 2];
        let b = r[r.len() - 1];
        shoelace(r.drop_last()) + (a.0 * b.1 - b.0 * a.1)
    }
}

/// The sum over the sides of `r` of `x` times the rise: the area `∮ x dy`.
pub open spec fn x_dy(r: Seq<(i32, i32)>) -> int
    decreases r.len(),
{
    if r.len() < 2 {
        0
    } else {
        let a = r[r.len() - 2];
        let b = r[r.len() - 1];
        x_dy(r.drop_last()) + a.0 * (b.1 - a.1)
    }
}

proof fn lemma_side_terms(a0: int, a1: int, b0: int, b1: int)
    requires
        a0 == b0 || a1 == b1,
    ensures
        a0 * b1 - b0 * a1 == 2 * (a0 * (b1 - a1)) - (b0 * b1 - a0 * a1),
{
    if a0 == b0 {
        assert(a0 * b1 - b0 * a1 == 2 * (a0 * (b1 - a1)) - (b0 * b1 - a0 * a1)) by (nonlinear_arith)
            requires
                a0 == b0,
        ;
    } else {
        assert(a0 * b1 - b0 * a1 == 2 * (a0 * (b1 - a1)) - (b0 * b1 - a0 * a1)) by (nonlinear_arith)
            requires
                a1 == b1,
        ;
    }
}

proof fn lemma_shoelace_open(r: Seq<(i32, i32)>)
    requires
        r.len() >= 1,
        rectilinear(r),
    ensures
        shoelace(r) == 2 * x_dy(r) - (r[r.len() - 1].0 * r[r.len() - 1].1 - r[0].0 * r[0].1),
    decreases r.len(),
{
    if r.len() >= 2 {
        let q = r.drop_last();
        assert(rectilinear(q)) by {
            assert forall|k: int| 0 <= k < q.len() - 1 implies q[k].0 == (#[trigger] q[k + 1]).0
                || q[k].1 == q[k + 1].1 by {
                assert(r[k].0 == r[k + 1].0 || r[k].1 == r[k + 1].1);
            }
        }
        lemma_shoelace_open(q);
        let k = r.len() - 2;
        let a = r[k];
        let b = r[k + 1];
        assert(a.0 == b.0 || a.1 == b.1);
        lemma_side_terms(a.0 as int, a.1 as int, b.0 as int, b.1 as int);
    }
}

/// For a closed ring whose sides are horizontal or vertical, the shoelace area is
/// twice `∮ x dy`.
proof fn lemma_shoelace_rectilinear(r: Seq<(i32, i32)>)
    requires
        r.len() >= 1,
        rectilinear(r),
        r[0] == r[r.len() - 1],
    ensures
        shoelace(r) == 2 * x_dy(r),
{
    lemma_shoelace_open(r);
}

/// The terms of `x_dy(r)`, by index.
pub open spec fn x_dy_term(r: Seq<(i32, i32)>) -> spec_fn(int) -> int {
    |k: int| r[k].0 * (r[k + 1].1 - r[k].1)
}

proof fn lemma_x_dy_sum(r: Seq<(i32, i32)>)
    requires
        r.len() >= 1,
    ensures
        x_dy(r) == range_sum(x_dy_term(r), 0, r.len() - 1),
    decreases r.len(),
{
    if r.len() >= 2 {
        let q = r.drop_last();
        lemma_x_dy_sum(q);
        lemma_range_ext(x_dy_term(q), x_dy_term(r), 0, q.len() - 1);
    }
}

/// The share of boundary edge `e = (x, y, dx, dy)` in `∮ x dy`: `x` going down,
/// `-x` going up, nothing along a row.
pub open spec fn edge_x_dy(e: (int, int, int, int)) -> int {
    if e.2 == 0 && e.3 == 1 {
        e.0
    } else if e.2 == 0 && e.3 == -1 {
        -e.0
    } else {
        0
    }
}

/// The share of pixel `p` of `s` in `∮ x dy` over the boundary of `s`: its right
/// side when that faces outside, less its left side when that faces outside.
pub open spec fn pixel_x_dy(s: Set<(int, int)>, p: (int, int)) -> int {
    (if s.contains((p.0 + 1, p.1)) { 0 } else { p.0 + 1 }) - (if s.contains((p.0 - 1, p.1)) {
        0
    } else {
        p.0
    })
}

proof fn lemma_seq_sum_one<A>(x: A, f: spec_fn(A) -> int)
    ensures
        seq_sum(seq![x], f) == f(x),
{
    assert(seq![x].drop_last() =~= Seq::<A>::empty());
    reveal_with_fuel(seq_sum, 2);
}

proof fn lemma_pixel_edges_sum(s: Set<(int, int)>, p: (int, int))
    ensures
        seq_sum(pixel_edges(s, p), |e: (int, int, int, int)| edge_x_dy(e)) == pixel_x_dy(s, p),
{
    let f = |e: (int, int, int, int)| edge_x_dy(e);
    let a: Seq<(int, int, int, int)> = if s.contains((p.0, p.1 - 1)) {
        Seq::empty()
    } else {
        seq![(p.0, p.1, 1int, 0int)]
    };
    let b: Seq<(int, int, int, int)> = if s.contains((p.0 + 1, p.1)) {
        Seq::empty()
    } else {
        seq![(p.0 + 1, p.1, 0int, 1int)]
    };
    let c: Seq<(int, int, int, int)> = if s.contains((p.0, p.1 + 1)) {
        Seq::empty()
    } else {
        seq![(p.0 + 1, p.1 + 1, -1int, 0int)]
    };
    let d: Seq<(int, int, int, int)> = if s.contains((p.0 - 1, p.1)) {
        Seq::empty()
    } else {
        seq![(p.0, p.1 + 1, 0int, -1int)]
    };
    assert(pixel_edges(s, p) == a + b + c + d);
    lemma_seq_sum_concat(a + b + c, d, f);
    lemma_seq_sum_concat(a + b, c, f);
    lemma_seq_sum_concat(a, b, f);
    lemma_seq_sum_one((p.0, p.1, 1int, 0int), f);
    lemma_seq_sum_one((p.0 + 1, p.1, 0int, 1int), f);
    lemma_seq_sum_one((p.0 + 1, p.1 + 1, -1int, 0int), f);
    lemma_seq_sum_one((p.0, p.1 + 1, 0int, -1int), f);
}

proof fn lemma_edge_list_sum(s: Set<(int, int)>, pts: Seq<(int, int)>)
    ensures
        seq_sum(edge_list(s, pts), |e: (int, int, int, int)| edge_x_dy(e)) == seq_sum(
            pts,
            |p: (int, int)| pixel_x_dy(s, p),
        ),
    decreases pts.len(),
{
    if pts.len() > 0 {
        lemma_edge_list_sum(s, pts.drop_last());
        lemma_seq_sum_concat(
            edge_list(s, pts.drop_last()),
            pixel_edges(s, pts.last()),
            |e: (int, int, int, int)| edge_x_dy(e),
        );
        lemma_pixel_edges_sum(s, pts.last());
    }
}

/// Each pixel of a set adds one to `∮ x dy` over the set's boundary edges.
proof fn lemma_pixels_x_dy(pts: Seq<(int, int)>)
    requires
        pts.no_duplicates(),
    ensures
        seq_sum(pts, |p: (int, int)| pixel_x_dy(pts.to_set(), p)) == pts.len(),
    decreases pts.len(),
{
    if pts.len() > 0 {
        let q = pts.drop_last();
        let p = pts.last();
        let s = pts.to_set();
        let s0 = q.to_set();
        let l = (p.0 - 1, p.1);
        let r = (p.0 + 1, p.1);
        assert(q.no_duplicates());
        lemma_pixels_x_dy(q);
        assert(s =~= s0.insert(p)) by {
            assert forall|x: (int, int)| s.contains(x) implies s0.insert(p).contains(x) by {
                let i = choose|i: int| 0 <= i < pts.len() && pts[i] == x;
                if i < q.len() {
                    assert(q[i] == x);
                }
            }
            assert forall|x: (int, int)| s0.insert(p).contains(x) implies s.contains(x) by {
                if x != p {
                    let i = choose|i: int| 0 <= i < q.len() && q[i] == x;
                    assert(pts[i] == x);
                }
            }
        }
        assert(!s0.contains(p)) by {
            if s0.contains(p) {
                let i = choose|i: int| 0 <= i < q.len() && q[i] == p;
                assert(pts[i] == pts[pts.len() - 1]);
            }
        }
        let fs = |x: (int, int)| pixel_x_dy(pts.to_set(), x);
        let f0 = |x: (int, int)| pixel_x_dy(q.to_set(), x);
        let dl = |x: (int, int)| if x == l { -p.0 } else { 0 };
        let dr = |x: (int, int)| if x == r { p.0 + 1 } else { 0 };
        let dd = |x: (int, int)| dl(x) + dr(x);
        assert forall|i: int| 0 <= i < q.len() implies fs(#[trigger] q[i]) == f0(q[i]) + dd(q[i]) by {
            let x = q[i];
            assert(x != p);
            assert(s0.contains(x));
        }
        lemma_seq_sum_add(q, fs, f0, dd);
        lemma_seq_sum_add(q, dd, dl, dr);
        lemma_seq_sum_single(q, dl, l, -p.0);
        lemma_seq_sum_single(q, dr, r, p.0 + 1);
        assert(q.contains(l) == s0.contains(l));
        assert(q.contains(r) == s0.contains(r));
        assert(seq_sum(pts, fs) == seq_sum(q, fs) + fs(p));
    }
}

/// The pixel that boundary edge `e` belongs to: the one on its right, with y growing
/// downward.
pub open spec fn edge_owner(e: (int, int, int, int)) -> (int, int) {
    if e.2 == 1 && e.3 == 0 {
        (e.0, e.1)
    } else if e.2 == 0 && e.3 == 1 {
        (e.0 - 1, e.1)
    } else if e.2 == -1 && e.3 == 0 {
        (e.0 - 1, e.1 - 1)
    } else {
        (e.0, e.1 - 1)
    }
}

proof fn lemma_no_dup_concat<A>(a: Seq<A>, b: Seq<A>)
    requires
        a.no_duplicates(),
        b.no_duplicates(),
        forall|i: int, j: int| 0 <= i < a.len() && 0 <= j < b.len() ==> #[trigger] a[i] != #[trigger] b[j],
    ensures
        (a + b).no_duplicates(),
{
    let c = a + b;
    assert forall|i: int, j: int| 0 <= i < c.len() && 0 <= j < c.len() && i != j implies c[i] != c[j] by {
        if i < a.len() && j >= a.len() {
            assert(c[j] == b[j - a.len()]);
        } else if j < a.len() && i >= a.len() {
            assert(c[i] == b[i - a.len()]);
        } else if i >= a.len() && j >= a.len() {
            assert(c[i] == b[i - a.len()]);
            assert(c[j] == b[j - a.len()]);
        }
    }
}

proof fn lemma_pixel_edges_owned(s: Set<(int, int)>, p: (int, int))
    ensures
        pixel_edges(s, p).no_duplicates(),
        forall|k: int|
            0 <= k < pixel_edges(s, p).len() ==> edge_owner(#[trigger] pixel_edges(s, p)[k]) == p,
{
    let a: Seq<(int, int, int, int)> = if s.contains((p.0, p.1 - 1)) {
        Seq::empty()
    } else {
        seq![(p.0, p.1, 1int, 0int)]
    };
    let b: Seq<(int, int, int, int)> = if s.contains((p.0 + 1, p.1)) {
        Seq::empty()
    } else {
        seq![(p.0 + 1, p.1, 0int, 1int)]
    };
    let c: Seq<(int, int, int, int)> = if s.contains((p.0, p.1 + 1)) {
        Seq::empty()
    } else {
        seq![(p.0 + 1, p.1 + 1, -1int, 0int)]
    };
    let d: Seq<(int, int, int, int)> = if s.contains((p.0 - 1, p.1)) {
        Seq::empty()
    } else {
        seq![(p.0, p.1 + 1, 0int, -1int)]
    };
    assert(pixel_edges(s, p) == a + b + c + d);
    lemma_no_dup_concat(a, b);
    lemma_no_dup_concat(a + b, c);
    lemma_no_dup_concat(a + b + c, d);
    let pe = pixel_edges(s, p);
    assert forall|k: int| 0 <= k < pe.len() implies edge_owner(#[trigger] pe[k]) == p by {
        let ab = a + b;
        let abc = a + b + c;
        if k < abc.len() {
            assert(pe[k] == abc[k]);
            if k < ab.len() {
                assert(abc[k] == ab[k]);
                if k < a.len() {
                    assert(ab[k] == a[k]);
                } else {
                    assert(ab[k] == b[k - a.len()]);
                }
            } else {
                assert(abc[k] == c[k - ab.len()]);
            }
        } else {
            assert(pe[k] == d[k - abc.len()]);
        }
    }
}

proof fn lemma_edge_list_owned(s: Set<(int, int)>, pts: Seq<(int, int)>)
    ensures
        forall|k: int|
            0 <= k < edge_list(s, pts).len() ==> pts.contains(
                edge_owner(#[trigger] edge_list(s, pts)[k]),
            ),
    decreases pts.len(),
{
    if pts.len() > 0 {
        let q = pts.drop_last();
        lemma_edge_list_owned(s, q);
        lemma_pixel_edges_owned(s, pts.last());
        let el = edge_list(s, pts);
        let e0 = edge_list(s, q);
        let pe = pixel_edges(s, pts.last());
        assert forall|k: int| 0 <= k < el.len() implies pts.contains(edge_owner(#[trigger] el[k])) by {
            if k < e0.len() {
                assert(el[k] == e0[k]);
                let i = choose|i: int| 0 <= i < q.len() && q[i] == edge_owner(e0[k]);
                assert(pts[i] == q[i]);
            } else {
                assert(el[k] == pe[k - e0.len()]);
                assert(pts[pts.len() - 1] == pts.last());
            }
        }
    }
}

/// The boundary edges of pixels listed once each are listed once each.
proof fn lemma_edge_list_no_dup(s: Set<(int, int)>, pts: Seq<(int, int)>)
    requires
        pts.no_duplicates(),
    ensures
        edge_list(s, pts).no_duplicates(),
    decreases pts.len(),
{
    if pts.len() > 0 {
        let q = pts.drop_last();
        let p = pts.last();
        assert(q.no_duplicates());
        lemma_edge_list_no_dup(s, q);
        lemma_edge_list_owned(s, q);
        lemma_pixel_edges_owned(s, p);
        let e0 = edge_list(s, q);
        let pe = pixel_edges(s, p);
        assert forall|i: int, j: int| 0 <= i < e0.len() && 0 <= j < pe.len() implies #[trigger] e0[i]
            != #[trigger] pe[j] by {
            if e0[i] == pe[j] {
                assert(edge_owner(pe[j]) == p);
                assert(q.contains(edge_owner(e0[i])));
                let l = choose|l: int| 0 <= l < q.len() && q[l] == p;
                assert(pts[l] == pts[pts.len() - 1]);
            }
        }
        lemma_no_dup_concat(e0, pe);
    }
}

proof fn lemma_seq_sum_new<A>(n: nat, g: spec_fn(int) -> A, f: spec_fn(A) -> int)
    ensures
        seq_sum(Seq::new(n, g), f) == range_sum(|k: int| f(g(k)), 0, n as int),
    decreases n,
{
    if n > 0 {
        assert(Seq::new(n, g).drop_last() =~= Seq::new((n - 1) as nat, g));
        lemma_seq_sum_new((n - 1) as nat, g, f);
    }
}

/// The terms of `∮ x dy` along the closed walk `t`, by step.
pub open spec fn walk_x_dy_term(t: Seq<(int, int)>) -> spec_fn(int) -> int {
    |k: int| t[k].0 * (t[cyc_next(k, t.len() as int)].1 - t[k].1)
}

/// When the boundary walk of a set takes every boundary edge of the set, `∮ x dy`
/// along it is the number of pixels.
proof fn lemma_walk_x_dy(pts: Seq<(int, int)>)
    requires
        pts.len() > 0,
        pts.no_duplicates(),
        boundary_walk(pts).len() == open_side_total(pts.to_set(), pts),
    ensures
        range_sum(walk_x_dy_term(boundary_walk(pts)), 0, boundary_walk(pts).len() as int)
            == pts.len(),
{
    let s = pts.to_set();
    let t = boundary_walk(pts);
    let (st, m) = lemma_boundary_walk_edges(pts);
    let g = |k: int| walk(s, st, k as nat);
    let we = Seq::new(m, g);
    let el = edge_list(s, pts);
    lemma_edge_list_len(s, pts);
    lemma_edge_list_no_dup(s, pts);
    assert(we.no_duplicates()) by {
        assert forall|i: int, j: int| 0 <= i < we.len() && 0 <= j < we.len() && i != j implies we[i]
            != we[j] by {
            if i < j {
                assert(walk(s, st, i as nat) != walk(s, st, j as nat));
            } else {
                assert(walk(s, st, j as nat) != walk(s, st, i as nat));
            }
        }
    }
    assert(we.to_set().subset_of(el.to_set())) by {
        assert forall|e: (int, int, int, int)| we.to_set().contains(e) implies el.to_set().contains(
            e,
        ) by {
            let k = choose|k: int| 0 <= k < we.len() && we[k] == e;
            assert(is_bedge(s, walk(s, st, k as nat)));
            lemma_bedge_listed(s, pts, e);
        }
    }
    we.unique_seq_to_set();
    el.unique_seq_to_set();
    lemma_subset_equality(we.to_set(), el.to_set());
    let ex = |e: (int, int, int, int)| edge_x_dy(e);
    lemma_seq_sum_perm(we, el, ex);
    lemma_edge_list_sum(s, pts);
    lemma_pixels_x_dy(pts);
    lemma_seq_sum_ext(
        pts,
        |p: (int, int)| pixel_x_dy(s, p),
        |p: (int, int)| pixel_x_dy(pts.to_set(), p),
    );
    lemma_seq_sum_new(m, g, ex);
    assert forall|k: int| 0 <= k < m implies (|k: int| ex(g(k)))(k) == #[trigger] walk_x_dy_term(
        t,
    )(k) by {
        let w = walk(s, st, k as nat);
        assert(is_bedge(s, w));
        assert(step_of(t, k) == (w.2, w.3));
        assert(t[k] == (w.0, w.1));
        lemma_edge_corners(s, (w.0, w.1), (w.2, w.3));
        let x = t[k].0;
        let dy = t[cyc_next(k, m as int)].1 - t[k].1;
        assert(dy == w.3);
        if w.3 == 1 {
            assert(x * dy == x) by (nonlinear_arith)
                requires
                    dy == 1,
            ;
        } else if w.3 == -1 {
            assert(x * dy == -x) by (nonlinear_arith)
                requires
                    dy == -1,
            ;
        } else {
            assert(x * dy == 0) by (nonlinear_arith)
                requires
                    dy == 0,
            ;
        }
    }
    lemma_range_ext(|k: int| ex(g(k)), walk_x_dy_term(t), 0, m as int);
}

/// Where a walk has no turn at `q`, it keeps going the way it came.
proof fn lemma_same_step(s: Set<(int, int)>, t: Seq<(int, int)>, q: int)
    requires
        closed_edge_walk(s, t),
        0 < q < t.len(),
        !turns_at(t, q),
    ensures
        step_of(t, q) == step_of(t, q - 1),
{
    assert(is_edge(s, t[q - 1], step_of(t, q - 1)));
    assert(is_edge(s, t[q], step_of(t, q)));
    lemma_edge_corners(s, t[q - 1], step_of(t, q - 1));
    lemma_edge_corners(s, t[q], step_of(t, q));
    assert(cyc_next(q - 1, t.len() as int) == q);
    lemma_no_reversal(s, t[q - 1], step_of(t, q - 1), step_of(t, q));
}

/// Index `j` of a closed walk of length `m`, with `m` standing for its start again.
pub open spec fn wrap(j: int, m: int) -> int {
    if j == m {
        0
    } else {
        j
    }
}

/// Along a straight run of a closed boundary walk, `∮ x dy` is the run's `x`
/// times its rise.
proof fn lemma_straight_x_dy(s: Set<(int, int)>, t: Seq<(int, int)>, i: int, j: int)
    requires
        closed_edge_walk(s, t),
        0 <= i < j <= t.len(),
        forall|p: int| i < p < j ==> !#[trigger] turns_at(t, p),
    ensures
        range_sum(walk_x_dy_term(t), i, j) == t[i].0 * (t[wrap(j, t.len() as int)].1 - t[i].1),
        step_of(t, j - 1) == step_of(t, i),
        step_of(t, i).0 == 0 ==> t[wrap(j, t.len() as int)].0 == t[i].0,
        step_of(t, i).1 == 0 ==> t[wrap(j, t.len() as int)].1 == t[i].1,
    decreases j - i,
{
    let m = t.len() as int;
    let f = walk_x_dy_term(t);
    assert(is_edge(s, t[i], step_of(t, i)));
    lemma_edge_corners(s, t[i], step_of(t, i));
    let d = step_of(t, i);
    if j == i + 1 {
        assert(cyc_next(i, m) == wrap(j, m));
        assert(range_sum(f, i, j) == range_sum(f, i, i) + f(i));
    } else {
        lemma_straight_x_dy(s, t, i, j - 1);
        lemma_same_step(s, t, j - 1);
        assert(cyc_next(j - 1, m) == wrap(j, m));
        let xi = t[i].0;
        let y0 = t[i].1;
        let x1 = t[j - 1].0;
        let y1 = t[j - 1].1;
        let y2 = t[wrap(j, m)].1;
        assert(range_sum(f, i, j) == range_sum(f, i, j - 1) + f(j - 1));
        assert(range_sum(f, i, j - 1) == xi * (y1 - y0));
        assert(f(j - 1) == x1 * (y2 - y1));
        if d.0 == 0 {
            assert(x1 == xi);
            assert(xi * (y1 - y0) + x1 * (y2 - y1) == xi * (y2 - y0)) by (nonlinear_arith)
                requires
                    x1 == xi,
            ;
        } else {
            assert(d.1 == 0);
            assert(y1 == y0);
            assert(y2 == y1);
            assert(xi * (y1 - y0) + x1 * (y2 - y1) == xi * (y2 - y0)) by (nonlinear_arith)
                requires
                    y1 == y0,
                    y2 == y1,
            ;
        }
    }
}

/// `∮ x dy` around a closed walk does not depend on where the walk starts.
proof fn lemma_rotated_x_dy(s: Set<(int, int)>, t: Seq<(int, int)>, l: int)
    requires
        closed_edge_walk(s, t),
        0 <= l < t.len(),
    ensures
        range_sum(walk_x_dy_term(rotated(t, l)), 0, t.len() as int) == range_sum(
            walk_x_dy_term(t),
            0,
            t.len() as int,
        ),
{
    let m = t.len() as int;
    let u = rotated(t, l);
    let f = walk_x_dy_term(t);
    let fu = walk_x_dy_term(u);
    assert forall|q: int| 0 <= q < m implies cyc_next(rot(q, l, m), m) == rot(cyc_next(q, m), l, m)
        by {}
    assert forall|q: int| 0 <= q < m - l implies #[trigger] fu(q) == (|k: int| f(k + l))(q) by {
        assert(u[q] == t[rot(q, l, m)]);
        assert(u[cyc_next(q, m)] == t[rot(cyc_next(q, m), l, m)]);
    }
    assert forall|q: int| m - l <= q < m implies #[trigger] fu(q) == (|k: int| f(k + (l - m)))(q) by {
        assert(u[q] == t[rot(q, l, m)]);
        assert(u[cyc_next(q, m)] == t[rot(cyc_next(q, m), l, m)]);
    }
    lemma_range_split(fu, 0, m - l, m);
    lemma_range_ext(fu, |k: int| f(k + l), 0, m - l);
    lemma_range_ext(fu, |k: int| f(k + (l - m)), m - l, m);
    lemma_range_shift(f, 0, m - l, l);
    lemma_range_shift(f, m - l, m, l - m);
    lemma_range_split(f, 0, l, m);
}

/// Where side `j` of the corner ring of `r` starts, counted along the walk from its
/// first corner; `r.len()` past the last side.
pub open spec fn side_start(r: Seq<(i32, i32)>, j: int) -> int {
    let ci = corner_indices(r, r.len() as int);
    if j < ci.len() {
        ci[j] - ci[0]
    } else {
        r.len() as int
    }
}

/// No corner of `r` lies strictly inside side `j` of its corner ring, counted along
/// `r` from its first corner.
proof fn lemma_side_has_no_corner(r: Seq<(i32, i32)>, j: int)
    requires
        0 <= j < corners_upto(r, r.len() as int).len(),
    ensures
        0 <= side_start(r, j) < side_start(r, j + 1) <= r.len(),
        forall|p: int|
            side_start(r, j) < p < side_start(r, j + 1) ==> !#[trigger] is_corner(
                r,
                rot(p, corner_indices(r, r.len() as int)[0], r.len() as int),
            ),
{
    let m = r.len() as int;
    lemma_corner_indices(r, m);
    let ci = corner_indices(r, m);
    let n = ci.len() as int;
    let l0 = ci[0];
    let a = side_start(r, j);
    let b = side_start(r, j + 1);
    assert(0 <= l0 <= ci[j] < m);
    if j + 1 < n {
        assert(ci[j] < ci[j + 1]);
    }
    assert forall|p: int| a < p < b implies !#[trigger] is_corner(r, rot(p, l0, m)) by {
        if j + 1 < n {
            assert(ci[j] < p + l0 < ci[j + 1]);
            assert(!is_corner(r, p + l0));
        } else if p + l0 < m {
            assert(ci[n - 1] < p + l0 < m);
            assert(!is_corner(r, p + l0));
        } else {
            assert(0 <= p + l0 - m < ci[0]);
            assert(!is_corner(r, p + l0 - m));
        }
    }
}

/// Side `j` of the corner ring of a closed boundary walk is a run without turns of
/// the walk started at its first corner.
proof fn lemma_side_straight(s: Set<(int, int)>, t: Seq<(int, int)>, t32: Seq<(i32, i32)>, j: int)
    requires
        closed_edge_walk(s, t),
        t32.len() == t.len(),
        forall|i: int| 0 <= i < t.len() ==> #[trigger] is_corner(t32, i) == turns_at(t, i),
        0 <= j < corners_upto(t32, t.len() as int).len(),
    ensures
        0 <= side_start(t32, j) < side_start(t32, j + 1) <= t.len(),
        forall|p: int|
            side_start(t32, j) < p < side_start(t32, j + 1) ==> !#[trigger] turns_at(
                rotated(t, corner_indices(t32, t.len() as int)[0]),
                p,
            ),
{
    let m = t.len() as int;
    lemma_side_has_no_corner(t32, j);
    lemma_corner_indices(t32, m);
    let l0 = corner_indices(t32, m)[0];
    let u = rotated(t, l0);
    lemma_rotated_walk(s, t, l0);
    let a = side_start(t32, j);
    let b = side_start(t32, j + 1);
    assert forall|p: int| a < p < b implies !#[trigger] turns_at(u, p) by {
        assert(turns_at(u, p) == turns_at(t, rot(p, l0, m)));
        assert(!is_corner(t32, rot(p, l0, m)));
    }
}

/// Side `j` of the corner ring of a closed boundary walk collects `∮ x dy` of the
/// walk's steps from corner `j` to the next corner.
#[verifier::spinoff_prover]
#[verifier::rlimit(50)]
proof fn lemma_side_x_dy(s: Set<(int, int)>, t: Seq<(int, int)>, t32: Seq<(i32, i32)>, j: int)
    requires
        closed_edge_walk(s, t),
        t32.len() == t.len(),
        forall|k: int|
            0 <= k < t.len() ==> (#[trigger] t32[k]).0 as int == t[k].0 && t32[k].1 as int == t[k].1,
        forall|i: int| 0 <= i < t.len() ==> #[trigger] is_corner(t32, i) == turns_at(t, i),
        0 <= j < corners_upto(t32, t.len() as int).len(),
    ensures
        0 <= side_start(t32, j) < side_start(t32, j + 1) <= t.len(),
        range_sum(
            walk_x_dy_term(rotated(t, corner_indices(t32, t.len() as int)[0])),
            side_start(t32, j),
            side_start(t32, j + 1),
        ) == x_dy_term(close_ring(corners_upto(t32, t.len() as int)))(j),
{
    let m = t.len() as int;
    lemma_side_straight(s, t, t32, j);
    lemma_corner_indices(t32, m);
    let ci = corner_indices(t32, m);
    let co = corners_upto(t32, m);
    let n = co.len() as int;
    let l0 = ci[0];
    let u = rotated(t, l0);
    let c = close_ring(co);
    lemma_rotated_walk(s, t, l0);
    let a = side_start(t32, j);
    let b = side_start(t32, j + 1);
    lemma_straight_x_dy(s, u, a, b);
    assert(u[a] == t[ci[j]]);
    assert(c[j] == t32[ci[j]]);
    let e = if j + 1 < n { ci[j + 1] } else { ci[0] };
    assert(u[wrap(b, m)] == t[e]);
    assert(c[j + 1] == t32[e]);
    assert(t32[e].1 as int == t[e].1);
    assert(t32[ci[j]].0 as int == t[ci[j]].0 && t32[ci[j]].1 as int == t[ci[j]].1);
}

proof fn lemma_sides_sum(
    f: spec_fn(int) -> int,
    g: spec_fn(int) -> int,
    a: spec_fn(int) -> int,
    n: int,
)
    requires
        0 <= n,
        a(0) == 0,
        forall|j: int| 0 <= j < n ==> 0 <= #[trigger] a(j) <= a(j + 1),
        forall|j: int| 0 <= j < n ==> #[trigger] range_sum(f, a(j), a(j + 1)) == g(j),
    ensures
        range_sum(f, 0, a(n)) == range_sum(g, 0, n),
    decreases n,
{
    if n > 0 {
        lemma_sides_sum(f, g, a, n - 1);
        assert(0 <= a(n - 1) <= a(n));
        lemma_range_split(f, 0, a(n - 1), a(n));
        assert(range_sum(f, a(n - 1), a(n)) == g(n - 1));
    }
}

/// `∮ x dy` around the outline of a set of pixels is `∮ x dy` along its boundary walk:
/// dropping the vertices of straight runs changes no area.
proof fn lemma_outline_x_dy(pts: Seq<(int, int)>, w: int, h: int)
    requires
        pts.len() > 0,
        inside(pts, w, h),
        0 <= w < 0x7fff_ffff,
        0 <= h < 0x7fff_ffff,
    ensures
        x_dy(outline_of(pts)) == range_sum(
            walk_x_dy_term(boundary_walk(pts)),
            0,
            boundary_walk(pts).len() as int,
        ),
{
    let s = pts.to_set();
    let t = boundary_walk(pts);
    lemma_walk_in_range(pts, w, h);
    let m = t.len() as int;
    let t32 = as_i32(t);
    let closed = close_if_open(t32);
    assert(closed == t32.push(t32[0]));
    assert(open_ring(closed) =~= t32);
    let out = outline_of(pts);
    if m < 3 {
        assert(out == t32.push(t32[0]));
        lemma_x_dy_sum(out);
        assert forall|k: int| 0 <= k < m implies #[trigger] x_dy_term(out)(k) == walk_x_dy_term(t)(k)
            by {
            assert(out[k] == t32[k]);
            assert(out[k + 1] == t32[cyc_next(k, m)]);
            assert(t32[k].0 as int == t[k].0 && t32[k].1 as int == t[k].1);
            assert(t32[cyc_next(k, m)].1 as int == t[cyc_next(k, m)].1);
        }
        lemma_range_ext(x_dy_term(out), walk_x_dy_term(t), 0, m);
    } else {
        lemma_walk_turns(s, t);
        lemma_turns_are_corners(t, t32);
        let i0 = choose|i: int| 0 <= i < m && turns_at(t, i);
        lemma_corner_listed(t32, m, i0);
        lemma_corner_indices(t32, m);
        let co = corners_upto(t32, m);
        let n = co.len() as int;
        assert(out == close_ring(co));
        let ci = corner_indices(t32, m);
        let u = rotated(t, ci[0]);
        let a = |j: int| side_start(t32, j);
        assert forall|j: int| 0 <= j < n implies 0 <= #[trigger] a(j) <= a(j + 1) && range_sum(
            walk_x_dy_term(u),
            a(j),
            a(j + 1),
        ) == x_dy_term(out)(j) by {
            lemma_side_x_dy(s, t, t32, j);
        }
        lemma_sides_sum(walk_x_dy_term(u), x_dy_term(out), a, n);
        lemma_rotated_x_dy(s, t, ci[0]);
        lemma_x_dy_sum(out);
    }
}

/// When the boundary walk of a set of pixels takes every boundary edge of the set
/// (the set has no hole), the outline's polygon has as much area as there are
/// pixels: the shoelace formula gives twice the pixel count.
pub proof fn outline_area_is_pixel_count(pts: Seq<(int, int)>, w: int, h: int)
    requires
        pts.len() > 0,
        pts.no_duplicates(),
        inside(pts, w, h),
        0 <= w < 0x7fff_ffff,
        0 <= h < 0x7fff_ffff,
        boundary_walk(pts).len() == open_side_total(pts.to_set(), pts),
    ensures
        shoelace(outline_of(pts)) == 2 * pts.len(),
{
    lemma_outline_x_dy(pts, w, h);
    lemma_walk_x_dy(pts);
    outline_is_rectilinear(pts, w, h);
    outline_is_nonempty_closed_ring(pts, w, h);
    lemma_shoelace_rectilinear(outline_of(pts));
}

/// The outline of a list of pixels depends only on the set of pixels it holds, not
/// on their order or on repeats.
pub proof fn outline_depends_only_on_the_pixel_set(a: Seq<(int, int)>, b: Seq<(int, int)>)
    requires
        a.to_set() == b.to_set(),
    ensures
        outline_of(a) == outline_of(b),
{
    if a.len() == 0 && b.len() > 0 {
        assert(b.to_set().contains(b[0]));
    }
    if b.len() == 0 && a.len() > 0 {
        assert(a.to_set().contains(a[0]));
    }
    if a.len() > 0 {
        lemma_boundary_walk_of_set(a, b);
    }
}

} // verus!
