//! The boundary walk of a pixel set closes: started on a boundary edge, it
//! always finds a next boundary edge, never merges two walks, and so comes back
//! to its first edge within as many steps as the set has boundary edges.
use vstd::prelude::*;
use vstd::set_lib::*;
use crate::outline::{
    is_edge, next_dir, trace_from, top_left, open_side_total, cyc_next,
    boundary_walk, lemma_top_left_exists, lemma_edge_corners, outline_of, close_if_open,
    as_i32, is_corner, corners_upto, open_ring, close_ring, cyc_prev, collapsed_ring_is_closed,
    collapsed,
};
use crate::counting::inside;

verus! {

/// Edge `e = (x, y, dx, dy)` (corner and direction) is a boundary edge of `s`.
pub open spec fn is_bedge(s: Set<(int, int)>, e: (int, int, int, int)) -> bool {
    is_edge(s, (e.0, e.1), (e.2, e.3))
}

/// The boundary edge the walk takes after `e` (or `e` itself where none leaves its end).
pub open spec fn succ(s: Set<(int, int)>, e: (int, int, int, int)) -> (int, int, int, int) {
    let q = (e.0 + e.2, e.1 + e.3);
    match next_dir(s, q, (e.2, e.3)) {
        Some(d) => (q.0, q.1, d.0, d.1),
        None => e,
    }
}

/// The edge reached after `k` steps of the walk from `e`.
pub open spec fn walk(s: Set<(int, int)>, e: (int, int, int, int), k: nat) -> (int, int, int, int)
    decreases k,
{
    if k == 0 {
        e
    } else {
        succ(s, walk(s, e, (k - 1) as nat))
    }
}

/// At the end of a boundary edge another boundary edge leaves.
proof fn lemma_next_exists(s: Set<(int, int)>, e: (int, int, int, int))
    requires
        is_bedge(s, e),
    ensures
        next_dir(s, (e.0 + e.2, e.1 + e.3), (e.2, e.3)) is Some,
        is_bedge(s, succ(s, e)),
{
    let q = (e.0 + e.2, e.1 + e.3);
    let a = s.contains((q.0 - 1, q.1 - 1));
    let b = s.contains((q.0, q.1 - 1));
    let c = s.contains((q.0 - 1, q.1));
    let d = s.contains(q);
    if e.2 == 1 && e.3 == 0 {
        assert(c && !a);
    } else if e.2 == 0 && e.3 == 1 {
        assert(a && !b);
    } else if e.2 == -1 && e.3 == 0 {
        assert(b && !d);
    } else {
        assert(e.2 == 0 && e.3 == -1);
        assert(d && !c);
    }
}

/// Two boundary edges that lead to the same next edge are the same edge.
proof fn lemma_succ_injective(
    s: Set<(int, int)>,
    e1: (int, int, int, int),
    e2: (int, int, int, int),
)
    requires
        is_bedge(s, e1),
        is_bedge(s, e2),
        succ(s, e1) == succ(s, e2),
    ensures
        e1 == e2,
{
    lemma_next_exists(s, e1);
    lemma_next_exists(s, e2);
    let q = (e1.0 + e1.2, e1.1 + e1.3);
    assert(q == (e2.0 + e2.2, e2.1 + e2.3));
    let a = s.contains((q.0 - 1, q.1 - 1));
    let b = s.contains((q.0, q.1 - 1));
    let c = s.contains((q.0 - 1, q.1));
    let d = s.contains(q);
    if (e1.2, e1.3) != (e2.2, e2.3) {
        assert(false);
    }
}

/// The boundary edges of pixel `p` whose outer side faces a pixel outside `s`.
pub open spec fn pixel_edges(s: Set<(int, int)>, p: (int, int)) -> Seq<(int, int, int, int)> {
    (if s.contains((p.0, p.1 - 1)) {
        Seq::empty()
    } else {
        seq![(p.0, p.1, 1int, 0int)]
    }) + (if s.contains((p.0 + 1, p.1)) {
        Seq::empty()
    } else {
        seq![(p.0 + 1, p.1, 0int, 1int)]
    }) + (if s.contains((p.0, p.1 + 1)) {
        Seq::empty()
    } else {
        seq![(p.0 + 1, p.1 + 1, -1int, 0int)]
    }) + (if s.contains((p.0 - 1, p.1)) {
        Seq::empty()
    } else {
        seq![(p.0, p.1 + 1, 0int, -1int)]
    })
}

/// The boundary edges of the pixels `pts`, pixel by pixel.
pub open spec fn edge_list(s: Set<(int, int)>, pts: Seq<(int, int)>) -> Seq<(int, int, int, int)>
    decreases pts.len(),
{
    if pts.len() == 0 {
        Seq::empty()
    } else {
        edge_list(s, pts.drop_last()) + pixel_edges(s, pts.last())
    }
}

pub(crate) proof fn lemma_edge_list_len(s: Set<(int, int)>, pts: Seq<(int, int)>)
    ensures
        edge_list(s, pts).len() == open_side_total(s, pts),
    decreases pts.len(),
{
    if pts.len() > 0 {
        lemma_edge_list_len(s, pts.drop_last());
    }
}

proof fn lemma_edge_in_list(s: Set<(int, int)>, pts: Seq<(int, int)>, i: int, e: (int, int, int, int))
    requires
        0 <= i < pts.len(),
        pixel_edges(s, pts[i]).contains(e),
    ensures
        edge_list(s, pts).contains(e),
    decreases pts.len(),
{
    let rest = pts.drop_last();
    let pe = pixel_edges(s, pts.last());
    if i == pts.len() - 1 {
        let k = choose|k: int| 0 <= k < pe.len() && pe[k] == e;
        assert(edge_list(s, pts)[edge_list(s, rest).len() + k] == e);
    } else {
        assert(rest[i] == pts[i]);
        lemma_edge_in_list(s, rest, i, e);
        let k = choose|k: int| 0 <= k < edge_list(s, rest).len() && edge_list(s, rest)[k] == e;
        assert(edge_list(s, pts)[k] == e);
    }
}

/// Every boundary edge of the set of `pts` is listed by `edge_list`.
pub(crate) proof fn lemma_bedge_listed(s: Set<(int, int)>, pts: Seq<(int, int)>, e: (int, int, int, int))
    requires
        s == pts.to_set(),
        is_bedge(s, e),
    ensures
        edge_list(s, pts).contains(e),
{
    let r = if e.2 == 1 && e.3 == 0 {
        (e.0, e.1)
    } else if e.2 == 0 && e.3 == 1 {
        (e.0 - 1, e.1)
    } else if e.2 == -1 && e.3 == 0 {
        (e.0 - 1, e.1 - 1)
    } else {
        (e.0, e.1 - 1)
    };
    assert(s.contains(r));
    let i = choose|i: int| 0 <= i < pts.len() && pts[i] == r;
    let pe = pixel_edges(s, r);
    if e.2 == 1 && e.3 == 0 {
        assert(pe[0] == e);
    } else if e.2 == 0 && e.3 == 1 {
        assert(pe.contains(e)) by {
            let k = if s.contains((r.0, r.1 - 1)) { 0int } else { 1int };
            assert(pe[k] == e);
        }
    } else if e.2 == -1 && e.3 == 0 {
        assert(pe.contains(e)) by {
            let k = (if s.contains((r.0, r.1 - 1)) { 0int } else { 1int }) + (if s.contains(
                (r.0 + 1, r.1),
            ) {
                0int
            } else {
                1int
            });
            assert(pe[k] == e);
        }
    } else {
        assert(pe.contains(e)) by {
            let k = (if s.contains((r.0, r.1 - 1)) { 0int } else { 1int }) + (if s.contains(
                (r.0 + 1, r.1),
            ) {
                0int
            } else {
                1int
            }) + (if s.contains((r.0, r.1 + 1)) { 0int } else { 1int });
            assert(pe[k] == e);
        }
    }
    lemma_edge_in_list(s, pts, i, e);
}

/// Every edge of a walk that starts on a boundary edge is a boundary edge.
proof fn lemma_walk_on_edges(s: Set<(int, int)>, e: (int, int, int, int), k: nat)
    requires
        is_bedge(s, e),
    ensures
        is_bedge(s, walk(s, e, k)),
    decreases k,
{
    if k > 0 {
        lemma_walk_on_edges(s, e, (k - 1) as nat);
        lemma_next_exists(s, walk(s, e, (k - 1) as nat));
    }
}

/// A walk that meets an earlier edge again has come back to its start.
proof fn lemma_walk_returns(s: Set<(int, int)>, e: (int, int, int, int), i: nat, j: nat)
    requires
        is_bedge(s, e),
        i < j,
        walk(s, e, i) == walk(s, e, j),
    ensures
        walk(s, e, 0) == walk(s, e, (j - i) as nat),
    decreases i,
{
    if i > 0 {
        lemma_walk_on_edges(s, e, (i - 1) as nat);
        lemma_walk_on_edges(s, e, (j - 1) as nat);
        lemma_succ_injective(s, walk(s, e, (i - 1) as nat), walk(s, e, (j - 1) as nat));
        lemma_walk_returns(s, e, (i - 1) as nat, (j - 1) as nat);
    }
}

/// Within `open_side_total` steps the walk meets its first edge again.
proof fn lemma_walk_cycle_bound(s: Set<(int, int)>, pts: Seq<(int, int)>, e: (int, int, int, int))
    requires
        s == pts.to_set(),
        is_bedge(s, e),
    ensures
        exists|r: nat| 1 <= r <= open_side_total(s, pts) && #[trigger] walk(s, e, r) == e,
{
    let n = open_side_total(s, pts);
    lemma_edge_list_len(s, pts);
    let el = edge_list(s, pts);
    let ws = Seq::new((n + 1) as nat, |k: int| walk(s, e, k as nat));
    assert forall|x: (int, int, int, int)| #[trigger] ws.to_set().contains(x) implies el.to_set().contains(
        x,
    ) by {
        let k = choose|k: int| 0 <= k < ws.len() && ws[k] == x;
        lemma_walk_on_edges(s, e, k as nat);
        lemma_bedge_listed(s, pts, x);
    }
    el.lemma_cardinality_of_set();
    lemma_len_subset(ws.to_set(), el.to_set());
    if ws.no_duplicates() {
        ws.unique_seq_to_set();
        assert(false);
    }
    let (i, j) = choose|i: int, j: int|
        0 <= i < ws.len() && 0 <= j < ws.len() && i != j && ws[i] == ws[j];
    if i < j {
        lemma_walk_returns(s, e, i as nat, j as nat);
        assert(walk(s, e, (j - i) as nat) == e);
    } else {
        lemma_walk_returns(s, e, j as nat, i as nat);
        assert(walk(s, e, (i - j) as nat) == e);
    }
}

/// The first return of the walk, searched from step `k` on.
proof fn lemma_first_return(s: Set<(int, int)>, e: (int, int, int, int), k: nat, r: nat) -> (m: nat)
    requires
        1 <= k <= r,
        walk(s, e, r) == e,
        forall|j: nat| 1 <= j < k ==> #[trigger] walk(s, e, j) != e,
    ensures
        1 <= m <= r,
        walk(s, e, m) == e,
        forall|j: nat| 1 <= j < m ==> #[trigger] walk(s, e, j) != e,
    decreases r - k,
{
    if walk(s, e, k) == e {
        k
    } else {
        lemma_first_return(s, e, k + 1, r)
    }
}

/// Up to its first return `m`, the walk from `e` lists the corners of its edges.
proof fn lemma_trace_is_walk(
    s: Set<(int, int)>,
    e: (int, int, int, int),
    m: nat,
    fuel: nat,
    k: nat,
)
    requires
        is_bedge(s, e),
        1 <= m <= fuel,
        walk(s, e, m) == e,
        forall|j: nat| 1 <= j < m ==> #[trigger] walk(s, e, j) != e,
        k < m,
    ensures
        trace_from(s, e, walk(s, e, k), (fuel - k) as nat) == Seq::new(
            (m - k) as nat,
            |i: int| (walk(s, e, (k + i) as nat).0, walk(s, e, (k + i) as nat).1),
        ),
    decreases m - k,
{
    let cur = walk(s, e, k);
    lemma_walk_on_edges(s, e, k);
    lemma_next_exists(s, cur);
    let t = trace_from(s, e, cur, (fuel - k) as nat);
    let want = Seq::new(
        (m - k) as nat,
        |i: int| (walk(s, e, (k + i) as nat).0, walk(s, e, (k + i) as nat).1),
    );
    assert(walk(s, e, (k + 1) as nat) == succ(s, cur));
    if k + 1 == m {
        assert(t =~= want);
    } else {
        assert(walk(s, e, (k + 1) as nat) != e);
        lemma_trace_is_walk(s, e, m, fuel, (k + 1) as nat);
        let rest = trace_from(s, e, walk(s, e, (k + 1) as nat), (fuel - (k + 1)) as nat);
        assert(t == seq![(cur.0, cur.1)] + rest);
        assert(t =~= want);
    }
}

/// The boundary walk of a non-empty set of pixels closes on itself before it runs
/// out of steps: it visits at least two corners, each step from one corner to the
/// next is a boundary edge of the set, and so is the step from the last corner
/// back to the first.
pub proof fn boundary_walk_is_closed(pts: Seq<(int, int)>)
    requires
        pts.len() > 0,
    ensures
        boundary_walk(pts).len() >= 2,
        forall|k: int|
            0 <= k < boundary_walk(pts).len() ==> is_edge(
                pts.to_set(),
                #[trigger] boundary_walk(pts)[k],
                (
                    boundary_walk(pts)[cyc_next(k, boundary_walk(pts).len() as int)].0 - boundary_walk(
                        pts,
                    )[k].0,
                    boundary_walk(pts)[cyc_next(k, boundary_walk(pts).len() as int)].1 - boundary_walk(
                        pts,
                    )[k].1,
                ),
            ),
{
    let s = pts.to_set();
    lemma_top_left_exists(pts);
    let p = choose|p: (int, int)| top_left(s, p);
    let st = (p.0, p.1, 1int, 0int);
    assert(is_bedge(s, st));
    let fuel = open_side_total(s, pts) as nat;
    lemma_walk_cycle_bound(s, pts, st);
    let r = choose|r: nat| 1 <= r <= open_side_total(s, pts) && #[trigger] walk(s, st, r) == st;
    let m = lemma_first_return(s, st, 1, r);
    lemma_trace_is_walk(s, st, m, fuel, 0);
    let t = boundary_walk(pts);
    assert(walk(s, st, 0) == st);
    assert(t == Seq::new(m, |i: int| (walk(s, st, (0 + i) as nat).0, walk(s, st, (0 + i) as nat).1)));
    lemma_next_exists(s, st);
    if m == 1 {
        assert(walk(s, st, 1) == succ(s, walk(s, st, 0)));
        assert(false);
    }
    assert forall|k: int| 0 <= k < t.len() implies is_edge(
        s,
        #[trigger] t[k],
        (t[cyc_next(k, t.len() as int)].0 - t[k].0, t[cyc_next(k, t.len() as int)].1 - t[k].1),
    ) by {
        let wk = walk(s, st, k as nat);
        lemma_walk_on_edges(s, st, k as nat);
        lemma_next_exists(s, wk);
        assert(walk(s, st, (k + 1) as nat) == succ(s, wk));
        assert(t[k] == (wk.0, wk.1));
        if k + 1 < m {
            assert(t[k + 1] == (walk(s, st, (k + 1) as nat).0, walk(s, st, (k + 1) as nat).1));
        } else {
            assert(t[0] == (st.0, st.1));
        }
    }
}

/// The boundary walk of a non-empty set of pixels, edge by edge: it starts on a
/// boundary edge `st`, meets no edge twice in its `m` steps, comes back to `st` after
/// them, and its corners and steps are those of its edges.
pub(crate) proof fn lemma_boundary_walk_edges(pts: Seq<(int, int)>) -> (r: ((int, int, int, int), nat))
    requires
        pts.len() > 0,
    ensures
        is_bedge(pts.to_set(), r.0),
        2 <= r.1 == boundary_walk(pts).len(),
        r.1 <= open_side_total(pts.to_set(), pts),
        walk(pts.to_set(), r.0, r.1) == r.0,
        forall|i: int, j: int|
            0 <= i < j < r.1 ==> #[trigger] walk(pts.to_set(), r.0, i as nat) != #[trigger] walk(
                pts.to_set(),
                r.0,
                j as nat,
            ),
        forall|k: int|
            0 <= k < r.1 ==> is_bedge(pts.to_set(), #[trigger] walk(pts.to_set(), r.0, k as nat)),
        forall|k: int|
            0 <= k < r.1 ==> #[trigger] boundary_walk(pts)[k] == (
                walk(pts.to_set(), r.0, k as nat).0,
                walk(pts.to_set(), r.0, k as nat).1,
            ),
        forall|k: int|
            0 <= k < r.1 ==> #[trigger] step_of(boundary_walk(pts), k) == (
                walk(pts.to_set(), r.0, k as nat).2,
                walk(pts.to_set(), r.0, k as nat).3,
            ),
{
    let s = pts.to_set();
    lemma_top_left_exists(pts);
    let p = choose|p: (int, int)| top_left(s, p);
    let st = (p.0, p.1, 1int, 0int);
    assert(is_bedge(s, st));
    let fuel = open_side_total(s, pts) as nat;
    lemma_walk_cycle_bound(s, pts, st);
    let r = choose|r: nat| 1 <= r <= open_side_total(s, pts) && #[trigger] walk(s, st, r) == st;
    let m = lemma_first_return(s, st, 1, r);
    lemma_trace_is_walk(s, st, m, fuel, 0);
    boundary_walk_is_closed(pts);
    let t = boundary_walk(pts);
    assert(walk(s, st, 0) == st);
    assert(t == Seq::new(m, |i: int| (walk(s, st, (0 + i) as nat).0, walk(s, st, (0 + i) as nat).1)));
    assert forall|i: int, j: int| 0 <= i < j < m implies #[trigger] walk(s, st, i as nat)
        != #[trigger] walk(s, st, j as nat) by {
        if walk(s, st, i as nat) == walk(s, st, j as nat) {
            lemma_walk_returns(s, st, i as nat, j as nat);
            assert(walk(s, st, (j - i) as nat) != st);
        }
    }
    assert forall|k: int| 0 <= k < m implies is_bedge(s, #[trigger] walk(s, st, k as nat)) by {
        lemma_walk_on_edges(s, st, k as nat);
    }
    assert forall|k: int| 0 <= k < m implies #[trigger] t[k] == (
        walk(s, st, k as nat).0,
        walk(s, st, k as nat).1,
    ) by {}
    assert forall|k: int| 0 <= k < m implies #[trigger] step_of(t, k) == (
        walk(s, st, k as nat).2,
        walk(s, st, k as nat).3,
    ) by {
        let wk = walk(s, st, k as nat);
        lemma_walk_on_edges(s, st, k as nat);
        lemma_next_exists(s, wk);
        assert(walk(s, st, (k + 1) as nat) == succ(s, wk));
        if k + 1 < m {
            assert(t[k + 1] == (walk(s, st, (k + 1) as nat).0, walk(s, st, (k + 1) as nat).1));
        } else {
            assert(t[0] == (st.0, st.1));
        }
    }
    (st, m)
}

/// The boundary walk of a non-empty list of pixels depends only on the set the list holds.
pub(crate) proof fn lemma_boundary_walk_of_set(a: Seq<(int, int)>, b: Seq<(int, int)>)
    requires
        a.len() > 0,
        a.to_set() == b.to_set(),
    ensures
        boundary_walk(a) == boundary_walk(b),
{
    let s = a.to_set();
    lemma_top_left_exists(a);
    let p = choose|p: (int, int)| top_left(s, p);
    let st = (p.0, p.1, 1int, 0int);
    assert(is_bedge(s, st));
    let fa = open_side_total(s, a) as nat;
    let fb = open_side_total(s, b) as nat;
    lemma_walk_cycle_bound(s, a, st);
    lemma_walk_cycle_bound(s, b, st);
    let ra = choose|r: nat| 1 <= r <= open_side_total(s, a) && #[trigger] walk(s, st, r) == st;
    let rb = choose|r: nat| 1 <= r <= open_side_total(s, b) && #[trigger] walk(s, st, r) == st;
    let ma = lemma_first_return(s, st, 1, ra);
    let mb = lemma_first_return(s, st, 1, rb);
    if ma < mb {
        assert(walk(s, st, ma) != st);
    }
    if mb < ma {
        assert(walk(s, st, mb) != st);
    }
    lemma_trace_is_walk(s, st, ma, fa, 0);
    lemma_trace_is_walk(s, st, ma, fb, 0);
    assert(walk(s, st, 0) == st);
    assert(boundary_walk(a) == trace_from(s, st, st, fa));
    assert(boundary_walk(b) == trace_from(s, st, st, fb));
}

/// A boundary walk never turns straight back.
pub(crate) proof fn lemma_no_reversal(s: Set<(int, int)>, a: (int, int), d: (int, int), d2: (int, int))
    requires
        is_edge(s, a, d),
        is_edge(s, (a.0 + d.0, a.1 + d.1), d2),
    ensures
        d2 != (-d.0, -d.1),
{
    lemma_edge_corners(s, a, d);
}

/// A closed walk whose steps all go the same way cannot come back.
proof fn lemma_straight_walk_open(t: Seq<(int, int)>, d: (int, int), k: int)
    requires
        t.len() >= 2,
        d == (1int, 0int) || d == (0int, 1int) || d == (-1int, 0int) || d == (0int, -1int),
        forall|j: int|
            0 <= j < t.len() - 1 ==> t[j + 1].0 == (#[trigger] t[j]).0 + d.0 && t[j + 1].1 == t[j].1
                + d.1,
        0 <= k < t.len(),
    ensures
        t[k].0 == t[0].0 + (if d.0 == 1 { k } else if d.0 == -1 { -k } else { 0 }),
        t[k].1 == t[0].1 + (if d.1 == 1 { k } else if d.1 == -1 { -k } else { 0 }),
    decreases k,
{
    if k > 0 {
        lemma_straight_walk_open(t, d, k - 1);
        assert(t[k].0 == t[k - 1].0 + d.0);
    }
}

pub(crate) proof fn lemma_corner_listed(r: Seq<(i32, i32)>, k: int, i: int)
    requires
        0 <= i < k <= r.len(),
        is_corner(r, i),
    ensures
        corners_upto(r, k).len() > 0,
    decreases k,
{
    if i < k - 1 {
        lemma_corner_listed(r, k - 1, i);
    }
}

/// The step from corner `k` of the closed walk `t` to the next one.
pub open spec fn step_of(t: Seq<(int, int)>, k: int) -> (int, int) {
    let n = cyc_next(k, t.len() as int);
    (t[n].0 - t[k].0, t[n].1 - t[k].1)
}

/// The closed walk `t` turns at corner `i`: it does not run straight through it.
pub open spec fn turns_at(t: Seq<(int, int)>, i: int) -> bool {
    let n = t.len() as int;
    let prev = t[cyc_prev(i, n)];
    let curr = t[i];
    let next = t[cyc_next(i, n)];
    !(prev.0 == curr.0 && curr.0 == next.0) && !(prev.1 == curr.1 && curr.1 == next.1)
}

/// `t` is a closed walk along boundary edges of `s`.
pub open spec fn closed_edge_walk(s: Set<(int, int)>, t: Seq<(int, int)>) -> bool {
    &&& t.len() >= 2
    &&& forall|k: int| 0 <= k < t.len() ==> is_edge(s, #[trigger] t[k], step_of(t, k))
}

proof fn lemma_steps_equal(s: Set<(int, int)>, t: Seq<(int, int)>, i: int)
    requires
        closed_edge_walk(s, t),
        forall|j: int| 0 <= j < t.len() ==> !#[trigger] turns_at(t, j),
        0 <= i < t.len(),
    ensures
        step_of(t, i) == step_of(t, 0),
    decreases i,
{
    if i > 0 {
        lemma_steps_equal(s, t, i - 1);
        assert(is_edge(s, t[i - 1], step_of(t, i - 1)));
        assert(is_edge(s, t[i], step_of(t, i)));
        lemma_edge_corners(s, t[i - 1], step_of(t, i - 1));
        lemma_edge_corners(s, t[i], step_of(t, i));
        assert(!turns_at(t, i));
        assert(cyc_next(i - 1, t.len() as int) == i);
        lemma_no_reversal(s, t[i - 1], step_of(t, i - 1), step_of(t, i));
    }
}

/// A closed walk along boundary edges with at least three corners turns somewhere.
pub(crate) proof fn lemma_walk_turns(s: Set<(int, int)>, t: Seq<(int, int)>)
    requires
        closed_edge_walk(s, t),
        t.len() >= 3,
    ensures
        exists|i: int| 0 <= i < t.len() && turns_at(t, i),
{
    if forall|j: int| 0 <= j < t.len() ==> !#[trigger] turns_at(t, j) {
        let m = t.len() as int;
        let d = step_of(t, 0);
        assert(is_edge(s, t[0], d));
        lemma_edge_corners(s, t[0], d);
        assert forall|j: int| 0 <= j < t.len() - 1 implies t[j + 1].0 == (#[trigger] t[j]).0 + d.0
            && t[j + 1].1 == t[j].1 + d.1 by {
            lemma_steps_equal(s, t, j);
            assert(cyc_next(j, m) == j + 1);
        }
        lemma_straight_walk_open(t, d, m - 1);
        lemma_steps_equal(s, t, m - 1);
        assert(cyc_next(m - 1, m) == 0);
        assert(false);
    }
}

/// The boundary walk of a non-empty set inside the `i32` range: a closed walk of
/// boundary edges whose `i32` coordinates are its coordinates, and whose last corner
/// differs from its first.
pub(crate) proof fn lemma_walk_in_range(pts: Seq<(int, int)>, w: int, h: int)
    requires
        pts.len() > 0,
        inside(pts, w, h),
        0 <= w < 0x7fff_ffff,
        0 <= h < 0x7fff_ffff,
    ensures
        closed_edge_walk(pts.to_set(), boundary_walk(pts)),
        as_i32(boundary_walk(pts)).len() == boundary_walk(pts).len(),
        forall|k: int|
            0 <= k < boundary_walk(pts).len() ==> (#[trigger] as_i32(boundary_walk(pts))[k]).0 as int
                == boundary_walk(pts)[k].0 && as_i32(boundary_walk(pts))[k].1 as int == boundary_walk(
                pts,
            )[k].1,
        as_i32(boundary_walk(pts))[boundary_walk(pts).len() - 1] != as_i32(boundary_walk(pts))[0],
        forall|k: int|
            0 <= k < boundary_walk(pts).len() ==> 0 <= (#[trigger] boundary_walk(pts)[k]).0 <= w && 0
                <= boundary_walk(pts)[k].1 <= h,
{
    let s = pts.to_set();
    let t = boundary_walk(pts);
    boundary_walk_is_closed(pts);
    let m = t.len() as int;
    assert forall|k: int| 0 <= k < m implies is_edge(s, #[trigger] t[k], step_of(t, k)) by {
        assert(is_edge(
            s,
            t[k],
            (t[cyc_next(k, m)].0 - t[k].0, t[cyc_next(k, m)].1 - t[k].1),
        ));
    }
    assert(closed_edge_walk(s, t));
    assert forall|k: int| 0 <= k < m implies 0 <= (#[trigger] t[k]).0 <= w && 0 <= t[k].1 <= h by {
        lemma_edge_corners(s, t[k], step_of(t, k));
        let r = choose|r: (int, int)|
            #![trigger s.contains(r)]
            s.contains(r) && 0 <= t[k].0 - r.0 <= 1 && 0 <= t[k].1 - r.1 <= 1 && 0 <= t[k].0
                + step_of(t, k).0 - r.0 <= 1 && 0 <= t[k].1 + step_of(t, k).1 - r.1 <= 1;
        let i = choose|i: int| 0 <= i < pts.len() && pts[i] == r;
        assert(0 <= pts[i].0 < w && 0 <= pts[i].1 < h);
    }
    let t32 = as_i32(t);
    assert forall|k: int| 0 <= k < m implies (#[trigger] t32[k]).0 as int == t[k].0 && t32[k].1 as int
        == t[k].1 by {
        assert(0 <= t[k].0 <= w && 0 <= t[k].1 <= h);
    }
    let last = m - 1;
    assert(is_edge(s, t[last], step_of(t, last)));
    lemma_edge_corners(s, t[last], step_of(t, last));
    assert(cyc_next(last, m) == 0);
    assert(t32[last].0 as int == t[last].0 && t32[last].1 as int == t[last].1);
    assert(t32[0].0 as int == t[0].0 && t32[0].1 as int == t[0].1);
}

/// The outline of a non-empty set of pixels is a non-empty closed ring.
pub proof fn outline_is_nonempty_closed_ring(pts: Seq<(int, int)>, w: int, h: int)
    requires
        pts.len() > 0,
        inside(pts, w, h),
        0 <= w < 0x7fff_ffff,
        0 <= h < 0x7fff_ffff,
    ensures
        outline_of(pts).len() > 0,
        outline_of(pts)[0] == outline_of(pts)[outline_of(pts).len() - 1],
{
    let s = pts.to_set();
    let t = boundary_walk(pts);
    lemma_walk_in_range(pts, w, h);
    let m = t.len() as int;
    let t32 = as_i32(t);
    let closed = close_if_open(t32);
    assert(closed == t32.push(t32[0]));
    assert(open_ring(closed) =~= t32);
    collapsed_ring_is_closed(closed);
    if m >= 3 {
        lemma_walk_turns(s, t);
        lemma_turns_are_corners(t, t32);
        let i = choose|i: int| 0 <= i < m && turns_at(t, i);
        assert(is_corner(t32, i));
        lemma_corner_listed(t32, m, i);
    }
}

/// Each side of the ring `r` is horizontal or vertical.
pub open spec fn rectilinear(r: Seq<(i32, i32)>) -> bool {
    forall|k: int| 0 <= k < r.len() - 1 ==> r[k].0 == (#[trigger] r[k + 1]).0 || r[k].1 == r[k + 1].1
}

/// The indices of the corners among the first `k` vertices of `r`, in order.
pub open spec fn corner_indices(r: Seq<(i32, i32)>, k: int) -> Seq<int>
    decreases k,
{
    if k <= 0 {
        Seq::empty()
    } else if is_corner(r, k - 1) {
        corner_indices(r, k - 1).push(k - 1)
    } else {
        corner_indices(r, k - 1)
    }
}

pub(crate) proof fn lemma_corner_indices(r: Seq<(i32, i32)>, k: int)
    requires
        0 <= k <= r.len(),
    ensures
        corner_indices(r, k).len() == corners_upto(r, k).len(),
        forall|j: int|
            0 <= j < corner_indices(r, k).len() ==> 0 <= #[trigger] corner_indices(r, k)[j] < k
                && corners_upto(r, k)[j] == r[corner_indices(r, k)[j]],
        forall|j1: int, j2: int|
            0 <= j1 < j2 < corner_indices(r, k).len() ==> #[trigger] corner_indices(r, k)[j1]
                < #[trigger] corner_indices(r, k)[j2],
        forall|j: int, i: int|
            0 <= j < corner_indices(r, k).len() - 1 && #[trigger] corner_indices(r, k)[j] < i
                < corner_indices(r, k)[j + 1] ==> !#[trigger] is_corner(r, i),
        corner_indices(r, k).len() > 0 ==> forall|i: int|
            corner_indices(r, k)[corner_indices(r, k).len() - 1] < i < k ==> !#[trigger] is_corner(
                r,
                i,
            ),
        corner_indices(r, k).len() > 0 ==> forall|i: int|
            0 <= i < corner_indices(r, k)[0] ==> !#[trigger] is_corner(r, i),
        corner_indices(r, k).len() == 0 ==> forall|i: int| 0 <= i < k ==> !#[trigger] is_corner(r, i),
    decreases k,
{
    if k > 0 {
        lemma_corner_indices(r, k - 1);
        let ci0 = corner_indices(r, k - 1);
        let ci = corner_indices(r, k);
        if is_corner(r, k - 1) {
            assert(ci == ci0.push(k - 1));
            assert forall|j: int, i: int|
                0 <= j < ci.len() - 1 && #[trigger] ci[j] < i < ci[j + 1] implies !#[trigger] is_corner(
                r,
                i,
            ) by {
                if j < ci0.len() - 1 {
                    assert(ci[j] == ci0[j] && ci[j + 1] == ci0[j + 1]);
                } else {
                    assert(ci[j] == ci0[ci0.len() - 1]);
                }
            }
        }
    }
}

/// Along a run without turns the walk keeps going the same way.
proof fn lemma_run(s: Set<(int, int)>, t: Seq<(int, int)>, i: int, j: int, q: int)
    requires
        closed_edge_walk(s, t),
        0 <= i <= q <= j < t.len(),
        forall|p: int| i < p < j ==> !#[trigger] turns_at(t, p),
    ensures
        q < j ==> step_of(t, q) == step_of(t, i),
        step_of(t, i).0 == 0 ==> t[q].0 == t[i].0,
        step_of(t, i).1 == 0 ==> t[q].1 == t[i].1,
    decreases q - i,
{
    if q > i {
        lemma_run(s, t, i, j, q - 1);
        assert(cyc_next(q - 1, t.len() as int) == q);
        if q < j {
            assert(is_edge(s, t[q - 1], step_of(t, q - 1)));
            assert(is_edge(s, t[q], step_of(t, q)));
            lemma_edge_corners(s, t[q - 1], step_of(t, q - 1));
            lemma_edge_corners(s, t[q], step_of(t, q));
            assert(!turns_at(t, q));
            lemma_no_reversal(s, t[q - 1], step_of(t, q - 1), step_of(t, q));
        }
    }
}

/// Two corners of the walk with no turn between them lie on one horizontal or vertical line.
proof fn lemma_straight_run(s: Set<(int, int)>, t: Seq<(int, int)>, i: int, j: int)
    requires
        closed_edge_walk(s, t),
        0 <= i < j < t.len(),
        forall|p: int| i < p < j ==> !#[trigger] turns_at(t, p),
    ensures
        t[i].0 == t[j].0 || t[i].1 == t[j].1,
{
    lemma_run(s, t, i, j, j);
    assert(is_edge(s, t[i], step_of(t, i)));
    lemma_edge_corners(s, t[i], step_of(t, i));
}

/// Index `q` of the walk rotated to start at `l`, as an index of the walk.
pub open spec fn rot(q: int, l: int, m: int) -> int {
    if q + l < m {
        q + l
    } else {
        q + l - m
    }
}

/// The walk `t` started at its corner `l`.
pub open spec fn rotated(t: Seq<(int, int)>, l: int) -> Seq<(int, int)> {
    Seq::new(t.len(), |q: int| t[rot(q, l, t.len() as int)])
}

pub(crate) proof fn lemma_rotated_walk(s: Set<(int, int)>, t: Seq<(int, int)>, l: int)
    requires
        closed_edge_walk(s, t),
        0 <= l < t.len(),
    ensures
        closed_edge_walk(s, rotated(t, l)),
        forall|q: int|
            0 <= q < t.len() ==> #[trigger] turns_at(rotated(t, l), q) == turns_at(
                t,
                rot(q, l, t.len() as int),
            ),
{
    let m = t.len() as int;
    let u = rotated(t, l);
    assert forall|q: int| 0 <= q < m implies cyc_next(rot(q, l, m), m) == rot(cyc_next(q, m), l, m)
        && cyc_prev(rot(q, l, m), m) == rot(cyc_prev(q, m), l, m) by {}
    assert forall|q: int| 0 <= q < m implies is_edge(s, #[trigger] u[q], step_of(u, q)) by {
        assert(u[q] == t[rot(q, l, m)]);
        assert(u[cyc_next(q, m)] == t[rot(cyc_next(q, m), l, m)]);
        assert(is_edge(s, t[rot(q, l, m)], step_of(t, rot(q, l, m))));
    }
    assert forall|q: int| 0 <= q < m implies #[trigger] turns_at(u, q) == turns_at(t, rot(q, l, m)) by {
        assert(u[cyc_prev(q, m)] == t[rot(cyc_prev(q, m), l, m)]);
        assert(u[cyc_next(q, m)] == t[rot(cyc_next(q, m), l, m)]);
    }
}

/// The last corner of the walk and its first corner, joined across the walk's start,
/// lie on one horizontal or vertical line when no turn lies between them.
proof fn lemma_straight_wrap(s: Set<(int, int)>, t: Seq<(int, int)>, f: int, l: int)
    requires
        closed_edge_walk(s, t),
        0 <= f < l < t.len(),
        forall|p: int| l < p < t.len() ==> !#[trigger] turns_at(t, p),
        forall|p: int| 0 <= p < f ==> !#[trigger] turns_at(t, p),
    ensures
        t[l].0 == t[f].0 || t[l].1 == t[f].1,
{
    let m = t.len() as int;
    let u = rotated(t, l);
    lemma_rotated_walk(s, t, l);
    let j = f + m - l;
    assert forall|p: int| 0 < p < j implies !#[trigger] turns_at(u, p) by {
        assert(turns_at(u, p) == turns_at(t, rot(p, l, m)));
    }
    lemma_straight_run(s, u, 0, j);
    assert(u[0] == t[l]);
    assert(u[j] == t[f]);
}

/// The turns of the walk are the corners of the ring of its `i32` coordinates.
pub(crate) proof fn lemma_turns_are_corners(t: Seq<(int, int)>, t32: Seq<(i32, i32)>)
    requires
        t32.len() == t.len(),
        forall|k: int|
            0 <= k < t.len() ==> (#[trigger] t32[k]).0 as int == t[k].0 && t32[k].1 as int == t[k].1,
    ensures
        forall|i: int| 0 <= i < t.len() ==> #[trigger] is_corner(t32, i) == turns_at(t, i),
{
    let m = t.len() as int;
    assert forall|i: int| 0 <= i < m implies #[trigger] is_corner(t32, i) == turns_at(t, i) by {
        let a = cyc_prev(i, m);
        let b = cyc_next(i, m);
        assert(t32[a].0 as int == t[a].0 && t32[a].1 as int == t[a].1);
        assert(t32[b].0 as int == t[b].0 && t32[b].1 as int == t[b].1);
        assert(t32[i].0 as int == t[i].0 && t32[i].1 as int == t[i].1);
    }
}

/// Two consecutive listed corners of a closed boundary walk lie on one horizontal or
/// vertical line.
proof fn lemma_corner_pair_straight(
    s: Set<(int, int)>,
    t: Seq<(int, int)>,
    t32: Seq<(i32, i32)>,
    k: int,
)
    requires
        closed_edge_walk(s, t),
        t32.len() == t.len(),
        forall|i: int| 0 <= i < t.len() ==> #[trigger] is_corner(t32, i) == turns_at(t, i),
        0 <= k < corner_indices(t32, t.len() as int).len() - 1,
    ensures
        ({
            let ci = corner_indices(t32, t.len() as int);
            t[ci[k]].0 == t[ci[k + 1]].0 || t[ci[k]].1 == t[ci[k + 1]].1
        }),
{
    let m = t.len() as int;
    lemma_corner_indices(t32, m);
    let ci = corner_indices(t32, m);
    assert(ci[k] < ci[k + 1]);
    assert forall|p: int| ci[k] < p < ci[k + 1] implies !#[trigger] turns_at(t, p) by {
        assert(!is_corner(t32, p));
    }
    lemma_straight_run(s, t, ci[k], ci[k + 1]);
}

/// The last listed corner of a closed boundary walk and its first lie on one horizontal
/// or vertical line.
proof fn lemma_corner_wrap_straight(s: Set<(int, int)>, t: Seq<(int, int)>, t32: Seq<(i32, i32)>)
    requires
        closed_edge_walk(s, t),
        t32.len() == t.len(),
        forall|i: int| 0 <= i < t.len() ==> #[trigger] is_corner(t32, i) == turns_at(t, i),
        corner_indices(t32, t.len() as int).len() > 1,
    ensures
        ({
            let ci = corner_indices(t32, t.len() as int);
            let n = ci.len() as int;
            t[ci[n - 1]].0 == t[ci[0]].0 || t[ci[n - 1]].1 == t[ci[0]].1
        }),
{
    let m = t.len() as int;
    lemma_corner_indices(t32, m);
    let ci = corner_indices(t32, m);
    let n = ci.len() as int;
    assert(ci[0] < ci[n - 1]);
    assert forall|p: int| ci[n - 1] < p < m implies !#[trigger] turns_at(t, p) by {
        assert(!is_corner(t32, p));
    }
    assert forall|p: int| 0 <= p < ci[0] implies !#[trigger] turns_at(t, p) by {
        assert(!is_corner(t32, p));
    }
    lemma_straight_wrap(s, t, ci[0], ci[n - 1]);
}

/// Side `k` of the ring of corners of a closed boundary walk is horizontal or vertical.
proof fn lemma_corner_ring_side(
    s: Set<(int, int)>,
    t: Seq<(int, int)>,
    t32: Seq<(i32, i32)>,
    k: int,
)
    requires
        closed_edge_walk(s, t),
        t32.len() == t.len(),
        forall|i: int| 0 <= i < t.len() ==> #[trigger] is_corner(t32, i) == turns_at(t, i),
        forall|q: int|
            0 <= q < t.len() ==> (#[trigger] t32[q]).0 as int == t[q].0 && t32[q].1 as int == t[q].1,
        0 <= k < corners_upto(t32, t.len() as int).len(),
    ensures
        ({
            let out = close_ring(corners_upto(t32, t.len() as int));
            out[k].0 == out[k + 1].0 || out[k].1 == out[k + 1].1
        }),
{
    let m = t.len() as int;
    lemma_corner_indices(t32, m);
    let co = corners_upto(t32, m);
    let ci = corner_indices(t32, m);
    let n = co.len() as int;
    let out = close_ring(co);
    assert(out == co.push(co[0]));
    if k < n - 1 {
        lemma_corner_pair_straight(s, t, t32, k);
        assert(out[k] == t32[ci[k]]);
        assert(out[k + 1] == t32[ci[k + 1]]);
        assert(t32[ci[k]].0 as int == t[ci[k]].0 && t32[ci[k]].1 as int == t[ci[k]].1);
        assert(t32[ci[k + 1]].0 as int == t[ci[k + 1]].0 && t32[ci[k + 1]].1 as int == t[ci[
            k + 1]].1);
    } else {
        assert(out[k] == t32[ci[n - 1]]);
        assert(out[k + 1] == t32[ci[0]]);
        if n > 1 {
            lemma_corner_wrap_straight(s, t, t32);
            assert(t32[ci[0]].0 as int == t[ci[0]].0 && t32[ci[0]].1 as int == t[ci[0]].1);
            assert(t32[ci[n - 1]].0 as int == t[ci[n - 1]].0 && t32[ci[n - 1]].1 as int == t[ci[
                n - 1]].1);
        }
    }
}

/// The corners of a closed boundary walk, joined in order and closed, form a ring
/// whose sides are all horizontal or vertical.
proof fn lemma_corner_ring_rectilinear(s: Set<(int, int)>, t: Seq<(int, int)>, t32: Seq<(i32, i32)>)
    requires
        closed_edge_walk(s, t),
        t.len() >= 3,
        t32.len() == t.len(),
        forall|k: int|
            0 <= k < t.len() ==> (#[trigger] t32[k]).0 as int == t[k].0 && t32[k].1 as int == t[k].1,
    ensures
        rectilinear(close_ring(corners_upto(t32, t.len() as int))),
{
    let m = t.len() as int;
    lemma_walk_turns(s, t);
    lemma_turns_are_corners(t, t32);
    let i0 = choose|i: int| 0 <= i < m && turns_at(t, i);
    lemma_corner_listed(t32, m, i0);
    let out = close_ring(corners_upto(t32, m));
    assert forall|k: int| 0 <= k < out.len() - 1 implies out[k].0 == (#[trigger] out[k + 1]).0
        || out[k].1 == out[k + 1].1 by {
        lemma_corner_ring_side(s, t, t32, k);
    }
}

/// Every side of the outline of a non-empty set of pixels is horizontal or vertical:
/// the outline is stair-stepped along pixel edges.
pub proof fn outline_is_rectilinear(pts: Seq<(int, int)>, w: int, h: int)
    requires
        pts.len() > 0,
        inside(pts, w, h),
        0 <= w < 0x7fff_ffff,
        0 <= h < 0x7fff_ffff,
    ensures
        rectilinear(outline_of(pts)),
{
    let s = pts.to_set();
    let t = boundary_walk(pts);
    lemma_walk_in_range(pts, w, h);
    let m = t.len() as int;
    let t32 = as_i32(t);
    let closed = close_if_open(t32);
    assert(closed == t32.push(t32[0]));
    assert(open_ring(closed) =~= t32);
    let out = outline_of(pts);
    if m < 3 {
        assert(out == t32.push(t32[0]));
        assert forall|k: int| 0 <= k < out.len() - 1 implies out[k].0 == (#[trigger] out[k + 1]).0
            || out[k].1 == out[k + 1].1 by {
            assert(is_edge(s, t[k], step_of(t, k)));
            lemma_edge_corners(s, t[k], step_of(t, k));
            if k == 0 {
                assert(cyc_next(0, m) == 1);
            } else {
                assert(cyc_next(1, m) == 0);
            }
        }
    } else {
        lemma_corner_ring_rectilinear(s, t, t32);
    }
}

/// Each side of the cyclic ring `r` (from a vertex to the next) is horizontal or
/// vertical and not a single point: its ends share exactly one coordinate.
pub open spec fn axis_sides(r: Seq<(i32, i32)>) -> bool {
    forall|k: int|
        0 <= k < r.len() ==> ((#[trigger] r[k]).0 == r[cyc_next(k, r.len() as int)].0) != (r[k].1
            == r[cyc_next(k, r.len() as int)].1)
}

/// The side leaving vertex `k` of the cyclic ring `r` is vertical.
pub open spec fn vertical_from(r: Seq<(i32, i32)>, k: int) -> bool {
    r[k].0 == r[cyc_next(k, r.len() as int)].0
}

/// Past vertices that are not corners, a ring keeps to the line of its side.
proof fn lemma_axis_run(r: Seq<(i32, i32)>, i0: int, n: int, t: int)
    requires
        axis_sides(r),
        0 <= i0 < r.len(),
        1 <= t <= n <= r.len(),
        forall|u: int| 0 < u < n ==> !#[trigger] is_corner(r, rot(u, i0, r.len() as int)),
    ensures
        vertical_from(r, rot(t - 1, i0, r.len() as int)) == vertical_from(r, i0),
        vertical_from(r, i0) ==> r[rot(t, i0, r.len() as int)].0 == r[i0].0,
        !vertical_from(r, i0) ==> r[rot(t, i0, r.len() as int)].1 == r[i0].1,
    decreases t,
{
    let m = r.len() as int;
    assert(cyc_next(rot(t - 1, i0, m), m) == rot(t, i0, m));
    assert(((r[rot(t - 1, i0, m)]).0 == r[cyc_next(rot(t - 1, i0, m), m)].0) != (r[rot(t - 1, i0, m)].1
        == r[cyc_next(rot(t - 1, i0, m), m)].1));
    if t > 1 {
        lemma_axis_run(r, i0, n, t - 1);
        let q = rot(t - 1, i0, m);
        assert(cyc_prev(q, m) == rot(t - 2, i0, m));
        assert(cyc_next(rot(t - 2, i0, m), m) == q);
        assert(!is_corner(r, q));
        assert(((r[rot(t - 2, i0, m)]).0 == r[cyc_next(rot(t - 2, i0, m), m)].0) != (r[rot(
            t - 2,
            i0,
            m,
        )].1 == r[cyc_next(rot(t - 2, i0, m), m)].1));
    }
}

/// How many steps along `r` lead from corner `j` of its corner ring to the next corner.
pub open spec fn corner_gap(r: Seq<(i32, i32)>, j: int) -> int {
    let ci = corner_indices(r, r.len() as int);
    if j < ci.len() - 1 {
        ci[j + 1] - ci[j]
    } else {
        ci[0] + r.len() - ci[ci.len() - 1]
    }
}

/// From corner `j` of the corner ring of `r`, the ring runs straight to the next
/// corner: it arrives there along a side parallel to the one it left by, on the
/// same line.
proof fn lemma_corner_to_corner(r: Seq<(i32, i32)>, j: int)
    requires
        axis_sides(r),
        0 <= j < corners_upto(r, r.len() as int).len(),
    ensures
        ({
            let ci = corner_indices(r, r.len() as int);
            let m = r.len() as int;
            let jn = cyc_next(j, ci.len() as int);
            &&& rot(corner_gap(r, j), ci[j], m) == ci[jn]
            &&& vertical_from(r, cyc_prev(ci[jn], m)) == vertical_from(r, ci[j])
            &&& vertical_from(r, ci[j]) ==> r[ci[jn]].0 == r[ci[j]].0
            &&& !vertical_from(r, ci[j]) ==> r[ci[jn]].1 == r[ci[j]].1
        }),
{
    let m = r.len() as int;
    lemma_corner_indices(r, m);
    let ci = corner_indices(r, m);
    let n = ci.len() as int;
    let i0 = ci[j];
    let g = corner_gap(r, j);
    assert(0 <= ci[0] <= i0 < m);
    if j + 1 < n {
        assert(ci[j] < ci[j + 1]);
    }
    assert(1 <= g <= m);
    assert forall|u: int| 0 < u < g implies !#[trigger] is_corner(r, rot(u, i0, m)) by {
        if j + 1 < n {
            assert(ci[j] < u + i0 < ci[j + 1]);
            assert(!is_corner(r, u + i0));
        } else if u + i0 < m {
            assert(ci[n - 1] < u + i0 < m);
            assert(!is_corner(r, u + i0));
        } else {
            assert(0 <= u + i0 - m < ci[0]);
            assert(!is_corner(r, u + i0 - m));
        }
    }
    lemma_axis_run(r, i0, g, g);
    let e = ci[cyc_next(j, n)];
    assert(rot(g, i0, m) == e);
    assert(cyc_prev(e, m) == rot(g - 1, i0, m));
}

proof fn lemma_corner_indices_are_corners(r: Seq<(i32, i32)>, k: int)
    requires
        0 <= k <= r.len(),
    ensures
        forall|j: int|
            0 <= j < corner_indices(r, k).len() ==> is_corner(r, #[trigger] corner_indices(r, k)[j]),
    decreases k,
{
    if k > 0 {
        lemma_corner_indices_are_corners(r, k - 1);
        let c0 = corner_indices(r, k - 1);
        let c1 = corner_indices(r, k);
        assert forall|j: int| 0 <= j < c1.len() implies is_corner(r, #[trigger] c1[j]) by {
            if j < c0.len() {
                assert(c1[j] == c0[j]);
            }
        }
    }
}

/// In a ring with horizontal or vertical sides that passes no point twice, every
/// vertex of its corner ring is a corner of that ring.
proof fn lemma_corners_stay_corners(r: Seq<(i32, i32)>, j: int)
    requires
        axis_sides(r),
        r.no_duplicates(),
        corners_upto(r, r.len() as int).len() >= 3,
        0 <= j < corners_upto(r, r.len() as int).len(),
    ensures
        is_corner(corners_upto(r, r.len() as int), j),
{
    let m = r.len() as int;
    lemma_corner_indices(r, m);
    let ci = corner_indices(r, m);
    let co = corners_upto(r, m);
    let n = co.len() as int;
    let jp = cyc_prev(j, n);
    let jn = cyc_next(j, n);
    assert(cyc_next(jp, n) == j);
    lemma_corner_to_corner(r, jp);
    lemma_corner_to_corner(r, j);
    let i0 = ci[j];
    lemma_corner_indices_are_corners(r, m);
    assert(is_corner(r, i0));
    assert(co[j] == r[i0] && co[jp] == r[ci[jp]] && co[jn] == r[ci[jn]]);
    assert(jp != j && jn != j);
    assert(ci[jp] != i0 && ci[jn] != i0) by {
        if jp < j {
            assert(ci[jp] < ci[j]);
        } else {
            assert(ci[j] < ci[jp]);
        }
        if jn < j {
            assert(ci[jn] < ci[j]);
        } else {
            assert(ci[j] < ci[jn]);
        }
    }
    let a = cyc_prev(i0, m);
    assert(cyc_next(a, m) == i0);
    assert((r[a].0 == r[i0].0) != (r[a].1 == r[i0].1));
    assert((r[i0].0 == r[cyc_next(i0, m)].0) != (r[i0].1 == r[cyc_next(i0, m)].1));
}

proof fn lemma_all_corners(r: Seq<(i32, i32)>, k: int)
    requires
        0 <= k <= r.len(),
        forall|j: int| 0 <= j < r.len() ==> #[trigger] is_corner(r, j),
    ensures
        corners_upto(r, k) == r.take(k),
    decreases k,
{
    if k > 0 {
        lemma_all_corners(r, k - 1);
        assert(r.take(k) == r.take(k - 1).push(r[k - 1]));
    }
}

/// Collapsing a closed ring whose sides are horizontal or vertical and which passes
/// no point twice (besides closing) a second time changes nothing.
pub proof fn collapse_is_idempotent(ring: Seq<(i32, i32)>)
    requires
        ring.len() >= 2,
        ring[0] == ring[ring.len() - 1],
        axis_sides(ring.drop_last()),
        ring.drop_last().no_duplicates(),
    ensures
        collapsed(collapsed(ring)) == collapsed(ring),
{
    let r = open_ring(ring);
    assert(r == ring.drop_last());
    let once = collapsed(ring);
    if r.len() < 3 {
        assert(once == close_ring(r));
        assert(open_ring(once) == r);
    } else {
        let co = corners_upto(r, r.len() as int);
        assert(once == close_ring(co));
        if co.len() == 0 {
            assert(open_ring(once) == co);
        } else {
            assert(open_ring(once) == co);
            if co.len() >= 3 {
                assert forall|j: int| 0 <= j < co.len() implies #[trigger] is_corner(co, j) by {
                    lemma_corners_stay_corners(r, j);
                }
                lemma_all_corners(co, co.len() as int);
                assert(co.take(co.len() as int) == co);
            }
        }
    }
}

/// At every corner of the boundary walk, arriving with heading `d`, the walk turns
/// right (clockwise on screen, `(-d.1, d.0)` with y growing downward) when that side
/// is a boundary edge, else goes straight on when that is one, else turns left; it
/// never turns back.  So at a corner where two boundary edges leave, the walk takes
/// the right-hand one and goes round the notch there.
pub proof fn boundary_walk_turns_right_first(pts: Seq<(int, int)>)
    requires
        pts.len() > 0,
    ensures
        forall|k: int|
            #![trigger boundary_walk(pts)[k]]
            0 <= k < boundary_walk(pts).len() ==> {
                let t = boundary_walk(pts);
                let s = pts.to_set();
                let d = step_of(t, cyc_prev(k, t.len() as int));
                let e = step_of(t, k);
                &&& is_edge(s, t[k], (-d.1, d.0)) ==> e == (-d.1, d.0)
                &&& !is_edge(s, t[k], (-d.1, d.0)) && is_edge(s, t[k], d) ==> e == d
                &&& !is_edge(s, t[k], (-d.1, d.0)) && !is_edge(s, t[k], d) ==> e == (d.1, -d.0)
            },
{
    let s = pts.to_set();
    let t = boundary_walk(pts);
    let (st, m) = lemma_boundary_walk_edges(pts);
    assert forall|k: int| 0 <= k < m implies {
        let d = step_of(t, cyc_prev(k, m as int));
        let e = step_of(t, k);
        &&& is_edge(s, #[trigger] t[k], (-d.1, d.0)) ==> e == (-d.1, d.0)
        &&& !is_edge(s, t[k], (-d.1, d.0)) && is_edge(s, t[k], d) ==> e == d
        &&& !is_edge(s, t[k], (-d.1, d.0)) && !is_edge(s, t[k], d) ==> e == (d.1, -d.0)
    } by {
        let j = cyc_prev(k, m as int);
        let wj = walk(s, st, j as nat);
        let wk = walk(s, st, k as nat);
        assert(is_bedge(s, wj));
        lemma_next_exists(s, wj);
        if k > 0 {
            assert(j + 1 == k);
            assert(wk == succ(s, wj));
        } else {
            assert(walk(s, st, m) == succ(s, walk(s, st, (m - 1) as nat)));
            assert(wk == st);
        }
        assert(t[k] == (wk.0, wk.1));
        assert(step_of(t, j) == (wj.2, wj.3));
        assert(step_of(t, k) == (wk.2, wk.3));
        lemma_edge_corners(s, (wj.0, wj.1), (wj.2, wj.3));
        let d = (wj.2, wj.3);
        assert(!is_edge(s, (wj.0 + d.0, wj.1 + d.1), (-d.0, -d.1))) by {
            if is_edge(s, (wj.0 + d.0, wj.1 + d.1), (-d.0, -d.1)) {
                lemma_no_reversal(s, (wj.0, wj.1), d, (-d.0, -d.1));
            }
        }
    }
}

} // verus!
