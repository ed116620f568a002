//! Outlines move with their pixels: shifting a set of pixels by `(a, b)` shifts
//! its outline by `(a, b)`, vertex for vertex.
use vstd::prelude::*;
use crate::counting::inside;
use crate::outline::{
    is_edge, next_dir, trace_from, top_left, open_sides, open_side_total, boundary_walk, as_i32,
    close_if_open, open_ring, close_ring, collapsed, corners_upto, is_corner, cyc_prev, cyc_next,
    outline_of, lemma_top_left_exists, lemma_top_left_unique,
};
use crate::walk::lemma_walk_in_range;

verus! {

/// The points moved by `(a, b)`.
pub open spec fn shifted(pts: Seq<(int, int)>, a: int, b: int) -> Seq<(int, int)> {
    pts.map_values(|p: (int, int)| (p.0 + a, p.1 + b))
}

/// The ring's vertices moved by `(a, b)`.
pub open spec fn shifted_ring(r: Seq<(i32, i32)>, a: int, b: int) -> Seq<(i32, i32)> {
    r.map_values(|p: (i32, i32)| ((p.0 + a) as i32, (p.1 + b) as i32))
}

/// `s2` is `s` moved by `(a, b)`.
pub open spec fn set_shifted(s: Set<(int, int)>, s2: Set<(int, int)>, a: int, b: int) -> bool {
    forall|q: (int, int)| #[trigger] s2.contains(q) == s.contains((q.0 - a, q.1 - b))
}

proof fn lemma_shifted_set(pts: Seq<(int, int)>, a: int, b: int)
    ensures
        set_shifted(pts.to_set(), shifted(pts, a, b).to_set(), a, b),
{
    let sp = shifted(pts, a, b);
    assert forall|q: (int, int)| #[trigger] sp.to_set().contains(q) == pts.to_set().contains(
        (q.0 - a, q.1 - b),
    ) by {
        if sp.to_set().contains(q) {
            let i = choose|i: int| 0 <= i < sp.len() && sp[i] == q;
            assert(pts[i] == (q.0 - a, q.1 - b));
        }
        if pts.to_set().contains((q.0 - a, q.1 - b)) {
            let i = choose|i: int| 0 <= i < pts.len() && pts[i] == (q.0 - a, q.1 - b);
            assert(sp[i] == q);
        }
    }
}

proof fn lemma_shifted_total(s: Set<(int, int)>, s2: Set<(int, int)>, pts: Seq<(int, int)>, a: int, b: int)
    requires
        set_shifted(s, s2, a, b),
    ensures
        open_side_total(s2, shifted(pts, a, b)) == open_side_total(s, pts),
    decreases pts.len(),
{
    if pts.len() > 0 {
        assert(shifted(pts, a, b).drop_last() =~= shifted(pts.drop_last(), a, b));
        lemma_shifted_total(s, s2, pts.drop_last(), a, b);
        let p = pts.last();
        let q = (p.0 + a, p.1 + b);
        assert(shifted(pts, a, b).last() == q);
        assert(s2.contains((q.0, q.1 - 1)) == s.contains((p.0, p.1 - 1)));
        assert(s2.contains((q.0 + 1, q.1)) == s.contains((p.0 + 1, p.1)));
        assert(s2.contains((q.0, q.1 + 1)) == s.contains((p.0, p.1 + 1)));
        assert(s2.contains((q.0 - 1, q.1)) == s.contains((p.0 - 1, p.1)));
    }
}

proof fn lemma_shifted_next_dir(
    s: Set<(int, int)>,
    s2: Set<(int, int)>,
    a: int,
    b: int,
    p: (int, int),
    d: (int, int),
)
    requires
        set_shifted(s, s2, a, b),
    ensures
        next_dir(s2, (p.0 + a, p.1 + b), d) == next_dir(s, p, d),
{
    let q = (p.0 + a, p.1 + b);
    assert(s2.contains(q) == s.contains(p));
    assert(s2.contains((q.0, q.1 - 1)) == s.contains((p.0, p.1 - 1)));
    assert(s2.contains((q.0 - 1, q.1)) == s.contains((p.0 - 1, p.1)));
    assert(s2.contains((q.0 - 1, q.1 - 1)) == s.contains((p.0 - 1, p.1 - 1)));
    assert forall|e: (int, int)| #[trigger] is_edge(s2, q, e) == is_edge(s, p, e) by {}
}

proof fn lemma_shifted_trace(
    s: Set<(int, int)>,
    s2: Set<(int, int)>,
    a: int,
    b: int,
    start: (int, int, int, int),
    st: (int, int, int, int),
    fuel: nat,
)
    requires
        set_shifted(s, s2, a, b),
    ensures
        trace_from(s2, (start.0 + a, start.1 + b, start.2, start.3), (st.0 + a, st.1 + b, st.2, st.3), fuel)
            == shifted(trace_from(s, start, st, fuel), a, b),
    decreases fuel,
{
    let start2 = (start.0 + a, start.1 + b, start.2, start.3);
    let st2 = (st.0 + a, st.1 + b, st.2, st.3);
    let lhs = trace_from(s2, start2, st2, fuel);
    let t = trace_from(s, start, st, fuel);
    if fuel > 0 {
        let q = (st.0 + st.2, st.1 + st.3);
        let q2 = (st2.0 + st2.2, st2.1 + st2.3);
        assert(q2 == (q.0 + a, q.1 + b));
        lemma_shifted_next_dir(s, s2, a, b, q, (st.2, st.3));
        match next_dir(s, q, (st.2, st.3)) {
            None => {
                assert(lhs =~= shifted(t, a, b));
            },
            Some(d) => {
                let nst = (q.0, q.1, d.0, d.1);
                let nst2 = (q2.0, q2.1, d.0, d.1);
                assert(nst2 == (nst.0 + a, nst.1 + b, nst.2, nst.3));
                if nst == start {
                    assert(lhs =~= shifted(t, a, b));
                } else {
                    lemma_shifted_trace(s, s2, a, b, start, nst, (fuel - 1) as nat);
                    let rest = trace_from(s, start, nst, (fuel - 1) as nat);
                    assert(t == seq![(st.0, st.1)] + rest);
                    assert(lhs == seq![(st2.0, st2.1)] + shifted(rest, a, b));
                    assert(lhs =~= shifted(t, a, b));
                }
            },
        }
    } else {
        assert(lhs =~= shifted(t, a, b));
    }
}

/// The boundary walk of shifted pixels is the shifted boundary walk.
proof fn lemma_shifted_walk(pts: Seq<(int, int)>, a: int, b: int)
    requires
        pts.len() > 0,
    ensures
        boundary_walk(shifted(pts, a, b)) == shifted(boundary_walk(pts), a, b),
{
    let s = pts.to_set();
    let sp = shifted(pts, a, b);
    let s2 = sp.to_set();
    lemma_shifted_set(pts, a, b);
    lemma_shifted_total(s, s2, pts, a, b);
    lemma_top_left_exists(pts);
    lemma_top_left_exists(sp);
    let p = choose|p: (int, int)| top_left(s, p);
    let p2 = choose|p: (int, int)| top_left(s2, p);
    let pm = (p2.0 - a, p2.1 - b);
    assert(top_left(s, pm)) by {
        assert(s2.contains(p2));
        assert forall|q: (int, int)| #[trigger] s.contains(q) implies pm.1 < q.1 || (pm.1 == q.1
            && pm.0 <= q.0) by {
            assert(s2.contains((q.0 + a, q.1 + b)));
        }
    }
    lemma_top_left_unique(s, p, pm);
    let st = (p.0, p.1, 1int, 0int);
    lemma_shifted_trace(s, s2, a, b, st, st, open_side_total(s, pts) as nat);
}

proof fn lemma_shifted_corners(r: Seq<(i32, i32)>, a: int, b: int, k: int)
    requires
        0 <= k <= r.len(),
        forall|i: int|
            0 <= i < r.len() ==> i32::MIN <= (#[trigger] r[i]).0 + a <= i32::MAX && i32::MIN <= r[i].1
                + b <= i32::MAX,
    ensures
        corners_upto(shifted_ring(r, a, b), k) == shifted_ring(corners_upto(r, k), a, b),
    decreases k,
{
    if k > 0 {
        lemma_shifted_corners(r, a, b, k - 1);
        let r2 = shifted_ring(r, a, b);
        let n = r.len() as int;
        let i = k - 1;
        let pi = cyc_prev(i, n);
        let ni = cyc_next(i, n);
        assert(r2[pi].0 as int == r[pi].0 + a && r2[pi].1 as int == r[pi].1 + b);
        assert(r2[i].0 as int == r[i].0 + a && r2[i].1 as int == r[i].1 + b);
        assert(r2[ni].0 as int == r[ni].0 + a && r2[ni].1 as int == r[ni].1 + b);
        assert(is_corner(r2, i) == is_corner(r, i));
        let c0 = corners_upto(r, k - 1);
        assert(shifted_ring(c0.push(r[i]), a, b) =~= shifted_ring(c0, a, b).push(r2[i]));
    }
}

/// Collapsing commutes with a shift that keeps every coordinate within `i32`.
proof fn lemma_shifted_collapse(w: Seq<(i32, i32)>, a: int, b: int)
    requires
        forall|i: int|
            0 <= i < w.len() ==> i32::MIN <= (#[trigger] w[i]).0 + a <= i32::MAX && i32::MIN <= w[i].1
                + b <= i32::MAX,
    ensures
        collapsed(shifted_ring(w, a, b)) == shifted_ring(collapsed(w), a, b),
{
    let w2 = shifted_ring(w, a, b);
    let n = w.len() as int;
    if n >= 2 {
        assert(w2[0].0 as int == w[0].0 + a && w2[0].1 as int == w[0].1 + b);
        assert(w2[n - 1].0 as int == w[n - 1].0 + a && w2[n - 1].1 as int == w[n - 1].1 + b);
        assert((w2[0] == w2[n - 1]) == (w[0] == w[n - 1]));
    }
    let r = open_ring(w);
    let r2 = open_ring(w2);
    assert(r2 =~= shifted_ring(r, a, b));
    assert forall|i: int| 0 <= i < r.len() implies i32::MIN <= (#[trigger] r[i]).0 + a <= i32::MAX
        && i32::MIN <= r[i].1 + b <= i32::MAX by {
        assert(r[i] == w[i]);
    }
    if r.len() < 3 {
        if r.len() > 0 {
            assert(close_ring(r2) =~= shifted_ring(close_ring(r), a, b));
        } else {
            assert(close_ring(r2) =~= shifted_ring(close_ring(r), a, b));
        }
    } else {
        lemma_shifted_corners(r, a, b, r.len() as int);
        let co = corners_upto(r, r.len() as int);
        if co.len() > 0 {
            assert(close_ring(shifted_ring(co, a, b)) =~= shifted_ring(close_ring(co), a, b));
        } else {
            assert(close_ring(shifted_ring(co, a, b)) =~= shifted_ring(close_ring(co), a, b));
        }
    }
}

/// Shifting a non-empty set of pixels by `(a, b)` shifts its outline by `(a, b)`,
/// vertex for vertex, when both the pixels and the shifted pixels lie in grids whose
/// sides are below `i32::MAX`.
pub proof fn outline_moves_with_its_pixels(
    pts: Seq<(int, int)>,
    a: int,
    b: int,
    w: int,
    h: int,
    w2: int,
    h2: int,
)
    requires
        pts.len() > 0,
        inside(pts, w, h),
        inside(shifted(pts, a, b), w2, h2),
        0 <= w < 0x7fff_ffff,
        0 <= h < 0x7fff_ffff,
        0 <= w2 < 0x7fff_ffff,
        0 <= h2 < 0x7fff_ffff,
    ensures
        outline_of(shifted(pts, a, b)) == shifted_ring(outline_of(pts), a, b),
{
    let sp = shifted(pts, a, b);
    let t = boundary_walk(pts);
    lemma_shifted_walk(pts, a, b);
    lemma_walk_in_range(pts, w, h);
    lemma_walk_in_range(sp, w2, h2);
    let t2 = boundary_walk(sp);
    let m = t.len() as int;
    assert(t2.len() == m);
    let r = as_i32(t);
    let r2 = as_i32(t2);
    assert forall|k: int| 0 <= k < m implies i32::MIN <= (#[trigger] r[k]).0 + a <= i32::MAX
        && i32::MIN <= r[k].1 + b <= i32::MAX && r2[k] == ((r[k].0 + a) as i32, (r[k].1 + b) as i32) by {
        assert(t2[k] == (t[k].0 + a, t[k].1 + b));
        assert(0 <= t2[k].0 <= w2 && 0 <= t2[k].1 <= h2);
        assert(0 <= t[k].0 <= w && 0 <= t[k].1 <= h);
    }
    assert(r2 =~= shifted_ring(r, a, b));
    let wr = close_if_open(r);
    assert(wr == r.push(r[0]));
    assert(close_if_open(r2) == r2.push(r2[0]));
    assert(r2.push(r2[0]) =~= shifted_ring(wr, a, b));
    assert forall|i: int| 0 <= i < wr.len() implies i32::MIN <= (#[trigger] wr[i]).0 + a <= i32::MAX
        && i32::MIN <= wr[i].1 + b <= i32::MAX by {
        if i < m {
            assert(wr[i] == r[i]);
        } else {
            assert(wr[i] == r[0]);
        }
    }
    lemma_shifted_collapse(wr, a, b);
}

} // verus!
