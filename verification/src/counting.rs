//! Counting distinct raster points.
use vstd::prelude::*;
use vstd::set_lib::*;

verus! {

/// Every point of `pts` lies in the `w` by `h` raster.
pub open spec fn inside(pts: Seq<(int, int)>, w: int, h: int) -> bool {
    forall|k: int| 0 <= k < pts.len() ==> 0 <= (#[trigger] pts[k]).0 < w && 0 <= pts[k].1 < h
}

proof fn lemma_index_bounds(x: int, y: int, w: int, h: int)
    requires
        0 <= x < w,
        0 <= y < h,
    ensures
        0 <= y * w + x < w * h,
{
    assert(0 <= y * w) by (nonlinear_arith)
        requires
            0 <= y,
            0 <= w,
    ;
    assert(y * w + x < w * h) by (nonlinear_arith)
        requires
            0 <= x < w,
            0 <= y < h,
    ;
}

proof fn lemma_index_injective(x1: int, y1: int, x2: int, y2: int, w: int)
    requires
        0 <= x1 < w,
        0 <= x2 < w,
        y1 * w + x1 == y2 * w + x2,
    ensures
        x1 == x2,
        y1 == y2,
{
    if y1 < y2 {
        assert(y1 * w + w <= y2 * w) by (nonlinear_arith)
            requires
                y1 < y2,
                0 < w,
        ;
    } else if y2 < y1 {
        assert(y2 * w + w <= y1 * w) by (nonlinear_arith)
            requires
                y2 < y1,
                0 < w,
        ;
    }
}

/// Distinct points of a `w` by `h` raster number at most `w * h`.
pub(crate) proof fn lemma_distinct_points_bound(pts: Seq<(int, int)>, w: int, h: int)
    requires
        pts.no_duplicates(),
        inside(pts, w, h),
        0 <= w,
        0 <= h,
    ensures
        pts.len() <= w * h,
{
    let idx = pts.map_values(|p: (int, int)| p.1 * w + p.0);
    assert forall|i: int, j: int| 0 <= i < idx.len() && 0 <= j < idx.len() && i != j implies idx[i]
        != idx[j] by {
        if idx[i] == idx[j] {
            lemma_index_injective(pts[i].0, pts[i].1, pts[j].0, pts[j].1, w);
            assert(pts[i] == pts[j]);
        }
    }
    assert(idx.no_duplicates());
    assert(0 <= w * h) by (nonlinear_arith)
        requires
            0 <= w,
            0 <= h,
    ;
    if pts.len() > 0 {
        assert(0 <= pts[0].0 < w);
        assert(0 <= pts[0].1 < h);
        lemma_index_bounds(pts[0].0, pts[0].1, w, h);
        lemma_int_range(0, w * h);
        assert forall|v: int| #[trigger] idx.to_set().contains(v) implies set_int_range(
            0,
            w * h,
        ).contains(v) by {
            let k = choose|k: int| 0 <= k < idx.len() && idx[k] == v;
            lemma_index_bounds(pts[k].0, pts[k].1, w, h);
        }
        lemma_len_subset(idx.to_set(), set_int_range(0, w * h));
        idx.unique_seq_to_set();
    }
}

} // verus!
