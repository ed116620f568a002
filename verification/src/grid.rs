//! Two-dimensional rasters held in `ndarray` arrays.
//!
//! A segmentation mask is an `Array2<u8>` of class ids; the flood fill and the
//! outline tracer keep an `Array2<bool>` of marks.  The arrays stay opaque to
//! the verifier: what they hold is named by `mask_rows` / `mask_width` and
//! `mark_rows`, and each `ndarray` call that the logic makes goes through one
//! small wrapper whose contract states what that call does to those names.
use vstd::prelude::*;
use ndarray::Array2;

verus! {

/// A per-pixel class label raster, `height` rows of `width` labels.
#[verifier::external_body]
pub struct SegmentationMask {
    cells: Array2<u8>,
}

/// The labels of a mask, row by row (`mask_rows(m)[y][x]` is the label at row `y`, column `x`).
pub uninterp spec fn mask_rows(m: SegmentationMask) -> Seq<Seq<u8>>;

/// The number of columns a mask was made with.
pub uninterp spec fn mask_width(m: SegmentationMask) -> nat;

/// A mask whose rows all have `mask_width` labels.
pub open spec fn mask_shaped(m: SegmentationMask) -> bool {
    forall|y: int| 0 <= y < mask_rows(m).len() ==> #[trigger] mask_rows(m)[y].len() == mask_width(m)
}

/// A raster of booleans, row by row.
#[verifier::external_body]
pub struct MarkGrid {
    cells: Array2<bool>,
}

/// The marks of a grid, row by row.
pub uninterp spec fn mark_rows(g: MarkGrid) -> Seq<Seq<bool>>;

/// `rows` rows of `cols` copies of `v`.
pub open spec fn filled<T>(rows: nat, cols: nat, v: T) -> Seq<Seq<T>> {
    Seq::new(rows, |y: int| Seq::new(cols, |x: int| v))
}

impl SegmentationMask {
    /// `Array2::zeros((height, width))`: every label 0.  ndarray panics when the
    /// product of the non-zero axis lengths exceeds `isize::MAX`; `requires` leaves that out.
    #[verifier::external_body]
    pub fn zeros(height: usize, width: usize) -> (m: SegmentationMask)
        requires
            (if height == 0 { 1 } else { height as int }) * (if width == 0 { 1 } else { width as int })
                <= isize::MAX,
        ensures
            mask_rows(m) == filled(height as nat, width as nat, 0u8),
            mask_width(m) == width,
    {
        SegmentationMask { cells: Array2::zeros((height, width)) }
    }

    /// `ArrayBase::dim`: the (rows, columns) of the array.  Every ndarray array
    /// keeps the product of its non-zero axis lengths within `isize::MAX`.
    #[verifier::external_body]
    pub fn dim(&self) -> (d: (usize, usize))
        ensures
            d.0 == mask_rows(*self).len(),
            d.1 == mask_width(*self),
            forall|y: int| 0 <= y < d.0 ==> #[trigger] mask_rows(*self)[y].len() == d.1,
            (if d.0 == 0 { 1 } else { d.0 as int }) * (if d.1 == 0 { 1 } else { d.1 as int })
                <= isize::MAX,
    {
        self.cells.dim()
    }

    /// Indexing `m[[y, x]]`; ndarray panics out of bounds, so `requires` keeps the index inside.
    #[verifier::external_body]
    pub fn get(&self, y: usize, x: usize) -> (v: u8)
        requires
            y < mask_rows(*self).len(),
            x < mask_rows(*self)[y as int].len(),
        ensures
            v == mask_rows(*self)[y as int][x as int],
    {
        self.cells[[y, x]]
    }

    /// Assignment `m[[y, x]] = v`; only that label changes.
    #[verifier::external_body]
    pub fn set(&mut self, y: usize, x: usize, v: u8)
        requires
            y < mask_rows(*old(self)).len(),
            x < mask_rows(*old(self))[y as int].len(),
        ensures
            mask_rows(*final(self)) == mask_rows(*old(self)).update(
                y as int,
                mask_rows(*old(self))[y as int].update(x as int, v),
            ),
            mask_width(*final(self)) == mask_width(*old(self)),
    {
        self.cells[[y, x]] = v;
    }
}

impl MarkGrid {
    /// `Array2::from_elem((rows, cols), v)`.  ndarray panics when the product of the
    /// non-zero axis lengths exceeds `isize::MAX`; `requires` leaves that out.
    #[verifier::external_body]
    pub(crate) fn from_elem(rows: usize, cols: usize, v: bool) -> (g: MarkGrid)
        requires
            (if rows == 0 { 1 } else { rows as int }) * (if cols == 0 { 1 } else { cols as int })
                <= isize::MAX,
        ensures
            mark_rows(g) == filled(rows as nat, cols as nat, v),
    {
        MarkGrid { cells: Array2::from_elem((rows, cols), v) }
    }

    /// Indexing `g[[y, x]]`.
    #[verifier::external_body]
    pub(crate) fn get(&self, y: usize, x: usize) -> (v: bool)
        requires
            y < mark_rows(*self).len(),
            x < mark_rows(*self)[y as int].len(),
        ensures
            v == mark_rows(*self)[y as int][x as int],
    {
        self.cells[[y, x]]
    }

    /// Assignment `g[[y, x]] = v`; only that mark changes.
    #[verifier::external_body]
    pub(crate) fn set(&mut self, y: usize, x: usize, v: bool)
        requires
            y < mark_rows(*old(self)).len(),
            x < mark_rows(*old(self))[y as int].len(),
        ensures
            mark_rows(*final(self)) == mark_rows(*old(self)).update(
                y as int,
                mark_rows(*old(self))[y as int].update(x as int, v),
            ),
    {
        self.cells[[y, x]] = v;
    }
}


/// A pixel `(x, y)` as a point.
pub open spec fn pt(p: (usize, usize)) -> (int, int) {
    (p.0 as int, p.1 as int)
}

/// The pixels of a list, as points.
pub open spec fn points_of(v: Seq<(usize, usize)>) -> Seq<(int, int)> {
    v.map_values(|p: (usize, usize)| pt(p))
}

/// Pixel `p` is marked in the raster of marks `m`.
pub open spec fn marked(m: Seq<Seq<bool>>, p: (int, int)) -> bool {
    &&& 0 <= p.1 < m.len()
    &&& 0 <= p.0 < m[p.1].len()
    &&& m[p.1][p.0]
}

/// `m` has `h` rows of `w` entries.
pub open spec fn grid_shape<T>(m: Seq<Seq<T>>, w: int, h: int) -> bool {
    &&& m.len() == h
    &&& forall|y: int| 0 <= y < h ==> #[trigger] m[y].len() == w
}

pub(crate) proof fn lemma_points_push(v: Seq<(usize, usize)>, p: (usize, usize))
    ensures
        points_of(v.push(p)) == points_of(v).push(pt(p)),
{
    assert(points_of(v.push(p)) =~= points_of(v).push(pt(p)));
}

pub(crate) proof fn lemma_points_drop_last(v: Seq<(usize, usize)>)
    requires
        v.len() > 0,
    ensures
        points_of(v.drop_last()) == points_of(v).drop_last(),
{
    assert(points_of(v.drop_last()) =~= points_of(v).drop_last());
}

pub(crate) proof fn lemma_mark_one(m: Seq<Seq<bool>>, w: int, h: int, x: int, y: int)
    requires
        grid_shape(m, w, h),
        0 <= x < w,
        0 <= y < h,
    ensures
        grid_shape(m.update(y, m[y].update(x, true)), w, h),
        forall|q: (int, int)|
            #[trigger] marked(m.update(y, m[y].update(x, true)), q) <==> marked(m, q) || q == (x, y),
{
    let m2 = m.update(y, m[y].update(x, true));
    assert forall|yy: int| 0 <= yy < h implies #[trigger] m2[yy].len() == w by {
        if yy != y {
            assert(m2[yy] == m[yy]);
        }
    }
    assert forall|q: (int, int)| #[trigger] marked(m2, q) <==> marked(m, q) || q == (x, y) by {
        if 0 <= q.1 < h && q.1 != y {
            assert(m2[q.1] == m[q.1]);
        }
    }
}

} // verus!
