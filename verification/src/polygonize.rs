//! Polygonization: the 4-connected components of one class in a segmentation
//! mask, found by flood fill in row-major scan order.
use vstd::prelude::*;
use crate::grid::{
    SegmentationMask, MarkGrid, mask_rows, mask_width, mask_shaped, mark_rows, pt, points_of, marked,
    grid_shape, lemma_mark_one, lemma_points_push, lemma_points_drop_last,
};
use crate::connectivity::{
    has_label, adjacent, connected, component, scan_before, is_seed, reached_before,
    lemma_connected_refl, lemma_connected_step, lemma_connected_ends, lemma_connected_sym,
    lemma_connected_trans, closed_under_steps, lemma_closed_holds_component, lemma_seed_exists,
    lemma_seed_unique,
};
use crate::counting::{inside, lemma_distinct_points_bound};
use crate::outline::{
    outline_of, outline_polygon, is_pixel_corner, outline_vertices_are_pixel_corners,
};
use crate::walk::{outline_is_nonempty_closed_ring, outline_is_rectilinear, rectilinear};
use crate::outline::{boundary_walk, open_side_total};
use crate::area::{shoelace, outline_area_is_pixel_count, outline_depends_only_on_the_pixel_set};

verus! {

/// Errors during polygonization.
#[derive(Debug, Clone, Copy, PartialEq, Eq, Structural)]
pub enum PolygonizeError {
    /// The mask has no rows or no columns.
    EmptyMask,
    /// A class id that the mask cannot hold.
    InvalidClass(u8),
}

/// A vectorized feature: one connected component of a class.
#[derive(Debug, Clone)]
pub struct VectorFeature {
    /// Class ID this feature belongs to.
    pub class_id: u8,
    /// The component's pixels as `(x, y)`, the first one being its first pixel in scan order.
    pub pixels: Vec<(usize, usize)>,
    /// Area in pixel units: the number of pixels.
    pub area_px: usize,
    /// The traced outline: a closed ring of pixel corners `(x, y)`.
    pub ring: Vec<(i32, i32)>,
}

/// Marks never stop at a label-`c` neighbour: the marked pixels are whole components.
pub open spec fn marks_closed(g: Seq<Seq<u8>>, c: u8, m: Seq<Seq<bool>>) -> bool {
    forall|a: (int, int), b: (int, int)|
        #![trigger marked(m, a), marked(m, b)]
        marked(m, a) && adjacent(a, b) && has_label(g, c, b) ==> marked(m, b)
}

/// Flood-fills the component of `(sx, sy)` from a stack, marking what it visits.
fn fill_component(
    mask: &SegmentationMask,
    class_id: u8,
    marks: &mut MarkGrid,
    h: usize,
    w: usize,
    sx: usize,
    sy: usize,
) -> (pixels: Vec<(usize, usize)>)
    requires
        h == mask_rows(*mask).len(),
        w == mask_width(*mask),
        mask_shaped(*mask),
        grid_shape(mark_rows(*old(marks)), w as int, h as int),
        has_label(mask_rows(*mask), class_id, (sx as int, sy as int)),
        !marked(mark_rows(*old(marks)), (sx as int, sy as int)),
        marks_closed(mask_rows(*mask), class_id, mark_rows(*old(marks))),
    ensures
        grid_shape(mark_rows(*final(marks)), w as int, h as int),
        forall|q: (int, int)|
            #[trigger] marked(mark_rows(*final(marks)), q) <==> marked(mark_rows(*old(marks)), q)
                || connected(mask_rows(*mask), class_id, (sx as int, sy as int), q),
        pixels.len() > 0,
        points_of(pixels@)[0] == (sx as int, sy as int),
        points_of(pixels@).no_duplicates(),
        points_of(pixels@).to_set() == component(
            mask_rows(*mask),
            class_id,
            (sx as int, sy as int),
        ),
{
    let ghost g = mask_rows(*mask);
    let ghost m0 = mark_rows(*marks);
    let ghost start = (sx as int, sy as int);
    let mut stack: Vec<(usize, usize)> = Vec::new();
    stack.push((sx, sy));
    let mut pixels: Vec<(usize, usize)> = Vec::new();
    proof {
        lemma_connected_refl(g, class_id, start);
        assert(stack@ == seq![(sx, sy)]);
    }
    loop
        invariant
            g == mask_rows(*mask),
            h == g.len(),
            w == mask_width(*mask),
            mask_shaped(*mask),
            start == (sx as int, sy as int),
            has_label(g, class_id, start),
            !marked(m0, start),
            marks_closed(g, class_id, m0),
            grid_shape(mark_rows(*marks), w as int, h as int),
            forall|q: (int, int)|
                #[trigger] marked(mark_rows(*marks), q) <==> marked(m0, q) || points_of(
                    pixels@,
                ).contains(q),
            forall|k: int|
                0 <= k < pixels.len() ==> connected(g, class_id, start, #[trigger] points_of(pixels@)[k])
                    && !marked(m0, points_of(pixels@)[k]),
            points_of(pixels@).no_duplicates(),
            forall|j: int| 0 <= j < stack.len() ==> (#[trigger] stack@[j]).0 < w && stack@[j].1 < h,
            forall|j: int|
                0 <= j < stack.len() && has_label(g, class_id, #[trigger] pt(stack@[j])) ==> connected(
                    g,
                    class_id,
                    start,
                    pt(stack@[j]),
                ),
            forall|k: int, b: (int, int)|
                0 <= k < pixels.len() && #[trigger] adjacent(points_of(pixels@)[k], b) && has_label(
                    g,
                    class_id,
                    b,
                ) ==> marked(mark_rows(*marks), b) || points_of(stack@).contains(b),
            pixels.len() == 0 ==> stack@ == seq![(sx, sy)],
            pixels.len() > 0 ==> points_of(pixels@)[0] == start,
            pixels.len() <= w * h,
        ensures
            stack.len() == 0,
        decreases (w * h - pixels.len()) * 5 + stack.len(),
    {
        let ghost stack0 = stack@;
        let ghost marks0 = mark_rows(*marks);
        let ghost pixels0 = pixels@;
        let top = stack.pop();
        match top {
            None => {
                break ;
            },
            Some((x, y)) => {
                proof {
                    lemma_points_drop_last(stack0);
                    assert(pt((x, y)) == points_of(stack0)[stack0.len() - 1]);
                }
                if y >= h || x >= w {
                    proof {
                        assert(stack0[stack0.len() - 1].0 < w && stack0[stack0.len() - 1].1 < h);
                    }
                } else if marks.get(y, x) || mask.get(y, x) != class_id {
                    proof {
                        let p = (x as int, y as int);
                        assert(marked(marks0, p) || !has_label(g, class_id, p));
                        if pixels.len() == 0 {
                            assert(stack0[0] == (sx, sy));
                            assert(!points_of(pixels@).contains(p));
                        }
                        assert forall|k: int, b: (int, int)|
                            0 <= k < pixels.len() && #[trigger] adjacent(points_of(pixels@)[k], b)
                                && has_label(g, class_id, b) implies marked(mark_rows(*marks), b)
                            || points_of(stack@).contains(b) by {
                            if !marked(marks0, b) {
                                assert(points_of(stack0).contains(b));
                                let j = choose|j: int|
                                    0 <= j < points_of(stack0).len() && points_of(stack0)[j] == b;
                                if j < stack0.len() - 1 {
                                    assert(stack@[j] == stack0[j]);
                                    assert(points_of(stack@)[j] == b);
                                }
                            }
                        }
                    }
                } else {
                    proof {
                        lemma_mark_one(marks0, w as int, h as int, x as int, y as int);
                    }
                    marks.set(y, x, true);
                    pixels.push((x, y));
                    proof {
                        lemma_points_push(pixels0, (x, y));
                        assert(connected(g, class_id, start, pt(stack0[stack0.len() - 1])));
                    }
                    let ghost mid = stack@;
                    let ghost mut iu: int = -1;
                    let ghost mut id: int = -1;
                    let ghost mut il: int = -1;
                    let ghost mut ir: int = -1;
                    if y > 0 {
                        stack.push((x, y - 1));
                        proof {
                            iu = stack@.len() - 1;
                        }
                    }
                    if y + 1 < h {
                        stack.push((x, y + 1));
                        proof {
                            id = stack@.len() - 1;
                        }
                    }
                    if x > 0 {
                        stack.push((x - 1, y));
                        proof {
                            il = stack@.len() - 1;
                        }
                    }
                    if x + 1 < w {
                        stack.push((x + 1, y));
                        proof {
                            ir = stack@.len() - 1;
                        }
                    }
                    proof {
                        let p = (x as int, y as int);
                        let pts0 = points_of(pixels0);
                        let stack1 = stack@;
                        assert(mid == stack0.drop_last());
                        assert(forall|j: int| 0 <= j < mid.len() ==> stack1[j] == mid[j]);
                        assert(y > 0 ==> stack1[iu] == (x, (y - 1) as usize));
                        assert(y + 1 < h ==> stack1[id] == (x, (y + 1) as usize));
                        assert(x > 0 ==> stack1[il] == ((x - 1) as usize, y));
                        assert(x + 1 < w ==> stack1[ir] == ((x + 1) as usize, y));
                        assert(stack1.len() <= mid.len() + 4);
                        assert(has_label(g, class_id, p));
                        assert(connected(g, class_id, start, p));
                        assert(!marked(marks0, p));
                        assert(!pts0.contains(p));
                        assert(points_of(pixels@) == pts0.push(p));
                        assert forall|q: (int, int)|
                            #[trigger] marked(mark_rows(*marks), q) <==> marked(m0, q) || points_of(
                                pixels@,
                            ).contains(q) by {
                            if points_of(pixels@).contains(q) && q != p {
                                let i = choose|i: int|
                                    0 <= i < points_of(pixels@).len() && points_of(pixels@)[i] == q;
                                assert(pts0[i] == q);
                            }
                            if pts0.contains(q) {
                                let i = choose|i: int| 0 <= i < pts0.len() && pts0[i] == q;
                                assert(points_of(pixels@)[i] == q);
                            }
                            assert(points_of(pixels@)[pts0.len() as int] == p);
                        }
                        assert forall|k: int|
                            0 <= k < pixels.len() implies connected(
                                g,
                                class_id,
                                start,
                                #[trigger] points_of(pixels@)[k],
                            ) && !marked(m0, points_of(pixels@)[k]) by {
                            if k < pts0.len() {
                                assert(points_of(pixels@)[k] == pts0[k]);
                            }
                        }
                        assert forall|j: int| 0 <= j < stack1.len() implies (#[trigger] stack1[j]).0
                            < w && stack1[j].1 < h by {
                            if j < mid.len() {
                                assert(stack0[j] == mid[j]);
                            }
                        }
                        assert forall|j: int|
                            0 <= j < stack1.len() && has_label(
                                g,
                                class_id,
                                #[trigger] pt(stack1[j]),
                            ) implies connected(g, class_id, start, pt(stack1[j])) by {
                            if j < mid.len() {
                                assert(stack0[j] == mid[j]);
                            } else {
                                assert(adjacent(p, pt(stack1[j])));
                                lemma_connected_step(g, class_id, start, p, pt(stack1[j]));
                            }
                        }
                        assert forall|k: int, b: (int, int)|
                            0 <= k < pixels.len() && #[trigger] adjacent(points_of(pixels@)[k], b)
                                && has_label(g, class_id, b) implies marked(mark_rows(*marks), b)
                            || points_of(stack1).contains(b) by {
                            if k < pts0.len() {
                                assert(points_of(pixels@)[k] == pts0[k]);
                                assert(adjacent(pts0[k], b));
                                if !marked(marks0, b) {
                                    assert(points_of(stack0).contains(b));
                                    let j = choose|j: int|
                                        0 <= j < points_of(stack0).len() && points_of(stack0)[j]
                                            == b;
                                    if j < stack0.len() - 1 {
                                        assert(stack1[j] == stack0[j]);
                                        assert(points_of(stack1)[j] == b);
                                    }
                                }
                            } else {
                                assert(points_of(pixels@)[k] == p);
                                if b.1 == p.1 - 1 && b.0 == p.0 {
                                    assert(points_of(stack1)[iu] == b);
                                } else if b.1 == p.1 + 1 && b.0 == p.0 {
                                    assert(points_of(stack1)[id] == b);
                                } else if b.0 == p.0 - 1 {
                                    assert(points_of(stack1)[il] == b);
                                } else {
                                    assert(points_of(stack1)[ir] == b);
                                }
                            }
                        }
                        assert(points_of(pixels@).no_duplicates());
                        assert(inside(points_of(pixels@), w as int, h as int)) by {
                            assert forall|k: int| 0 <= k < points_of(pixels@).len() implies 0 <= (
                            #[trigger] points_of(pixels@)[k]).0 < w && 0 <= points_of(pixels@)[k].1 < h by {
                                lemma_connected_ends(g, class_id, start, points_of(pixels@)[k]);
                            }
                        }
                        lemma_distinct_points_bound(points_of(pixels@), w as int, h as int);
                        assert(pixels0.len() == 0 ==> points_of(pixels@)[0] == start);
                        assert(pixels0.len() > 0 ==> points_of(pixels@)[0] == pts0[0]);
                    }
                }
            },
        }
    }
    proof {
        let pts = points_of(pixels@);
        let s = pts.to_set();
        assert(pixels.len() > 0);
        assert(closed_under_steps(g, class_id, s)) by {
            assert forall|a: (int, int), b: (int, int)|
                #![trigger s.contains(a), s.contains(b)]
                s.contains(a) && adjacent(a, b) && has_label(g, class_id, b) implies s.contains(
                    b,
                ) by {
                let k = choose|k: int| 0 <= k < pts.len() && pts[k] == a;
                assert(adjacent(pts[k], b));
                assert(marked(mark_rows(*marks), b));
                if marked(m0, b) {
                    assert(marked(m0, a));
                    assert(false);
                }
            }
        }
        assert(s.contains(start)) by {
            assert(pts[0] == start);
        }
        lemma_closed_holds_component(g, class_id, s, start);
        assert forall|q: (int, int)| s.contains(q) implies #[trigger] component(
            g,
            class_id,
            start,
        ).contains(q) by {
            let k = choose|k: int| 0 <= k < pts.len() && pts[k] == q;
            assert(connected(g, class_id, start, pts[k]));
        }
        assert(s =~= component(g, class_id, start));
        assert forall|q: (int, int)|
            #[trigger] marked(mark_rows(*marks), q) <==> marked(m0, q) || connected(
                g,
                class_id,
                start,
                q,
            ) by {
            assert(pts.contains(q) <==> s.contains(q));
            assert(component(g, class_id, start).contains(q) <==> connected(g, class_id, start, q));
        }
    }
    pixels
}


/// The first pixel of a feature (its component's first pixel in scan order).
pub open spec fn feature_seed(f: VectorFeature) -> (int, int) {
    points_of(f.pixels@)[0]
}

/// `f` is the whole component of label `c` that starts at `f`'s first pixel,
/// listed once per pixel, and has at least `min_area` pixels.
pub open spec fn is_component_feature(
    g: Seq<Seq<u8>>,
    c: u8,
    min_area: int,
    f: VectorFeature,
) -> bool {
    let pts = points_of(f.pixels@);
    &&& f.class_id == c
    &&& pts.len() > 0
    &&& is_seed(g, c, pts[0])
    &&& pts.no_duplicates()
    &&& pts.to_set() == component(g, c, pts[0])
    &&& f.area_px == pts.len()
    &&& pts.len() >= min_area
    &&& f.ring@ == outline_of(pts)
}

/// `feats` lists, in scan order of their first pixels, exactly the components of
/// label `c` that start before `cur` and have at least `min_area` pixels.
pub open spec fn lists_components_before(
    g: Seq<Seq<u8>>,
    c: u8,
    min_area: int,
    feats: Seq<VectorFeature>,
    cur: (int, int),
) -> bool {
    &&& forall|i: int|
        0 <= i < feats.len() ==> is_component_feature(g, c, min_area, #[trigger] feats[i])
            && scan_before(feature_seed(feats[i]), cur)
    &&& forall|i: int, j: int|
        0 <= i < j < feats.len() ==> scan_before(
            feature_seed(#[trigger] feats[i]),
            feature_seed(#[trigger] feats[j]),
        )
    &&& forall|s: (int, int)|
        is_seed(g, c, s) && scan_before(s, cur) && component(g, c, s).len() >= min_area
            ==> exists|i: int| 0 <= i < feats.len() && #[trigger] feature_seed(feats[i]) == s
}

/// `feats` lists, in scan order of their first pixels, exactly the components of
/// label `c` that have at least `min_area` pixels, each once.
pub open spec fn lists_components(
    g: Seq<Seq<u8>>,
    c: u8,
    min_area: int,
    feats: Seq<VectorFeature>,
) -> bool {
    &&& forall|i: int|
        0 <= i < feats.len() ==> is_component_feature(g, c, min_area, #[trigger] feats[i])
    &&& forall|i: int, j: int|
        0 <= i < j < feats.len() ==> scan_before(
            feature_seed(#[trigger] feats[i]),
            feature_seed(#[trigger] feats[j]),
        )
    &&& forall|s: (int, int)|
        is_seed(g, c, s) && component(g, c, s).len() >= min_area ==> exists|i: int|
            0 <= i < feats.len() && #[trigger] feature_seed(feats[i]) == s
}

proof fn lemma_marks_closed(g: Seq<Seq<u8>>, c: u8, m: Seq<Seq<bool>>, cur: (int, int))
    requires
        forall|q: (int, int)| #[trigger] marked(m, q) <==> reached_before(g, c, cur, q),
    ensures
        marks_closed(g, c, m),
{
    assert forall|a: (int, int), b: (int, int)|
        #![trigger marked(m, a), marked(m, b)]
        marked(m, a) && adjacent(a, b) && has_label(g, c, b) implies marked(m, b) by {
        assert(reached_before(g, c, cur, a));
        let p = choose|p: (int, int)| scan_before(p, cur) && #[trigger] connected(g, c, p, a);
        lemma_connected_step(g, c, p, a, b);
        assert(reached_before(g, c, cur, b));
    }
}

proof fn lemma_new_seed(g: Seq<Seq<u8>>, c: u8, m: Seq<Seq<bool>>, cur: (int, int))
    requires
        forall|q: (int, int)| #[trigger] marked(m, q) <==> reached_before(g, c, cur, q),
        !marked(m, cur),
        has_label(g, c, cur),
    ensures
        is_seed(g, c, cur),
{
    assert forall|p: (int, int)| #[trigger] connected(g, c, p, cur) implies !scan_before(p, cur) by {
        if scan_before(p, cur) {
            assert(reached_before(g, c, cur, cur));
        }
    }
}

/// Moving the scan one column on adds the component of the pixel passed over.
proof fn lemma_reached_next(g: Seq<Seq<u8>>, c: u8, cur: (int, int))
    ensures
        forall|q: (int, int)|
            #[trigger] reached_before(g, c, (cur.0 + 1, cur.1), q) <==> reached_before(g, c, cur, q)
                || connected(g, c, cur, q),
{
    let next = (cur.0 + 1, cur.1);
    assert forall|q: (int, int)|
        #[trigger] reached_before(g, c, next, q) <==> reached_before(g, c, cur, q) || connected(
            g,
            c,
            cur,
            q,
        ) by {
        if reached_before(g, c, next, q) {
            let p = choose|p: (int, int)| scan_before(p, next) && #[trigger] connected(g, c, p, q);
            if p != cur {
                assert(scan_before(p, cur));
            }
        }
        if reached_before(g, c, cur, q) {
            let p = choose|p: (int, int)| scan_before(p, cur) && #[trigger] connected(g, c, p, q);
            assert(scan_before(p, next));
        }
        if connected(g, c, cur, q) {
            assert(scan_before(cur, next));
        }
    }
}

proof fn lemma_skip_cell(
    g: Seq<Seq<u8>>,
    c: u8,
    min_area: int,
    m: Seq<Seq<bool>>,
    feats: Seq<VectorFeature>,
    cur: (int, int),
)
    requires
        forall|q: (int, int)| #[trigger] marked(m, q) <==> reached_before(g, c, cur, q),
        lists_components_before(g, c, min_area, feats, cur),
        marked(m, cur) || !has_label(g, c, cur),
    ensures
        forall|q: (int, int)|
            #[trigger] marked(m, q) <==> reached_before(g, c, (cur.0 + 1, cur.1), q),
        lists_components_before(g, c, min_area, feats, (cur.0 + 1, cur.1)),
{
    let next = (cur.0 + 1, cur.1);
    lemma_reached_next(g, c, cur);
    assert forall|q: (int, int)| #[trigger] marked(m, q) <==> reached_before(g, c, next, q) by {
        if connected(g, c, cur, q) {
            lemma_connected_ends(g, c, cur, q);
            assert(reached_before(g, c, cur, cur));
            let p = choose|p: (int, int)| scan_before(p, cur) && #[trigger] connected(g, c, p, cur);
            lemma_connected_trans(g, c, p, cur, q);
            assert(reached_before(g, c, cur, q));
        }
    }
    assert forall|s: (int, int)|
        is_seed(g, c, s) && scan_before(s, next) && component(g, c, s).len()
            >= min_area implies exists|i: int|
        0 <= i < feats.len() && #[trigger] feature_seed(feats[i]) == s by {
        if s == cur {
            assert(reached_before(g, c, cur, cur));
            let p = choose|p: (int, int)| scan_before(p, cur) && #[trigger] connected(g, c, p, cur);
            assert(!scan_before(p, s));
        } else {
            assert(scan_before(s, cur));
        }
    }
}

/// The component of the pixel passed over, found as `pix`, joins the list when large enough.
proof fn lemma_take_cell(
    g: Seq<Seq<u8>>,
    c: u8,
    min_area: int,
    m: Seq<Seq<bool>>,
    m2: Seq<Seq<bool>>,
    feats: Seq<VectorFeature>,
    feats2: Seq<VectorFeature>,
    pix: Seq<(usize, usize)>,
    cur: (int, int),
)
    requires
        forall|q: (int, int)| #[trigger] marked(m, q) <==> reached_before(g, c, cur, q),
        forall|q: (int, int)|
            #[trigger] marked(m2, q) <==> marked(m, q) || connected(g, c, cur, q),
        lists_components_before(g, c, min_area, feats, cur),
        is_seed(g, c, cur),
        points_of(pix).len() > 0,
        points_of(pix)[0] == cur,
        points_of(pix).no_duplicates(),
        points_of(pix).to_set() == component(g, c, cur),
        points_of(pix).to_set().len() == pix.len(),
        pix.len() >= min_area ==> feats2.len() == feats.len() + 1 && feats2[feats.len() as int].pixels@
            == pix && feats2[feats.len() as int].class_id == c
            && feats2[feats.len() as int].area_px == pix.len() && feats2[feats.len() as int].ring@
            == outline_of(points_of(pix)),
        pix.len() < min_area ==> feats2.len() == feats.len(),
        forall|i: int| 0 <= i < feats.len() ==> feats2[i] == feats[i],
    ensures
        forall|q: (int, int)|
            #[trigger] marked(m2, q) <==> reached_before(g, c, (cur.0 + 1, cur.1), q),
        lists_components_before(g, c, min_area, feats2, (cur.0 + 1, cur.1)),
{
    let next = (cur.0 + 1, cur.1);
    lemma_reached_next(g, c, cur);
    assert forall|i: int|
        0 <= i < feats2.len() implies is_component_feature(g, c, min_area, #[trigger] feats2[i])
        && scan_before(feature_seed(feats2[i]), next) by {
        if i < feats.len() {
            assert(feats2[i] == feats[i]);
        } else {
            assert(feature_seed(feats2[i]) == cur);
        }
    }
    assert forall|i: int, j: int|
        0 <= i < j < feats2.len() implies scan_before(
        feature_seed(#[trigger] feats2[i]),
        feature_seed(#[trigger] feats2[j]),
    ) by {
        assert(feats2[i] == feats[i]);
        if j < feats.len() {
            assert(feats2[j] == feats[j]);
            assert(scan_before(feature_seed(feats[i]), feature_seed(feats[j])));
        } else {
            assert(scan_before(feature_seed(feats[i]), cur));
            assert(feature_seed(feats2[j]) == cur);
        }
    }
    assert forall|s: (int, int)|
        is_seed(g, c, s) && scan_before(s, next) && component(g, c, s).len()
            >= min_area implies exists|i: int|
        0 <= i < feats2.len() && #[trigger] feature_seed(feats2[i]) == s by {
        if s == cur {
            assert(feature_seed(feats2[feats.len() as int]) == s);
        } else {
            assert(scan_before(s, cur));
            let i = choose|i: int| 0 <= i < feats.len() && #[trigger] feature_seed(feats[i]) == s;
            assert(feats2[i] == feats[i]);
            assert(feature_seed(feats2[i]) == s);
        }
    }
}

/// At the end of a row the scan position `(w, y)` and `(0, y + 1)` cover the same pixels.
proof fn lemma_row_end(
    g: Seq<Seq<u8>>,
    c: u8,
    min_area: int,
    w: int,
    y: int,
    m: Seq<Seq<bool>>,
    feats: Seq<VectorFeature>,
)
    requires
        forall|yy: int| 0 <= yy < g.len() ==> #[trigger] g[yy].len() == w,
        forall|q: (int, int)| #[trigger] marked(m, q) <==> reached_before(g, c, (w, y), q),
        lists_components_before(g, c, min_area, feats, (w, y)),
    ensures
        forall|q: (int, int)| #[trigger] marked(m, q) <==> reached_before(g, c, (0, y + 1), q),
        lists_components_before(g, c, min_area, feats, (0, y + 1)),
{
    assert forall|p: (int, int)| has_label(g, c, p) implies (scan_before(p, (w, y))
        <==> scan_before(p, (0, y + 1))) by {
        assert(g[p.1].len() == w);
    }
    assert forall|q: (int, int)| #[trigger] marked(m, q) <==> reached_before(g, c, (0, y + 1), q) by {
        if reached_before(g, c, (w, y), q) {
            let p = choose|p: (int, int)| scan_before(p, (w, y)) && #[trigger] connected(g, c, p, q);
            lemma_connected_ends(g, c, p, q);
        }
        if reached_before(g, c, (0, y + 1), q) {
            let p = choose|p: (int, int)|
                scan_before(p, (0, y + 1)) && #[trigger] connected(g, c, p, q);
            lemma_connected_ends(g, c, p, q);
        }
    }
    assert forall|i: int| 0 <= i < feats.len() implies scan_before(
        feature_seed(#[trigger] feats[i]),
        (0, y + 1),
    ) by {
        assert(is_component_feature(g, c, min_area, feats[i]));
        assert(is_seed(g, c, feature_seed(feats[i])));
    }
}

/// Extract the connected regions of one class from a segmentation mask.
///
/// Finds the 4-connected regions of `class_id`, in row-major order of their
/// first pixel, and keeps those of at least `min_area` pixels.
pub fn polygonize_class(
    mask: &SegmentationMask,
    class_id: u8,
    min_area: usize,
) -> (r: Result<Vec<VectorFeature>, PolygonizeError>)
    requires
        mask_rows(*mask).len() < 0x7fff_ffff,
        mask_width(*mask) < 0x7fff_ffff,
    ensures
        r is Err <==> (mask_rows(*mask).len() == 0 || mask_width(*mask) == 0),
        r is Err ==> r == Err::<Vec<VectorFeature>, PolygonizeError>(PolygonizeError::EmptyMask),
        r matches Ok(feats) ==> lists_components(mask_rows(*mask), class_id, min_area as int, feats@),
{
    let (h, w) = mask.dim();
    if h == 0 || w == 0 {
        return Err(PolygonizeError::EmptyMask);
    }
    let ghost g = mask_rows(*mask);
    proof {
        assert(h * w <= isize::MAX);
        assert(w * h == h * w) by (nonlinear_arith);
    }
    let mut marks = MarkGrid::from_elem(h, w, false);
    let mut features: Vec<VectorFeature> = Vec::new();
    proof {
        assert(grid_shape(mark_rows(marks), w as int, h as int));
        assert forall|q: (int, int)|
            #[trigger] marked(mark_rows(marks), q) <==> reached_before(g, class_id, (0, 0), q) by {
            if reached_before(g, class_id, (0, 0), q) {
                let p = choose|p: (int, int)|
                    scan_before(p, (0, 0)) && #[trigger] connected(g, class_id, p, q);
                lemma_connected_ends(g, class_id, p, q);
            }
        }
        assert forall|s: (int, int)| is_seed(g, class_id, s) implies !scan_before(s, (0, 0)) by {}
    }
    let mut y: usize = 0;
    while y < h
        invariant
            g == mask_rows(*mask),
            h == g.len(),
            w == mask_width(*mask),
            mask_shaped(*mask),
            0 < h < 0x7fff_ffff,
            0 < w < 0x7fff_ffff,
            w * h <= isize::MAX,
            y <= h,
            grid_shape(mark_rows(marks), w as int, h as int),
            forall|q: (int, int)|
                #[trigger] marked(mark_rows(marks), q) <==> reached_before(
                    g,
                    class_id,
                    (0, y as int),
                    q,
                ),
            lists_components_before(g, class_id, min_area as int, features@, (0, y as int)),
        decreases h - y,
    {
        let mut x: usize = 0;
        while x < w
            invariant
                g == mask_rows(*mask),
                h == g.len(),
                w == mask_width(*mask),
                mask_shaped(*mask),
                0 < h < 0x7fff_ffff,
                0 < w < 0x7fff_ffff,
                w * h <= isize::MAX,
                y < h,
                x <= w,
                grid_shape(mark_rows(marks), w as int, h as int),
                forall|q: (int, int)|
                    #[trigger] marked(mark_rows(marks), q) <==> reached_before(
                        g,
                        class_id,
                        (x as int, y as int),
                        q,
                    ),
                lists_components_before(
                    g,
                    class_id,
                    min_area as int,
                    features@,
                    (x as int, y as int),
                ),
            decreases w - x,
        {
            let ghost cur = (x as int, y as int);
            let ghost next = (x as int + 1, y as int);
            let ghost m1 = mark_rows(marks);
            let ghost feats1 = features@;
            assert(mask_rows(*mask)[y as int].len() == w);
            if marks.get(y, x) || mask.get(y, x) != class_id {
                proof {
                    lemma_skip_cell(g, class_id, min_area as int, m1, feats1, cur);
                }
            } else {
                proof {
                    lemma_marks_closed(g, class_id, m1, cur);
                    lemma_new_seed(g, class_id, m1, cur);
                }
                let pixels = fill_component(mask, class_id, &mut marks, h, w, x, y);
                let area = pixels.len();
                let ghost pix = pixels@;
                proof {
                    points_of(pix).unique_seq_to_set();
                }
                if area >= min_area {
                    proof {
                        assert(inside(points_of(pix), w as int, h as int)) by {
                            assert forall|k: int| 0 <= k < points_of(pix).len() implies 0 <= (
                            #[trigger] points_of(pix)[k]).0 < w && 0 <= points_of(pix)[k].1 < h by {
                                assert(points_of(pix).to_set().contains(points_of(pix)[k]));
                                lemma_connected_ends(g, class_id, cur, points_of(pix)[k]);
                            }
                        }
                        lemma_distinct_points_bound(points_of(pix), w as int, h as int);
                        assert(w * h < 0x4000_0000_0000_0000) by (nonlinear_arith)
                            requires
                                0 < w < 0x7fff_ffff,
                                0 < h < 0x7fff_ffff,
                        ;
                        assert(pixels.len() == points_of(pix).len());
                    }
                    let ring = outline_polygon(&pixels, Ghost(w as int), Ghost(h as int));
                    features.push(VectorFeature { class_id, pixels, area_px: area, ring });
                }
                proof {
                    lemma_take_cell(
                        g,
                        class_id,
                        min_area as int,
                        m1,
                        mark_rows(marks),
                        feats1,
                        features@,
                        pix,
                        cur,
                    );
                }
            }
            x = x + 1;
        }
        proof {
            lemma_row_end(
                g,
                class_id,
                min_area as int,
                w as int,
                y as int,
                mark_rows(marks),
                features@,
            );
        }
        y = y + 1;
    }
    proof {
        let feats = features@;
        assert forall|s: (int, int)| is_seed(g, class_id, s) implies scan_before(s, (0, h as int)) by {}
    }
    Ok(features)
}


/// `all` is the concatenation, over classes `0 .. num_classes` (as `u8`, so class
/// ids wrap past 255), of a list that `lists_components` accepts for that class.
pub open spec fn lists_all_classes(
    g: Seq<Seq<u8>>,
    num_classes: int,
    min_area: int,
    all: Seq<VectorFeature>,
) -> bool {
    exists|parts: Seq<Seq<VectorFeature>>|
        #![trigger parts.flatten()]
        parts.len() == num_classes && parts.flatten() == all && forall|c: int|
            0 <= c < num_classes ==> lists_components(g, c as u8, min_area, #[trigger] parts[c])
}

/// Extract the connected regions of all classes `0 .. num_classes` of a mask,
/// class by class.
pub fn polygonize_all(
    mask: &SegmentationMask,
    num_classes: usize,
    min_area: usize,
) -> (r: Result<Vec<VectorFeature>, PolygonizeError>)
    requires
        mask_rows(*mask).len() < 0x7fff_ffff,
        mask_width(*mask) < 0x7fff_ffff,
    ensures
        r is Err <==> (num_classes > 0 && (mask_rows(*mask).len() == 0 || mask_width(*mask) == 0)),
        r is Err ==> r == Err::<Vec<VectorFeature>, PolygonizeError>(PolygonizeError::EmptyMask),
        r matches Ok(all) ==> lists_all_classes(
            mask_rows(*mask),
            num_classes as int,
            min_area as int,
            all@,
        ),
{
    let ghost g = mask_rows(*mask);
    let mut all_features: Vec<VectorFeature> = Vec::new();
    let ghost mut parts: Seq<Seq<VectorFeature>> = Seq::empty();
    let mut class_id: usize = 0;
    while class_id < num_classes
        invariant
            g == mask_rows(*mask),
            g.len() < 0x7fff_ffff,
            mask_width(*mask) < 0x7fff_ffff,
            class_id <= num_classes,
            class_id > 0 ==> !(g.len() == 0 || mask_width(*mask) == 0),
            parts.len() == class_id,
            parts.flatten() == all_features@,
            forall|c: int|
                0 <= c < class_id ==> lists_components(g, c as u8, min_area as int, #[trigger] parts[c]),
        decreases num_classes - class_id,
    {
        let r = polygonize_class(mask, class_id as u8, min_area);
        match r {
            Err(e) => {
                return Err(e);
            },
            Ok(features) => {
                let mut features = features;
                proof {
                    parts.lemma_flatten_push(features@);
                    parts = parts.push(features@);
                }
                all_features.append(&mut features);
            },
        }
        class_id = class_id + 1;
    }
    proof {
        if num_classes == 0 {
            assert(parts =~= Seq::<Seq<VectorFeature>>::empty());
        }
        assert(parts.flatten() == all_features@);
    }
    Ok(all_features)
}

/// Two extracted features never share a pixel.
pub proof fn features_are_disjoint(
    g: Seq<Seq<u8>>,
    c: u8,
    min_area: int,
    feats: Seq<VectorFeature>,
    i: int,
    j: int,
    p: (int, int),
)
    requires
        lists_components(g, c, min_area, feats),
        0 <= i < feats.len(),
        0 <= j < feats.len(),
        i != j,
        points_of(feats[i].pixels@).contains(p),
    ensures
        !points_of(feats[j].pixels@).contains(p),
{
    if points_of(feats[j].pixels@).contains(p) {
        let fi = feats[i];
        let fj = feats[j];
        assert(is_component_feature(g, c, min_area, fi));
        assert(is_component_feature(g, c, min_area, fj));
        let si = feature_seed(fi);
        let sj = feature_seed(fj);
        assert(points_of(fi.pixels@).to_set().contains(p));
        assert(points_of(fj.pixels@).to_set().contains(p));
        assert(component(g, c, si).contains(p));
        assert(component(g, c, sj).contains(p));
        lemma_connected_sym(g, c, sj, p);
        lemma_connected_trans(g, c, si, p, sj);
        lemma_seed_unique(g, c, si, sj);
        if i < j {
            assert(scan_before(feature_seed(feats[i]), feature_seed(feats[j])));
        } else {
            assert(scan_before(feature_seed(feats[j]), feature_seed(feats[i])));
        }
    }
}

/// With no minimum area, every pixel of the class lies in an extracted feature.
pub proof fn features_cover_class(
    g: Seq<Seq<u8>>,
    c: u8,
    feats: Seq<VectorFeature>,
    p: (int, int),
)
    requires
        lists_components(g, c, 0, feats),
        has_label(g, c, p),
    ensures
        exists|i: int| 0 <= i < feats.len() && points_of(#[trigger] feats[i].pixels@).contains(p),
{
    let s = lemma_seed_exists(g, c, p);
    let i = choose|i: int| 0 <= i < feats.len() && #[trigger] feature_seed(feats[i]) == s;
    assert(is_component_feature(g, c, 0, feats[i]));
    assert(component(g, c, s).contains(p));
    assert(points_of(feats[i].pixels@).to_set().contains(p));
}

/// Every pixel of an extracted feature carries the feature's class, and the feature
/// is 4-connected: each of its pixels is reached from its first pixel through it.
pub proof fn feature_pixels_are_connected_class_pixels(
    g: Seq<Seq<u8>>,
    c: u8,
    min_area: int,
    feats: Seq<VectorFeature>,
    i: int,
    p: (int, int),
)
    requires
        lists_components(g, c, min_area, feats),
        0 <= i < feats.len(),
        points_of(feats[i].pixels@).contains(p),
    ensures
        has_label(g, c, p),
        connected(g, c, feature_seed(feats[i]), p),
        feats[i].class_id == c,
{
    assert(is_component_feature(g, c, min_area, feats[i]));
    assert(points_of(feats[i].pixels@).to_set().contains(p));
    lemma_connected_ends(g, c, feature_seed(feats[i]), p);
}

/// The outline of every extracted feature is a non-empty closed ring whose sides
/// are horizontal or vertical, and each of its vertices is a corner of one of the
/// feature's own pixels.
pub proof fn feature_outlines_follow_their_pixels(
    g: Seq<Seq<u8>>,
    c: u8,
    min_area: int,
    w: int,
    feats: Seq<VectorFeature>,
    i: int,
)
    requires
        lists_components(g, c, min_area, feats),
        0 <= i < feats.len(),
        forall|y: int| 0 <= y < g.len() ==> #[trigger] g[y].len() == w,
        0 <= w < 0x7fff_ffff,
        g.len() < 0x7fff_ffff,
    ensures
        feats[i].ring@.len() > 0,
        feats[i].ring@[0] == feats[i].ring@[feats[i].ring@.len() - 1],
        rectilinear(feats[i].ring@),
        forall|j: int|
            0 <= j < feats[i].ring@.len() ==> is_pixel_corner(
                points_of(feats[i].pixels@).to_set(),
                ((#[trigger] feats[i].ring@[j]).0 as int, feats[i].ring@[j].1 as int),
            ),
{
    let f = feats[i];
    assert(is_component_feature(g, c, min_area, f));
    let pts = points_of(f.pixels@);
    assert(inside(pts, w, g.len() as int)) by {
        assert forall|k: int| 0 <= k < pts.len() implies 0 <= (#[trigger] pts[k]).0 < w && 0
            <= pts[k].1 < g.len() by {
            assert(pts.to_set().contains(pts[k]));
            lemma_connected_ends(g, c, pts[0], pts[k]);
        }
    }
    outline_vertices_are_pixel_corners(pts, w, g.len() as int);
    outline_is_nonempty_closed_ring(pts, w, g.len() as int);
    outline_is_rectilinear(pts, w, g.len() as int);
}

/// An extracted feature without holes (its outline walk takes every boundary edge
/// of its pixels) has an outline whose polygon area is its pixel count: the shoelace
/// formula gives twice `area_px`.
pub proof fn hole_free_feature_area_is_its_pixel_count(
    g: Seq<Seq<u8>>,
    c: u8,
    min_area: int,
    w: int,
    feats: Seq<VectorFeature>,
    i: int,
)
    requires
        lists_components(g, c, min_area, feats),
        0 <= i < feats.len(),
        forall|y: int| 0 <= y < g.len() ==> #[trigger] g[y].len() == w,
        0 <= w < 0x7fff_ffff,
        g.len() < 0x7fff_ffff,
        boundary_walk(points_of(feats[i].pixels@)).len() == open_side_total(
            points_of(feats[i].pixels@).to_set(),
            points_of(feats[i].pixels@),
        ),
    ensures
        shoelace(feats[i].ring@) == 2 * feats[i].area_px,
{
    let f = feats[i];
    assert(is_component_feature(g, c, min_area, f));
    let pts = points_of(f.pixels@);
    assert(inside(pts, w, g.len() as int)) by {
        assert forall|k: int| 0 <= k < pts.len() implies 0 <= (#[trigger] pts[k]).0 < w && 0
            <= pts[k].1 < g.len() by {
            assert(pts.to_set().contains(pts[k]));
            lemma_connected_ends(g, c, pts[0], pts[k]);
        }
    }
    outline_area_is_pixel_count(pts, w, g.len() as int);
}

/// Features `a` and `b` cover the same region: the same first pixel, the same pixels,
/// the same area and the same outline.
pub open spec fn same_region(a: VectorFeature, b: VectorFeature) -> bool {
    &&& feature_seed(a) == feature_seed(b)
    &&& points_of(a.pixels@).to_set() == points_of(b.pixels@).to_set()
    &&& a.area_px == b.area_px
    &&& a.ring@ == b.ring@
}

/// The features of `feats` with at least `m` pixels, in their order.
pub open spec fn large_features(feats: Seq<VectorFeature>, m: int) -> Seq<VectorFeature> {
    feats.filter(|f: VectorFeature| f.area_px >= m)
}

/// `f` is a feature of `feats` with at least `m` pixels.
pub open spec fn kept_from(feats: Seq<VectorFeature>, m: int, f: VectorFeature) -> bool {
    exists|i: int| 0 <= i < feats.len() && feats[i] == f && feats[i].area_px >= m
}

proof fn lemma_filter_facts(feats: Seq<VectorFeature>, m: int)
    ensures
        forall|j: int|
            0 <= j < large_features(feats, m).len() ==> #[trigger] kept_from(
                feats,
                m,
                large_features(feats, m)[j],
            ),
        forall|i: int|
            0 <= i < feats.len() && #[trigger] feats[i].area_px >= m ==> large_features(
                feats,
                m,
            ).contains(feats[i]),
        (forall|i: int, j: int|
            0 <= i < j < feats.len() ==> scan_before(
                feature_seed(#[trigger] feats[i]),
                feature_seed(#[trigger] feats[j]),
            )) ==> (forall|i: int, j: int|
            0 <= i < j < large_features(feats, m).len() ==> scan_before(
                feature_seed(#[trigger] large_features(feats, m)[i]),
                feature_seed(#[trigger] large_features(feats, m)[j]),
            )),
    decreases feats.len(),
{
    reveal(Seq::filter);
    let lo = large_features(feats, m);
    if feats.len() > 0 {
        let q = feats.drop_last();
        let x = feats.last();
        lemma_filter_facts(q, m);
        let lq = large_features(q, m);
        assert(lo == if x.area_px >= m { lq.push(x) } else { lq });
        assert forall|j: int| 0 <= j < lo.len() implies #[trigger] kept_from(feats, m, lo[j]) by {
            if j < lq.len() {
                assert(lo[j] == lq[j]);
                assert(kept_from(q, m, lq[j]));
                let i = choose|i: int| 0 <= i < q.len() && q[i] == lq[j] && q[i].area_px >= m;
                assert(feats[i] == q[i]);
            } else {
                assert(lo[j] == x);
                assert(feats[feats.len() - 1] == x);
            }
        }
        assert forall|i: int| 0 <= i < feats.len() && #[trigger] feats[i].area_px >= m implies lo.contains(
            feats[i],
        ) by {
            if i < q.len() {
                assert(q[i] == feats[i]);
                assert(q[i].area_px >= m);
                let j = choose|j: int| 0 <= j < lq.len() && lq[j] == q[i];
                assert(lo[j] == lq[j]);
            } else {
                assert(lo[lo.len() - 1] == x);
            }
        }
        if forall|i: int, j: int|
            0 <= i < j < feats.len() ==> scan_before(
                feature_seed(#[trigger] feats[i]),
                feature_seed(#[trigger] feats[j]),
            ) {
            assert forall|i: int, j: int|
                0 <= i < j < q.len() implies scan_before(
                feature_seed(#[trigger] q[i]),
                feature_seed(#[trigger] q[j]),
            ) by {
                assert(q[i] == feats[i] && q[j] == feats[j]);
            }
            assert forall|i: int, j: int|
                0 <= i < j < lo.len() implies scan_before(
                feature_seed(#[trigger] lo[i]),
                feature_seed(#[trigger] lo[j]),
            ) by {
                if j < lq.len() {
                    assert(lo[i] == lq[i] && lo[j] == lq[j]);
                } else {
                    assert(lo[j] == x);
                    assert(lo[i] == lq[i]);
                    assert(kept_from(q, m, lq[i]));
                    let k = choose|k: int| 0 <= k < q.len() && q[k] == lq[i] && q[k].area_px >= m;
                    assert(feats[k] == q[k]);
                    assert(feats[feats.len() - 1] == x);
                }
            }
        }
    }
}

/// Keeping the features of a list for `m1` that have at least `m2 >= m1` pixels gives a
/// list for `m2`.
proof fn lemma_large_features_listed(
    g: Seq<Seq<u8>>,
    c: u8,
    m1: int,
    m2: int,
    f1: Seq<VectorFeature>,
)
    requires
        m1 <= m2,
        lists_components(g, c, m1, f1),
    ensures
        lists_components(g, c, m2, large_features(f1, m2)),
{
    let lo = large_features(f1, m2);
    lemma_filter_facts(f1, m2);
    assert forall|j: int| 0 <= j < lo.len() implies is_component_feature(g, c, m2, #[trigger] lo[j]) by {
        assert(kept_from(f1, m2, lo[j]));
        let i = choose|i: int| 0 <= i < f1.len() && f1[i] == lo[j] && f1[i].area_px >= m2;
        assert(is_component_feature(g, c, m1, f1[i]));
    }
    assert forall|s: (int, int)|
        is_seed(g, c, s) && component(g, c, s).len() >= m2 implies exists|j: int|
        0 <= j < lo.len() && #[trigger] feature_seed(lo[j]) == s by {
        let i = choose|i: int| 0 <= i < f1.len() && #[trigger] feature_seed(f1[i]) == s;
        assert(is_component_feature(g, c, m1, f1[i]));
        points_of(f1[i].pixels@).unique_seq_to_set();
        assert(f1[i].area_px >= m2);
        assert(lo.contains(f1[i]));
        let j = choose|j: int| 0 <= j < lo.len() && lo[j] == f1[i];
        assert(feature_seed(lo[j]) == s);
    }
}

/// A feature of a list that `lists_components` accepts, found again in another such list:
/// the one at the same position has the same first pixel.
proof fn lemma_same_seed_at(
    g: Seq<Seq<u8>>,
    c: u8,
    min_area: int,
    f1: Seq<VectorFeature>,
    f2: Seq<VectorFeature>,
    i: int,
)
    requires
        lists_components(g, c, min_area, f1),
        lists_components(g, c, min_area, f2),
        0 <= i < f1.len(),
        i < f2.len(),
        forall|k: int| 0 <= k < i ==> feature_seed(#[trigger] f1[k]) == feature_seed(f2[k]),
    ensures
        feature_seed(f1[i]) == feature_seed(f2[i]),
{
    let a = feature_seed(f1[i]);
    let b = feature_seed(f2[i]);
    assert(is_component_feature(g, c, min_area, f1[i]));
    assert(is_component_feature(g, c, min_area, f2[i]));
    let p1 = points_of(f1[i].pixels@);
    let p2 = points_of(f2[i].pixels@);
    p1.unique_seq_to_set();
    p2.unique_seq_to_set();
    let j = choose|j: int| 0 <= j < f2.len() && #[trigger] feature_seed(f2[j]) == a;
    let k = choose|k: int| 0 <= k < f1.len() && #[trigger] feature_seed(f1[k]) == b;
    if j < i {
        assert(feature_seed(f1[j]) == feature_seed(f2[j]));
        assert(scan_before(feature_seed(f1[j]), feature_seed(f1[i])));
    }
    if k < i {
        assert(feature_seed(f1[k]) == feature_seed(f2[k]));
        assert(scan_before(feature_seed(f2[k]), feature_seed(f2[i])));
    }
    if a != b {
        if j > i {
            assert(scan_before(feature_seed(f2[i]), feature_seed(f2[j])));
        }
        if k > i {
            assert(scan_before(feature_seed(f1[i]), feature_seed(f1[k])));
        }
    }
}

proof fn lemma_same_seeds_upto(
    g: Seq<Seq<u8>>,
    c: u8,
    min_area: int,
    f1: Seq<VectorFeature>,
    f2: Seq<VectorFeature>,
    n: int,
)
    requires
        lists_components(g, c, min_area, f1),
        lists_components(g, c, min_area, f2),
        0 <= n <= f1.len(),
        n <= f2.len(),
    ensures
        forall|k: int| 0 <= k < n ==> feature_seed(#[trigger] f1[k]) == feature_seed(f2[k]),
    decreases n,
{
    if n > 0 {
        lemma_same_seeds_upto(g, c, min_area, f1, f2, n - 1);
        lemma_same_seed_at(g, c, min_area, f1, f2, n - 1);
    }
}

/// The extracted features are determined by the mask: two lists that both list the
/// components of a class with at least `min_area` pixels agree feature by feature,
/// with the same first pixel, pixels, area and outline (only the order in which each
/// feature lists its pixels is left open).
pub proof fn features_are_determined_by_the_mask(
    g: Seq<Seq<u8>>,
    c: u8,
    min_area: int,
    f1: Seq<VectorFeature>,
    f2: Seq<VectorFeature>,
)
    requires
        lists_components(g, c, min_area, f1),
        lists_components(g, c, min_area, f2),
    ensures
        f1.len() == f2.len(),
        forall|i: int| 0 <= i < f1.len() ==> #[trigger] same_region(f1[i], f2[i]),
{
    let n = if f1.len() <= f2.len() { f1.len() as int } else { f2.len() as int };
    lemma_same_seeds_upto(g, c, min_area, f1, f2, n);
    if f1.len() < f2.len() {
        let b = feature_seed(f2[n]);
        assert(is_component_feature(g, c, min_area, f2[n]));
        points_of(f2[n].pixels@).unique_seq_to_set();
        let k = choose|k: int| 0 <= k < f1.len() && #[trigger] feature_seed(f1[k]) == b;
        assert(feature_seed(f1[k]) == feature_seed(f2[k]));
        assert(scan_before(feature_seed(f2[k]), feature_seed(f2[n])));
    }
    if f2.len() < f1.len() {
        let a = feature_seed(f1[n]);
        assert(is_component_feature(g, c, min_area, f1[n]));
        points_of(f1[n].pixels@).unique_seq_to_set();
        let k = choose|k: int| 0 <= k < f2.len() && #[trigger] feature_seed(f2[k]) == a;
        assert(feature_seed(f1[k]) == feature_seed(f2[k]));
        assert(scan_before(feature_seed(f1[k]), feature_seed(f1[n])));
    }
    assert forall|i: int| 0 <= i < f1.len() implies #[trigger] same_region(f1[i], f2[i]) by {
        assert(is_component_feature(g, c, min_area, f1[i]));
        assert(is_component_feature(g, c, min_area, f2[i]));
        let p1 = points_of(f1[i].pixels@);
        let p2 = points_of(f2[i].pixels@);
        p1.unique_seq_to_set();
        p2.unique_seq_to_set();
        assert(p1.to_set() == p2.to_set());
        outline_depends_only_on_the_pixel_set(p1, p2);
    }
}

/// A larger minimum area only drops features: the list for `m2 >= m1` is, region for
/// region and in the same order, the list for `m1` with the features of fewer than `m2`
/// pixels taken out.
pub proof fn raising_min_area_drops_features(
    g: Seq<Seq<u8>>,
    c: u8,
    m1: int,
    m2: int,
    f1: Seq<VectorFeature>,
    f2: Seq<VectorFeature>,
)
    requires
        m1 <= m2,
        lists_components(g, c, m1, f1),
        lists_components(g, c, m2, f2),
    ensures
        f2.len() == large_features(f1, m2).len(),
        forall|j: int| 0 <= j < f2.len() ==> #[trigger] same_region(large_features(f1, m2)[j], f2[j]),
{
    lemma_large_features_listed(g, c, m1, m2, f1);
    features_are_determined_by_the_mask(g, c, m2, large_features(f1, m2), f2);
}

/// `x` and `y` list features that cover the same regions, position by position.
pub open spec fn same_regions(x: Seq<VectorFeature>, y: Seq<VectorFeature>) -> bool {
    &&& x.len() == y.len()
    &&& forall|k: int| 0 <= k < x.len() ==> #[trigger] same_region(x[k], y[k])
}

proof fn lemma_flatten_regions(a: Seq<Seq<VectorFeature>>, b: Seq<Seq<VectorFeature>>)
    requires
        a.len() == b.len(),
        forall|c: int| 0 <= c < a.len() ==> #[trigger] same_regions(a[c], b[c]),
    ensures
        same_regions(a.flatten(), b.flatten()),
    decreases a.len(),
{
    if a.len() > 0 {
        let ra = a.drop_first();
        let rb = b.drop_first();
        assert forall|c: int| 0 <= c < ra.len() implies #[trigger] same_regions(ra[c], rb[c]) by {
            assert(ra[c] == a[c + 1] && rb[c] == b[c + 1]);
            assert(same_regions(a[c + 1], b[c + 1]));
        }
        lemma_flatten_regions(ra, rb);
        assert(same_regions(a[0], b[0]));
        let fa = a.flatten();
        let fb = b.flatten();
        assert(fa == a.first() + ra.flatten());
        assert(fb == b.first() + rb.flatten());
        assert forall|k: int| 0 <= k < fa.len() implies #[trigger] same_region(fa[k], fb[k]) by {
            if k < a[0].len() {
                assert(fa[k] == a[0][k] && fb[k] == b[0][k]);
            } else {
                let j = k - a[0].len();
                assert(fa[k] == ra.flatten()[j] && fb[k] == rb.flatten()[j]);
            }
        }
    }
}

/// `polygonize_all` is `polygonize_class` for each class in turn: given, for every class
/// `c < num_classes`, a list `per[c]` that `polygonize_class` may return for `c`, the
/// features of all classes are, region for region, those lists one after the other.
pub proof fn polygonize_all_is_each_class_in_turn(
    g: Seq<Seq<u8>>,
    num_classes: int,
    min_area: int,
    all: Seq<VectorFeature>,
    per: Seq<Seq<VectorFeature>>,
)
    requires
        lists_all_classes(g, num_classes, min_area, all),
        per.len() == num_classes,
        forall|c: int|
            0 <= c < num_classes ==> lists_components(g, c as u8, min_area, #[trigger] per[c]),
    ensures
        same_regions(all, per.flatten()),
{
    let parts = choose|parts: Seq<Seq<VectorFeature>>|
        #![trigger parts.flatten()]
        parts.len() == num_classes && parts.flatten() == all && forall|c: int|
            0 <= c < num_classes ==> lists_components(g, c as u8, min_area, #[trigger] parts[c]);
    assert forall|c: int| 0 <= c < parts.len() implies #[trigger] same_regions(parts[c], per[c]) by {
        assert(lists_components(g, c as u8, min_area, parts[c]));
        assert(lists_components(g, c as u8, min_area, per[c]));
        features_are_determined_by_the_mask(g, c as u8, min_area, parts[c], per[c]);
    }
    lemma_flatten_regions(parts, per);
}

} // verus!
