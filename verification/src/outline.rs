//! Outlines: tracing the pixel-edge boundary of a set of pixels, and removing
//! the vertices of a ring that lie on a straight run.
use vstd::prelude::*;
use crate::grid::{MarkGrid, mark_rows, points_of, marked, grid_shape, lemma_mark_one};
use crate::counting::inside;

verus! {

/// The index before `i` in a cyclic sequence of length `n`.
pub open spec fn cyc_prev(i: int, n: int) -> int {
    if i == 0 {
        n - 1
    } else {
        i - 1
    }
}

/// The index after `i` in a cyclic sequence of length `n`.
pub open spec fn cyc_next(i: int, n: int) -> int {
    if i + 1 == n {
        0
    } else {
        i + 1
    }
}

/// Vertex `i` of the cyclic ring `r` is a corner: its two neighbours do not share
/// its x coordinate, nor its y coordinate, with it.
pub open spec fn is_corner(r: Seq<(i32, i32)>, i: int) -> bool {
    let n = r.len() as int;
    let prev = r[cyc_prev(i, n)];
    let curr = r[i];
    let next = r[cyc_next(i, n)];
    !(prev.0 == curr.0 && curr.0 == next.0) && !(prev.1 == curr.1 && curr.1 == next.1)
}

/// The corners among the first `k` vertices of `r`, in order.
pub open spec fn corners_upto(r: Seq<(i32, i32)>, k: int) -> Seq<(i32, i32)>
    decreases k,
{
    if k <= 0 {
        Seq::empty()
    } else if is_corner(r, k - 1) {
        corners_upto(r, k - 1).push(r[k - 1])
    } else {
        corners_upto(r, k - 1)
    }
}

/// `r` without its closing vertex, when its last vertex repeats its first.
pub open spec fn open_ring(r: Seq<(i32, i32)>) -> Seq<(i32, i32)> {
    if r.len() >= 2 && r[0] == r[r.len() - 1] {
        r.drop_last()
    } else {
        r
    }
}

/// `r` with its first vertex repeated at the end, unless it is empty.
pub open spec fn close_ring(r: Seq<(i32, i32)>) -> Seq<(i32, i32)> {
    if r.len() > 0 {
        r.push(r[0])
    } else {
        r
    }
}

/// The ring with every vertex removed that lies on a straight horizontal or
/// vertical run, closed again.  Rings of fewer than three distinct vertices
/// are only closed.
pub open spec fn collapsed(ring: Seq<(i32, i32)>) -> Seq<(i32, i32)> {
    let r = open_ring(ring);
    if r.len() < 3 {
        close_ring(r)
    } else {
        close_ring(corners_upto(r, r.len() as int))
    }
}

proof fn lemma_corners_from_ring(r: Seq<(i32, i32)>, k: int)
    requires
        0 <= k <= r.len(),
    ensures
        corners_upto(r, k).len() <= k,
        forall|j: int|
            0 <= j < corners_upto(r, k).len() ==> r.contains(#[trigger] corners_upto(r, k)[j]),
    decreases k,
{
    if k > 0 {
        lemma_corners_from_ring(r, k - 1);
        let prev = corners_upto(r, k - 1);
        let cur = corners_upto(r, k);
        assert forall|j: int| 0 <= j < cur.len() implies r.contains(#[trigger] cur[j]) by {
            if j < prev.len() {
                assert(cur[j] == prev[j]);
                assert(r.contains(prev[j]));
            } else {
                assert(cur[j] == r[k - 1]);
            }
        }
    }
}

/// A collapsed ring is empty or closed: its last vertex repeats its first.
pub proof fn collapsed_ring_is_closed(ring: Seq<(i32, i32)>)
    ensures
        collapsed(ring).len() == 0 || collapsed(ring)[0] == collapsed(ring)[collapsed(ring).len() - 1],
{
}

/// Collapsing adds no vertex: every vertex of the result is a vertex of the
/// input, and the result is at most one vertex longer than the input.
pub proof fn collapsed_ring_keeps_vertices(ring: Seq<(i32, i32)>)
    ensures
        collapsed(ring).len() <= ring.len() + 1,
        forall|j: int| 0 <= j < collapsed(ring).len() ==> ring.contains(#[trigger] collapsed(ring)[j]),
{
    let r = open_ring(ring);
    assert(forall|v: (i32, i32)| r.contains(v) ==> ring.contains(v)) by {
        assert forall|v: (i32, i32)| r.contains(v) implies ring.contains(v) by {
            let i = choose|i: int| 0 <= i < r.len() && r[i] == v;
            assert(ring[i] == v);
        }
    }
    if r.len() >= 3 {
        lemma_corners_from_ring(r, r.len() as int);
        let o = corners_upto(r, r.len() as int);
        assert forall|j: int| 0 <= j < collapsed(ring).len() implies ring.contains(
            #[trigger] collapsed(ring)[j],
        ) by {
            if j < o.len() {
                assert(collapsed(ring)[j] == o[j]);
                assert(r.contains(o[j]));
            } else {
                assert(collapsed(ring)[j] == o[0]);
                assert(r.contains(o[0]));
            }
        }
    } else {
        assert forall|j: int| 0 <= j < collapsed(ring).len() implies ring.contains(
            #[trigger] collapsed(ring)[j],
        ) by {
            if j < r.len() {
                assert(collapsed(ring)[j] == r[j]);
            } else {
                assert(collapsed(ring)[j] == r[0]);
            }
        }
    }
}

/// Remove the vertices of a closed ring that lie between two vertices on the
/// same horizontal or vertical line, keeping the ring closed.
pub fn collapse_collinear(ring: Vec<(i32, i32)>) -> (out: Vec<(i32, i32)>)
    ensures
        out@ == collapsed(ring@),
{
    let ghost input = ring@;
    let mut ring = ring;
    if ring.len() >= 2 && ring[0].0 == ring[ring.len() - 1].0 && ring[0].1 == ring[ring.len()
        - 1].1 {
        ring.pop();
    }
    let ghost r = ring@;
    assert(r == open_ring(input)) by {
        if input.len() >= 2 && input[0] == input[input.len() - 1] {
            assert(r =~= input.drop_last());
        }
    }
    let n = ring.len();
    if n < 3 {
        if n > 0 {
            let first = ring[0];
            ring.push(first);
        }
        return ring;
    }
    let mut out: Vec<(i32, i32)> = Vec::new();
    let mut i: usize = 0;
    while i < n
        invariant
            n == ring.len(),
            ring@ == r,
            3 <= n,
            i <= n,
            out@ == corners_upto(r, i as int),
        decreases n - i,
    {
        let prev = if i == 0 {
            ring[n - 1]
        } else {
            ring[i - 1]
        };
        let curr = ring[i];
        let next = if i + 1 == n {
            ring[0]
        } else {
            ring[i + 1]
        };
        let col_x = prev.0 == curr.0 && curr.0 == next.0;
        let col_y = prev.1 == curr.1 && curr.1 == next.1;
        if !col_x && !col_y {
            out.push(curr);
        }
        i = i + 1;
    }
    if out.len() > 0 {
        let first = out[0];
        out.push(first);
    }
    out
}


/// The directed unit edge from lattice corner `p` to `p + d` lies on the boundary
/// of the pixel set `s`: the pixel on its right (with y growing downward) is in
/// `s` and the pixel on its left is not.  Pixel `(x, y)` covers the unit square
/// with corners `(x, y)` and `(x + 1, y + 1)`.
pub open spec fn is_edge(s: Set<(int, int)>, p: (int, int), d: (int, int)) -> bool {
    if d == (1int, 0int) {
        s.contains(p) && !s.contains((p.0, p.1 - 1))
    } else if d == (0int, 1int) {
        s.contains((p.0 - 1, p.1)) && !s.contains(p)
    } else if d == (-1int, 0int) {
        s.contains((p.0 - 1, p.1 - 1)) && !s.contains((p.0 - 1, p.1))
    } else if d == (0int, -1int) {
        s.contains((p.0, p.1 - 1)) && !s.contains((p.0 - 1, p.1 - 1))
    } else {
        false
    }
}

/// The directions tried at a corner reached heading `d`, in order of preference:
/// turn right, straight on, turn left, back.
pub open spec fn turn_order(d: (int, int)) -> Seq<(int, int)> {
    seq![(-d.1, d.0), d, (d.1, -d.0), (-d.0, -d.1)]
}

/// The first direction of `turn_order(d)` that leaves corner `p` along a boundary edge of `s`.
pub open spec fn next_dir(s: Set<(int, int)>, p: (int, int), d: (int, int)) -> Option<(int, int)> {
    let o = turn_order(d);
    if is_edge(s, p, o[0]) {
        Some(o[0])
    } else if is_edge(s, p, o[1]) {
        Some(o[1])
    } else if is_edge(s, p, o[2]) {
        Some(o[2])
    } else if is_edge(s, p, o[3]) {
        Some(o[3])
    } else {
        None
    }
}

/// The corners visited by walking the boundary of `s` from edge `st` (corner and
/// direction), for at most `fuel` edges, stopping early when no edge leaves a
/// corner or when the walk is back at edge `start`.
pub open spec fn trace_from(
    s: Set<(int, int)>,
    start: (int, int, int, int),
    st: (int, int, int, int),
    fuel: nat,
) -> Seq<(int, int)>
    decreases fuel,
{
    if fuel == 0 {
        Seq::empty()
    } else {
        let q = (st.0 + st.2, st.1 + st.3);
        let rest = match next_dir(s, q, (st.2, st.3)) {
            None => Seq::empty(),
            Some(d) => if (q.0, q.1, d.0, d.1) == start {
                Seq::empty()
            } else {
                trace_from(s, start, (q.0, q.1, d.0, d.1), (fuel - 1) as nat)
            },
        };
        seq![(st.0, st.1)] + rest
    }
}

/// `p` is the top-most, then left-most, pixel of `s`.
pub open spec fn top_left(s: Set<(int, int)>, p: (int, int)) -> bool {
    &&& s.contains(p)
    &&& forall|q: (int, int)| #[trigger] s.contains(q) ==> p.1 < q.1 || (p.1 == q.1 && p.0 <= q.0)
}

/// How many of the four sides of pixel `p` face a pixel outside `s`.
pub open spec fn open_sides(s: Set<(int, int)>, p: (int, int)) -> int {
    (if s.contains((p.0, p.1 - 1)) { 0int } else { 1int }) + (if s.contains((p.0 + 1, p.1)) {
        0int
    } else {
        1int
    }) + (if s.contains((p.0, p.1 + 1)) { 0int } else { 1int }) + (if s.contains((p.0 - 1, p.1)) {
        0int
    } else {
        1int
    })
}

/// The number of boundary unit edges of `s` contributed by the pixels `pts`
/// (all of them, when `pts` lists `s` once each).
pub open spec fn open_side_total(s: Set<(int, int)>, pts: Seq<(int, int)>) -> int
    decreases pts.len(),
{
    if pts.len() == 0 {
        0
    } else {
        open_side_total(s, pts.drop_last()) + open_sides(s, pts.last())
    }
}

/// The points as `i32` coordinates.
pub open spec fn as_i32(r: Seq<(int, int)>) -> Seq<(i32, i32)> {
    r.map_values(|q: (int, int)| (q.0 as i32, q.1 as i32))
}

/// `r` with its first vertex appended when its last vertex differs from it.
pub open spec fn close_if_open(r: Seq<(i32, i32)>) -> Seq<(i32, i32)> {
    if r.len() > 0 && r[r.len() - 1] != r[0] {
        r.push(r[0])
    } else {
        r
    }
}

/// The outline of the pixels `pts`: the boundary walk of their set starting on the
/// top edge of the top-left pixel, heading right, for at most as many steps as the
/// set has boundary edges; closed, and with its straight-run vertices removed.
pub open spec fn outline_of(pts: Seq<(int, int)>) -> Seq<(i32, i32)> {
    if pts.len() == 0 {
        Seq::empty()
    } else {
        collapsed(close_if_open(as_i32(boundary_walk(pts))))
    }
}

/// The corners visited by the boundary walk of the set of `pts`: it starts on the
/// top edge of the top-left pixel heading right, and takes at most as many steps
/// as the pixels have sides facing outside the set.
pub open spec fn boundary_walk(pts: Seq<(int, int)>) -> Seq<(int, int)> {
    let s = pts.to_set();
    let p = choose|p: (int, int)| top_left(s, p);
    let st = (p.0, p.1, 1int, 0int);
    trace_from(s, st, st, open_side_total(s, pts) as nat)
}


pub(crate) proof fn lemma_top_left_unique(s: Set<(int, int)>, p: (int, int), q: (int, int))
    requires
        top_left(s, p),
        top_left(s, q),
    ensures
        p == q,
{
    assert(s.contains(q));
    assert(s.contains(p));
}

/// Both ends of a boundary edge are corners of a pixel of `s`.
pub(crate) proof fn lemma_edge_corners(s: Set<(int, int)>, p: (int, int), d: (int, int))
    requires
        is_edge(s, p, d),
    ensures
        exists|r: (int, int)|
            #![trigger s.contains(r)]
            s.contains(r) && 0 <= p.0 - r.0 <= 1 && 0 <= p.1 - r.1 <= 1 && 0 <= p.0 + d.0 - r.0 <= 1
                && 0 <= p.1 + d.1 - r.1 <= 1,
        d == (1int, 0int) || d == (0int, 1int) || d == (-1int, 0int) || d == (0int, -1int),
{
    if d == (1int, 0int) {
        assert(s.contains(p));
    } else if d == (0int, 1int) {
        assert(s.contains((p.0 - 1, p.1)));
    } else if d == (-1int, 0int) {
        assert(s.contains((p.0 - 1, p.1 - 1)));
    } else {
        assert(s.contains((p.0, p.1 - 1)));
    }
}

/// A bitmap over the box `[minx, minx + bw) x [miny, miny + bh)` that marks exactly the pixels of `s`,
/// all of which lie in the box.
pub open spec fn bitmap_of(
    m: Seq<Seq<bool>>,
    minx: int,
    miny: int,
    bw: int,
    bh: int,
    s: Set<(int, int)>,
) -> bool {
    &&& grid_shape(m, bw, bh)
    &&& forall|q: (int, int)|
        #![trigger marked(m, q)]
        0 <= q.0 < bw && 0 <= q.1 < bh ==> (marked(m, q) <==> s.contains((q.0 + minx, q.1 + miny)))
    &&& forall|q: (int, int)|
        #[trigger] s.contains(q) ==> minx <= q.0 < minx + bw && miny <= q.1 < miny + bh
}

/// Whether pixel `(qx, qy)` belongs to the set held in the bitmap.
fn bitmap_has(
    grid: &MarkGrid,
    minx: i64,
    miny: i64,
    bw: i64,
    bh: i64,
    qx: i64,
    qy: i64,
    Ghost(s): Ghost<Set<(int, int)>>,
) -> (r: bool)
    requires
        bitmap_of(mark_rows(*grid), minx as int, miny as int, bw as int, bh as int, s),
        0 <= minx < 0x8000_0000,
        0 <= miny < 0x8000_0000,
        0 < bw < 0x8000_0000,
        0 < bh < 0x8000_0000,
    ensures
        r == s.contains((qx as int, qy as int)),
{
    if qx < minx || qy < miny || qx - minx >= bw || qy - miny >= bh {
        false
    } else {
        let a = (qx - minx) as usize;
        let b = (qy - miny) as usize;
        proof {
            assert(mark_rows(*grid)[b as int].len() == bw);
            assert(marked(mark_rows(*grid), (a as int, b as int)) <==> s.contains(
                (qx as int, qy as int),
            ));
        }
        grid.get(b, a)
    }
}


/// Whether the unit edge from corner `(px, py)` in direction `(dx, dy)` is a boundary edge of the set.
fn edge_at(
    grid: &MarkGrid,
    minx: i64,
    miny: i64,
    bw: i64,
    bh: i64,
    px: i64,
    py: i64,
    dx: i64,
    dy: i64,
    Ghost(s): Ghost<Set<(int, int)>>,
) -> (r: bool)
    requires
        bitmap_of(mark_rows(*grid), minx as int, miny as int, bw as int, bh as int, s),
        0 <= minx < 0x8000_0000,
        0 <= miny < 0x8000_0000,
        0 < bw < 0x8000_0000,
        0 < bh < 0x8000_0000,
        -0x8000_0000 <= px <= 0x1_0000_0000,
        -0x8000_0000 <= py <= 0x1_0000_0000,
    ensures
        r == is_edge(s, (px as int, py as int), (dx as int, dy as int)),
{
    let g = Ghost(s);
    if dx == 1 && dy == 0 {
        bitmap_has(grid, minx, miny, bw, bh, px, py, g) && !bitmap_has(
            grid,
            minx,
            miny,
            bw,
            bh,
            px,
            py - 1,
            g,
        )
    } else if dx == 0 && dy == 1 {
        bitmap_has(grid, minx, miny, bw, bh, px - 1, py, g) && !bitmap_has(
            grid,
            minx,
            miny,
            bw,
            bh,
            px,
            py,
            g,
        )
    } else if dx == -1 && dy == 0 {
        bitmap_has(grid, minx, miny, bw, bh, px - 1, py - 1, g) && !bitmap_has(
            grid,
            minx,
            miny,
            bw,
            bh,
            px - 1,
            py,
            g,
        )
    } else if dx == 0 && dy == -1 {
        bitmap_has(grid, minx, miny, bw, bh, px, py - 1, g) && !bitmap_has(
            grid,
            minx,
            miny,
            bw,
            bh,
            px - 1,
            py - 1,
            g,
        )
    } else {
        false
    }
}

/// Trace the outer pixel-edge boundary of a set of pixels.
///
/// The walk starts on the top edge of the top-left pixel heading right and turns
/// right whenever it can, so it goes round the set clockwise (y down); holes are
/// not traced.  The ring is closed, and its straight-run vertices are removed.
/// Pixels may be listed more than once; a vector of pixel pairs (16 bytes each)
/// holds fewer than `2^62` of them, so the count of open sides fits in a `u64`.
pub(crate) fn outline_polygon(
    pixels: &Vec<(usize, usize)>,
    Ghost(w): Ghost<int>,
    Ghost(h): Ghost<int>,
) -> (ring: Vec<(i32, i32)>)
    requires
        pixels.len() < 0x4000_0000_0000_0000,
        inside(points_of(pixels@), w, h),
        0 < w < 0x7fff_ffff,
        0 < h < 0x7fff_ffff,
        w * h <= isize::MAX,
    ensures
        ring@ == outline_of(points_of(pixels@)),
{
    let n = pixels.len();
    if n == 0 {
        return Vec::new();
    }
    let ghost pts = points_of(pixels@);
    let ghost s = pts.to_set();
    assert(pts[0] == (pixels@[0].0 as int, pixels@[0].1 as int));
    let mut minx = pixels[0].0;
    let mut maxx = pixels[0].0;
    let mut miny = pixels[0].1;
    let mut maxy = pixels[0].1;
    let mut tx = pixels[0].0;
    let mut ty = pixels[0].1;
    let ghost mut tj: int = 0;
    let mut k: usize = 1;
    while k < n
        invariant
            n == pixels.len(),
            pts == points_of(pixels@),
            inside(pts, w, h),
            1 <= k <= n,
            forall|j: int|
                0 <= j < k ==> minx <= (#[trigger] pixels@[j]).0 <= maxx && miny <= pixels@[j].1
                    <= maxy,
            0 <= tj < k,
            pixels@[tj] == (tx, ty),
            minx <= maxx < w,
            miny <= maxy < h,
            forall|j: int|
                0 <= j < k ==> ty < (#[trigger] pixels@[j]).1 || (ty == pixels@[j].1 && tx
                    <= pixels@[j].0),
        decreases n - k,
    {
        let x = pixels[k].0;
        let y = pixels[k].1;
        assert(pts[k as int] == (x as int, y as int));
        if x < minx {
            minx = x;
        }
        if x > maxx {
            maxx = x;
        }
        if y < miny {
            miny = y;
        }
        if y > maxy {
            maxy = y;
        }
        if y < ty || (y == ty && x < tx) {
            tx = x;
            ty = y;
            proof {
                tj = k as int;
            }
        }
        k = k + 1;
    }
    proof {
        assert forall|j: int| 0 <= j < n implies (#[trigger] pixels@[j]).0 < w && pixels@[j].1 < h by {
            assert(pts[j] == (pixels@[j].0 as int, pixels@[j].1 as int));
        }
        assert(pixels@[tj].0 < w);
        assert(pixels@[tj].1 < h);
    }
    let bw = maxx - minx + 1;
    let bh = maxy - miny + 1;
    proof {
        assert(bh * bw <= w * h) by (nonlinear_arith)
            requires
                0 < bw <= w,
                0 < bh <= h,
        ;
    }
    let mut grid = MarkGrid::from_elem(bh, bw, false);
    let mut k: usize = 0;
    while k < n
        invariant
            n == pixels.len(),
            pts == points_of(pixels@),
            0 <= k <= n,
            bw == maxx - minx + 1,
            bh == maxy - miny + 1,
            forall|j: int|
                0 <= j < n ==> minx <= (#[trigger] pixels@[j]).0 <= maxx && miny <= pixels@[j].1
                    <= maxy,
            grid_shape(mark_rows(grid), bw as int, bh as int),
            forall|q: (int, int)|
                #![trigger marked(mark_rows(grid), q)]
                0 <= q.0 < bw && 0 <= q.1 < bh ==> (marked(mark_rows(grid), q) <==> pts.take(
                    k as int,
                ).contains((q.0 + minx, q.1 + miny))),
        decreases n - k,
    {
        let x = pixels[k].0;
        let y = pixels[k].1;
        let ghost m = mark_rows(grid);
        proof {
            lemma_mark_one(m, bw as int, bh as int, (x - minx) as int, (y - miny) as int);
            assert(pts.take(k + 1) == pts.take(k as int).push(pts[k as int]));
            assert(pts[k as int] == (x as int, y as int));
        }
        grid.set(y - miny, x - minx, true);
        k = k + 1;
        proof {
            assert forall|q: (int, int)|
                #![trigger marked(mark_rows(grid), q)]
                0 <= q.0 < bw && 0 <= q.1 < bh implies (marked(mark_rows(grid), q) <==> pts.take(
                k as int,
            ).contains((q.0 + minx, q.1 + miny))) by {
                let t = pts.take(k - 1);
                let v = (q.0 + minx, q.1 + miny);
                if t.contains(v) {
                    let i = choose|i: int| 0 <= i < t.len() && t[i] == v;
                    assert(pts.take(k as int)[i] == v);
                }
                if pts.take(k as int).contains(v) && v != pts[k - 1] {
                    let i = choose|i: int| 0 <= i < k && pts.take(k as int)[i] == v;
                    assert(t[i] == v);
                }
                assert(pts.take(k as int)[k - 1] == pts[k - 1]);
            }
        }
    }
    let mnx = minx as i64;
    let mny = miny as i64;
    let bwi = bw as i64;
    let bhi = bh as i64;
    proof {
        assert(pts.take(n as int) == pts);
        assert forall|q: (int, int)| #[trigger] s.contains(q) implies mnx <= q.0 < mnx + bwi && mny
            <= q.1 < mny + bhi by {
            let j = choose|j: int| 0 <= j < pts.len() && pts[j] == q;
            assert(minx <= pixels@[j].0 <= maxx && miny <= pixels@[j].1 <= maxy);
        }
        assert forall|q: (int, int)|
            #![trigger marked(mark_rows(grid), q)]
            0 <= q.0 < bw && 0 <= q.1 < bh implies (marked(mark_rows(grid), q) <==> s.contains(
            (q.0 + minx, q.1 + miny),
        )) by {
            let v = (q.0 + minx, q.1 + miny);
            assert(pts.contains(v) <==> s.contains(v));
        }
        assert(bitmap_of(mark_rows(grid), mnx as int, mny as int, bwi as int, bhi as int, s));
    }
    let gs: Ghost<Set<(int, int)>> = Ghost(s);
    // count the boundary edges
    let mut total: u64 = 0;
    let mut k: usize = 0;
    while k < n
        invariant
            n == pixels.len(),
            pts == points_of(pixels@),
            s == pts.to_set(),
            gs@ == s,
            n < 0x4000_0000_0000_0000,
            0 <= k <= n,
            bitmap_of(mark_rows(grid), mnx as int, mny as int, bwi as int, bhi as int, s),
            0 <= mnx < 0x8000_0000,
            0 <= mny < 0x8000_0000,
            0 < bwi < 0x8000_0000,
            0 < bhi < 0x8000_0000,
            inside(pts, w, h),
            0 < w < 0x7fff_ffff,
            0 < h < 0x7fff_ffff,
            total == open_side_total(s, pts.take(k as int)),
            total <= 4 * k,
        decreases n - k,
    {
        let x = pixels[k].0 as i64;
        let y = pixels[k].1 as i64;
        proof {
            assert(pts[k as int] == (pixels@[k as int].0 as int, pixels@[k as int].1 as int));
            assert(pts.take(k + 1).drop_last() == pts.take(k as int));
            assert(pts.take(k + 1).last() == pts[k as int]);
        }
        let mut open: u64 = 0;
        if !bitmap_has(&grid, mnx, mny, bwi, bhi, x, y - 1, gs) {
            open = open + 1;
        }
        if !bitmap_has(&grid, mnx, mny, bwi, bhi, x + 1, y, gs) {
            open = open + 1;
        }
        if !bitmap_has(&grid, mnx, mny, bwi, bhi, x, y + 1, gs) {
            open = open + 1;
        }
        if !bitmap_has(&grid, mnx, mny, bwi, bhi, x - 1, y, gs) {
            open = open + 1;
        }
        total = total + open;
        k = k + 1;
    }
    proof {
        assert(pts.take(n as int) == pts);
    }
    // walk the boundary
    let sx = tx as i64;
    let sy = ty as i64;
    let ghost st0 = (sx as int, sy as int, 1int, 0int);
    let ghost fuel = total as nat;
    proof {
        assert(top_left(s, (sx as int, sy as int))) by {
            assert(pts[tj] == (sx as int, sy as int));
            assert forall|q: (int, int)| #[trigger] s.contains(q) implies sy < q.1 || (sy == q.1
                && sx <= q.0) by {
                let j = choose|j: int| 0 <= j < pts.len() && pts[j] == q;
                assert(pts[j] == (pixels@[j].0 as int, pixels@[j].1 as int));
            }
        }
        assert(is_edge(s, (sx as int, sy as int), (1int, 0int)));
    }
    let mut cx = sx;
    let mut cy = sy;
    let mut dx: i64 = 1;
    let mut dy: i64 = 0;
    let ghost mut acc: Seq<(int, int)> = Seq::empty();
    let mut ring: Vec<(i32, i32)> = Vec::new();
    let mut i: u64 = 0;
    loop
        invariant_except_break
            acc + trace_from(s, st0, (cx as int, cy as int, dx as int, dy as int), (total - i) as nat)
                == trace_from(s, st0, st0, fuel),
        invariant
            bitmap_of(mark_rows(grid), mnx as int, mny as int, bwi as int, bhi as int, s),
            0 <= mnx < 0x8000_0000,
            0 <= mny < 0x8000_0000,
            0 < bwi < 0x8000_0000,
            0 < bhi < 0x8000_0000,
            mnx + bwi <= w,
            mny + bhi <= h,
            0 < w < 0x7fff_ffff,
            0 < h < 0x7fff_ffff,
            st0 == (sx as int, sy as int, 1int, 0int),
            gs@ == s,
            fuel == total,
            i <= total,
            is_edge(s, (cx as int, cy as int), (dx as int, dy as int)),
            ring@ == as_i32(acc),
        ensures
            ring@ == as_i32(trace_from(s, st0, st0, fuel)),
        decreases total - i,
    {
        let ghost cur = (cx as int, cy as int, dx as int, dy as int);
        let ghost f = (total - i) as nat;
        if i >= total {
            proof {
                assert(acc + trace_from(s, st0, cur, f) == acc);
            }
            break ;
        }
        proof {
            lemma_edge_corners(s, (cx as int, cy as int), (dx as int, dy as int));
        }
        ring.push((cx as i32, cy as i32));
        let ghost acc0 = acc;
        proof {
            acc = acc.push((cx as int, cy as int));
            assert(ring@ == as_i32(acc));
        }
        let nx = cx + dx;
        let ny = cy + dy;
        let found: Option<(i64, i64)> = if edge_at(&grid, mnx, mny, bwi, bhi, nx, ny, -dy, dx, gs) {
            Some((-dy, dx))
        } else if edge_at(&grid, mnx, mny, bwi, bhi, nx, ny, dx, dy, gs) {
            Some((dx, dy))
        } else if edge_at(&grid, mnx, mny, bwi, bhi, nx, ny, dy, -dx, gs) {
            Some((dy, -dx))
        } else if edge_at(&grid, mnx, mny, bwi, bhi, nx, ny, -dx, -dy, gs) {
            Some((-dx, -dy))
        } else {
            None
        };
        let ghost q = (nx as int, ny as int);
        assert(found matches Some(d) ==> next_dir(s, q, (dx as int, dy as int)) == Some(
            (d.0 as int, d.1 as int),
        ));
        assert(found is None ==> next_dir(s, q, (dx as int, dy as int)) is None);
        match found {
            None => {
                proof {
                    assert(trace_from(s, st0, cur, f) == seq![(cx as int, cy as int)]);
                    assert(acc0 + seq![(cx as int, cy as int)] =~= acc);
                }
                break ;
            },
            Some((ndx, ndy)) => {
                if nx == sx && ny == sy && ndx == 1 && ndy == 0 {
                    proof {
                        assert(trace_from(s, st0, cur, f) == seq![(cx as int, cy as int)]);
                        assert(acc0 + seq![(cx as int, cy as int)] =~= acc);
                    }
                    break ;
                }
                proof {
                    let nst = (nx as int, ny as int, ndx as int, ndy as int);
                    assert(trace_from(s, st0, cur, f) == seq![(cx as int, cy as int)] + trace_from(
                        s,
                        st0,
                        nst,
                        (f - 1) as nat,
                    ));
                    assert(acc0 + (seq![(cx as int, cy as int)] + trace_from(
                        s,
                        st0,
                        nst,
                        (f - 1) as nat,
                    )) =~= acc + trace_from(s, st0, nst, (f - 1) as nat));
                }
                cx = nx;
                cy = ny;
                dx = ndx;
                dy = ndy;
                i = i + 1;
            },
        }
    }
    let m = ring.len();
    if m > 0 {
        let first = ring[0];
        let last = ring[m - 1];
        if last.0 != first.0 || last.1 != first.1 {
            ring.push(first);
        }
    }
    proof {
        let p = choose|p: (int, int)| top_left(s, p);
        lemma_top_left_unique(s, p, (sx as int, sy as int));
    }
    collapse_collinear(ring)
}

/// `v` is one of the four corners of a pixel of `s`.
pub open spec fn is_pixel_corner(s: Set<(int, int)>, v: (int, int)) -> bool {
    exists|r: (int, int)|
        #![trigger s.contains(r)]
        s.contains(r) && 0 <= v.0 - r.0 <= 1 && 0 <= v.1 - r.1 <= 1
}

proof fn lemma_trace_on_corners(
    s: Set<(int, int)>,
    start: (int, int, int, int),
    st: (int, int, int, int),
    fuel: nat,
)
    requires
        is_edge(s, (st.0, st.1), (st.2, st.3)),
    ensures
        forall|k: int|
            0 <= k < trace_from(s, start, st, fuel).len() ==> is_pixel_corner(
                s,
                #[trigger] trace_from(s, start, st, fuel)[k],
            ),
    decreases fuel,
{
    if fuel > 0 {
        lemma_edge_corners(s, (st.0, st.1), (st.2, st.3));
        let q = (st.0 + st.2, st.1 + st.3);
        let t = trace_from(s, start, st, fuel);
        match next_dir(s, q, (st.2, st.3)) {
            None => {
                assert forall|k: int| 0 <= k < t.len() implies is_pixel_corner(s, #[trigger] t[k]) by {
                    assert(t[k] == (st.0, st.1));
                }
            },
            Some(d) => {
                if (q.0, q.1, d.0, d.1) == start {
                    assert forall|k: int| 0 <= k < t.len() implies is_pixel_corner(
                        s,
                        #[trigger] t[k],
                    ) by {
                        assert(t[k] == (st.0, st.1));
                    }
                } else {
                    let nst = (q.0, q.1, d.0, d.1);
                    lemma_trace_on_corners(s, start, nst, (fuel - 1) as nat);
                    let rest = trace_from(s, start, nst, (fuel - 1) as nat);
                    assert(t == seq![(st.0, st.1)] + rest);
                    assert forall|k: int| 0 <= k < t.len() implies is_pixel_corner(
                        s,
                        #[trigger] t[k],
                    ) by {
                        if k > 0 {
                            assert(t[k] == rest[k - 1]);
                        }
                    }
                }
            },
        }
    }
}

/// Every vertex of an outline is a corner of one of the outlined pixels: the
/// outline runs along pixel edges.
pub proof fn outline_vertices_are_pixel_corners(pts: Seq<(int, int)>, w: int, h: int)
    requires
        inside(pts, w, h),
        0 <= w < 0x7fff_ffff,
        0 <= h < 0x7fff_ffff,
    ensures
        forall|j: int|
            0 <= j < outline_of(pts).len() ==> is_pixel_corner(
                pts.to_set(),
                ((#[trigger] outline_of(pts)[j]).0 as int, outline_of(pts)[j].1 as int),
            ),
{
    if pts.len() > 0 {
        let s = pts.to_set();
        assert(exists|p: (int, int)| top_left(s, p)) by {
            lemma_top_left_exists(pts);
        }
        let p = choose|p: (int, int)| top_left(s, p);
        let st = (p.0, p.1, 1int, 0int);
        assert(is_edge(s, (p.0, p.1), (1int, 0int)));
        let t = trace_from(s, st, st, open_side_total(s, pts) as nat);
        lemma_trace_on_corners(s, st, st, open_side_total(s, pts) as nat);
        let t32 = as_i32(t);
        assert forall|k: int| 0 <= k < t32.len() implies is_pixel_corner(
            s,
            ((#[trigger] t32[k]).0 as int, t32[k].1 as int),
        ) by {
            assert(is_pixel_corner(s, t[k]));
            let r = choose|r: (int, int)|
                #![trigger s.contains(r)]
                s.contains(r) && 0 <= t[k].0 - r.0 <= 1 && 0 <= t[k].1 - r.1 <= 1;
            let i = choose|i: int| 0 <= i < pts.len() && pts[i] == r;
            assert(0 <= pts[i].0 < w && 0 <= pts[i].1 < h);
            assert(t32[k] == (t[k].0 as i32, t[k].1 as i32));
        }
        let closed = close_if_open(t32);
        assert forall|k: int| 0 <= k < closed.len() implies is_pixel_corner(
            s,
            ((#[trigger] closed[k]).0 as int, closed[k].1 as int),
        ) by {
            if k < t32.len() {
                assert(closed[k] == t32[k]);
            } else {
                assert(closed[k] == t32[0]);
            }
        }
        collapsed_ring_keeps_vertices(closed);
        assert forall|j: int| 0 <= j < outline_of(pts).len() implies is_pixel_corner(
            s,
            ((#[trigger] outline_of(pts)[j]).0 as int, outline_of(pts)[j].1 as int),
        ) by {
            assert(outline_of(pts) == collapsed(closed));
            assert(closed.contains(outline_of(pts)[j]));
            let k = choose|k: int| 0 <= k < closed.len() && closed[k] == outline_of(pts)[j];
            assert(is_pixel_corner(s, (closed[k].0 as int, closed[k].1 as int)));
        }
    }
}

/// A non-empty list of pixels has a top-left pixel.
pub(crate) proof fn lemma_top_left_exists(pts: Seq<(int, int)>)
    requires
        pts.len() > 0,
    ensures
        exists|p: (int, int)| top_left(pts.to_set(), p),
    decreases pts.len(),
{
    let s = pts.to_set();
    if pts.len() == 1 {
        assert(top_left(s, pts[0])) by {
            assert forall|q: (int, int)| #[trigger] s.contains(q) implies pts[0].1 < q.1 || (pts[0].1
                == q.1 && pts[0].0 <= q.0) by {
                let i = choose|i: int| 0 <= i < pts.len() && pts[i] == q;
            }
        }
    } else {
        let rest = pts.drop_last();
        lemma_top_left_exists(rest);
        let p = choose|p: (int, int)| top_left(rest.to_set(), p);
        let l = pts.last();
        let best = if l.1 < p.1 || (l.1 == p.1 && l.0 < p.0) {
            l
        } else {
            p
        };
        assert(top_left(s, best)) by {
            assert(rest.to_set().contains(p));
            let ip = choose|i: int| 0 <= i < rest.len() && rest[i] == p;
            assert(pts[ip] == p);
            assert(pts[pts.len() - 1] == l);
            assert forall|q: (int, int)| #[trigger] s.contains(q) implies best.1 < q.1 || (best.1
                == q.1 && best.0 <= q.0) by {
                let i = choose|i: int| 0 <= i < pts.len() && pts[i] == q;
                if i < pts.len() - 1 {
                    assert(rest[i] == q);
                    assert(rest.to_set().contains(q));
                }
            }
        }
    }
}

} // verus!
