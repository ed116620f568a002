//! 4-connectivity on a label raster: paths, connected pixels, components,
//! and the row-major scan order in which components are discovered.
//!
//! Points are `(x, y)` pairs: `x` is the column, `y` the row.
use vstd::prelude::*;

verus! {

/// Pixel `p` lies in the raster `g` (rows of labels) and carries label `c`.
pub open spec fn has_label(g: Seq<Seq<u8>>, c: u8, p: (int, int)) -> bool {
    &&& 0 <= p.1 < g.len()
    &&& 0 <= p.0 < g[p.1].len()
    &&& g[p.1][p.0] == c
}

/// `p` and `q` share a pixel side (4-neighbourhood).
pub open spec fn adjacent(p: (int, int), q: (int, int)) -> bool {
    ||| p.1 == q.1 && (p.0 == q.0 + 1 || q.0 == p.0 + 1)
    ||| p.0 == q.0 && (p.1 == q.1 + 1 || q.1 == p.1 + 1)
}

/// Step `i` of `path` goes to a 4-neighbour.
pub open spec fn linked(path: Seq<(int, int)>, i: int) -> bool {
    adjacent(path[i], path[i + 1])
}

/// A non-empty walk through pixels of label `c`, each step to a 4-neighbour.
pub open spec fn is_path(g: Seq<Seq<u8>>, c: u8, path: Seq<(int, int)>) -> bool {
    &&& path.len() > 0
    &&& forall|i: int| 0 <= i < path.len() ==> has_label(g, c, #[trigger] path[i])
    &&& forall|i: int| 0 <= i < path.len() - 1 ==> #[trigger] linked(path, i)
}

/// Some walk through label-`c` pixels leads from `p` to `q`.
pub open spec fn connected(g: Seq<Seq<u8>>, c: u8, p: (int, int), q: (int, int)) -> bool {
    exists|path: Seq<(int, int)>|
        #[trigger] is_path(g, c, path) && path[0] == p && path[path.len() - 1] == q
}

/// The 4-connected component of label `c` that holds `p` (empty when `p` has another label).
pub open spec fn component(g: Seq<Seq<u8>>, c: u8, p: (int, int)) -> Set<(int, int)> {
    Set::new(|q: (int, int)| connected(g, c, p, q))
}

/// `p` comes before `q` in a row-major scan (rows top to bottom, columns left to right).
pub open spec fn scan_before(p: (int, int), q: (int, int)) -> bool {
    p.1 < q.1 || (p.1 == q.1 && p.0 < q.0)
}

/// `s` is the first pixel of its component in scan order.
pub open spec fn is_seed(g: Seq<Seq<u8>>, c: u8, s: (int, int)) -> bool {
    &&& has_label(g, c, s)
    &&& forall|p: (int, int)| #[trigger] connected(g, c, p, s) ==> !scan_before(p, s)
}

/// `q` is connected to some pixel that a scan reaches before `cur`.
pub open spec fn reached_before(g: Seq<Seq<u8>>, c: u8, cur: (int, int), q: (int, int)) -> bool {
    exists|p: (int, int)| scan_before(p, cur) && #[trigger] connected(g, c, p, q)
}

pub proof fn lemma_connected_refl(g: Seq<Seq<u8>>, c: u8, p: (int, int))
    requires
        has_label(g, c, p),
    ensures
        connected(g, c, p, p),
{
    let path = seq![p];
    assert(is_path(g, c, path));
}

pub proof fn lemma_connected_ends(g: Seq<Seq<u8>>, c: u8, p: (int, int), q: (int, int))
    requires
        connected(g, c, p, q),
    ensures
        has_label(g, c, p),
        has_label(g, c, q),
{
    let path = choose|path: Seq<(int, int)>|
        #[trigger] is_path(g, c, path) && path[0] == p && path[path.len() - 1] == q;
    assert(has_label(g, c, path[0]));
    assert(has_label(g, c, path[path.len() - 1]));
}

pub proof fn lemma_connected_step(
    g: Seq<Seq<u8>>,
    c: u8,
    p: (int, int),
    a: (int, int),
    b: (int, int),
)
    requires
        connected(g, c, p, a),
        adjacent(a, b),
        has_label(g, c, b),
    ensures
        connected(g, c, p, b),
{
    let path = choose|path: Seq<(int, int)>|
        #[trigger] is_path(g, c, path) && path[0] == p && path[path.len() - 1] == a;
    let np = path.push(b);
    assert forall|i: int| 0 <= i < np.len() implies has_label(g, c, #[trigger] np[i]) by {
        if i < path.len() {
            assert(np[i] == path[i]);
        }
    }
    assert forall|i: int| 0 <= i < np.len() - 1 implies #[trigger] linked(np, i) by {
        if i < path.len() - 1 {
            assert(linked(path, i));
        }
    }
    assert(is_path(g, c, np));
    assert(np[0] == p && np[np.len() - 1] == b);
}

pub proof fn lemma_connected_sym(g: Seq<Seq<u8>>, c: u8, p: (int, int), q: (int, int))
    requires
        connected(g, c, p, q),
    ensures
        connected(g, c, q, p),
{
    let path = choose|path: Seq<(int, int)>|
        #[trigger] is_path(g, c, path) && path[0] == p && path[path.len() - 1] == q;
    let n = path.len();
    let rev = Seq::new(n, |i: int| path[n - 1 - i]);
    assert forall|i: int| 0 <= i < rev.len() implies has_label(g, c, #[trigger] rev[i]) by {
        assert(has_label(g, c, path[n - 1 - i]));
    }
    assert forall|i: int| 0 <= i < rev.len() - 1 implies #[trigger] linked(rev, i) by {
        assert(linked(path, n - 2 - i));
    }
    assert(is_path(g, c, rev));
    assert(rev[0] == q && rev[rev.len() - 1] == p);
}

proof fn lemma_connected_along(
    g: Seq<Seq<u8>>,
    c: u8,
    p: (int, int),
    path: Seq<(int, int)>,
    k: int,
)
    requires
        is_path(g, c, path),
        connected(g, c, p, path[0]),
        0 <= k < path.len(),
    ensures
        connected(g, c, p, path[k]),
    decreases k,
{
    if k > 0 {
        lemma_connected_along(g, c, p, path, k - 1);
        assert(linked(path, k - 1));
        assert(has_label(g, c, path[k]));
        lemma_connected_step(g, c, p, path[k - 1], path[k]);
    }
}

pub proof fn lemma_connected_trans(
    g: Seq<Seq<u8>>,
    c: u8,
    p: (int, int),
    q: (int, int),
    r: (int, int),
)
    requires
        connected(g, c, p, q),
        connected(g, c, q, r),
    ensures
        connected(g, c, p, r),
{
    let path = choose|path: Seq<(int, int)>|
        #[trigger] is_path(g, c, path) && path[0] == q && path[path.len() - 1] == r;
    lemma_connected_along(g, c, p, path, path.len() - 1);
}

/// A set closed under stepping to label-`c` neighbours.
pub open spec fn closed_under_steps(g: Seq<Seq<u8>>, c: u8, s: Set<(int, int)>) -> bool {
    forall|a: (int, int), b: (int, int)|
        #![trigger s.contains(a), s.contains(b)]
        s.contains(a) && adjacent(a, b) && has_label(g, c, b) ==> s.contains(b)
}

proof fn lemma_closed_along(
    g: Seq<Seq<u8>>,
    c: u8,
    s: Set<(int, int)>,
    path: Seq<(int, int)>,
    k: int,
)
    requires
        closed_under_steps(g, c, s),
        is_path(g, c, path),
        s.contains(path[0]),
        0 <= k < path.len(),
    ensures
        s.contains(path[k]),
    decreases k,
{
    if k > 0 {
        lemma_closed_along(g, c, s, path, k - 1);
        assert(linked(path, k - 1));
        assert(has_label(g, c, path[k]));
    }
}

/// A step-closed set that holds `p` holds all of `p`'s component.
pub proof fn lemma_closed_holds_component(
    g: Seq<Seq<u8>>,
    c: u8,
    s: Set<(int, int)>,
    p: (int, int),
)
    requires
        closed_under_steps(g, c, s),
        s.contains(p),
    ensures
        component(g, c, p).subset_of(s),
{
    assert forall|q: (int, int)| #[trigger] component(g, c, p).contains(q) implies s.contains(q) by {
        let path = choose|path: Seq<(int, int)>|
            #[trigger] is_path(g, c, path) && path[0] == p && path[path.len() - 1] == q;
        lemma_closed_along(g, c, s, path, path.len() - 1);
    }
}

/// Every pixel of label `c` is connected to the first pixel of its component.
pub proof fn lemma_seed_exists(g: Seq<Seq<u8>>, c: u8, p: (int, int)) -> (s: (int, int))
    requires
        has_label(g, c, p),
    ensures
        is_seed(g, c, s),
        connected(g, c, s, p),
    decreases p.1, p.0,
{
    lemma_connected_refl(g, c, p);
    if is_seed(g, c, p) {
        p
    } else {
        let q = choose|q: (int, int)| #[trigger] connected(g, c, q, p) && scan_before(q, p);
        lemma_connected_ends(g, c, q, p);
        let s = lemma_seed_exists(g, c, q);
        lemma_connected_trans(g, c, s, q, p);
        s
    }
}

/// Two first pixels of the same component are the same pixel.
pub proof fn lemma_seed_unique(g: Seq<Seq<u8>>, c: u8, s: (int, int), t: (int, int))
    requires
        is_seed(g, c, s),
        is_seed(g, c, t),
        connected(g, c, s, t),
    ensures
        s == t,
{
    lemma_connected_sym(g, c, s, t);
    assert(!scan_before(s, t));
    assert(!scan_before(t, s));
}

} // verus!
