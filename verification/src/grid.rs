//! Pixel grids numbered row by row: 4-neighbour adjacency, paths and
//! connected components.

use vstd::prelude::*;

verus! {

/// Pixels of a `w`-wide grid of `n` pixels are numbered row by row, so
/// pixel `p` sits in column `p % w` and row `p / w`.
pub open spec fn col(w: int, p: int) -> int {
    p % w
}

pub open spec fn row(w: int, p: int) -> int {
    p / w
}

/// `q` is the right-hand or the lower neighbour of `p`.
pub open spec fn step(w: int, n: int, p: int, q: int) -> bool {
    &&& 0 <= p < n
    &&& 0 <= q < n
    &&& ((q == p + 1 && p % w != w - 1) || q == p + w)
}

/// `p` and `q` are 4-neighbours in the grid.
pub open spec fn adjacent(w: int, n: int, p: int, q: int) -> bool {
    step(w, n, p, q) || step(w, n, q, p)
}

/// A sequence of set pixels in which each follows its predecessor as a
/// 4-neighbour.
pub open spec fn is_path(m: spec_fn(int) -> bool, w: int, n: int, path: Seq<int>) -> bool {
    &&& path.len() >= 1
    &&& forall|i: int| 0 <= i < path.len() ==> 0 <= #[trigger] path[i] < n && m(path[i])
    &&& forall|i: int, j: int|
        #![trigger path[i], path[j]]
        0 <= i && j == i + 1 && j < path.len() ==> adjacent(w, n, path[i], path[j])
}

/// Pixel `t` can be reached from pixel `s` through set pixels.
pub open spec fn connected(m: spec_fn(int) -> bool, w: int, n: int, s: int, t: int) -> bool {
    exists|path: Seq<int>| #[trigger] is_path(m, w, n, path) && path[0] == s && path.last() == t
}

/// The connected component of the set pixel `s`.
pub open spec fn component(m: spec_fn(int) -> bool, w: int, n: int, s: int) -> Set<int> {
    Set::new(|t: int| connected(m, w, n, s, t))
}

/// `s` is a set pixel and comes first, in row-by-row order, in its component.
pub open spec fn first_of_component(m: spec_fn(int) -> bool, w: int, n: int, s: int) -> bool {
    &&& 0 <= s < n
    &&& m(s)
    &&& forall|t: int| connected(m, w, n, s, t) ==> s <= t
}

/// Every set neighbour of a pixel of `d` is in `d`.
pub open spec fn closed_under(m: spec_fn(int) -> bool, w: int, n: int, d: Set<int>) -> bool {
    forall|p: int, q: int| #[trigger] d.contains(p) && m(q) && adjacent(w, n, p, q) ==> #[trigger] d.contains(q)
}

pub proof fn lemma_connected_refl(m: spec_fn(int) -> bool, w: int, n: int, s: int)
    requires
        0 <= s < n,
        m(s),
    ensures
        connected(m, w, n, s, s),
{
    let path = seq![s];
    assert(is_path(m, w, n, path));
}

pub proof fn lemma_connected_extend(m: spec_fn(int) -> bool, w: int, n: int, s: int, t: int, u: int)
    requires
        connected(m, w, n, s, t),
        adjacent(w, n, t, u),
        m(u),
    ensures
        connected(m, w, n, s, u),
{
    let path = choose|path: Seq<int>| #[trigger] is_path(m, w, n, path) && path[0] == s && path.last() == t;
    let p2 = path.push(u);
    assert forall|i: int, j: int| 0 <= i && j == i + 1 && j < p2.len() implies adjacent(w, n, #[trigger] p2[i], #[trigger] p2[j]) by {
        if j < path.len() {
            assert(path[i] == p2[i] && path[j] == p2[j]);
        } else {
            assert(p2[i] == path[path.len() - 1]);
        }
    }
    assert forall|i: int| 0 <= i < p2.len() implies 0 <= #[trigger] p2[i] < n && m(p2[i]) by {
        if i < path.len() {
            assert(p2[i] == path[i]);
        }
    }
    assert(is_path(m, w, n, p2));
}

pub proof fn lemma_connected_symmetric(m: spec_fn(int) -> bool, w: int, n: int, s: int, t: int)
    requires
        connected(m, w, n, s, t),
    ensures
        connected(m, w, n, t, s),
{
    let path = choose|path: Seq<int>| #[trigger] is_path(m, w, n, path) && path[0] == s && path.last() == t;
    let len = path.len() as int;
    let r = Seq::new(path.len(), |i: int| path[len - 1 - i]);
    assert forall|i: int, j: int| 0 <= i && j == i + 1 && j < r.len() implies adjacent(w, n, #[trigger] r[i], #[trigger] r[j]) by {
        let a = len - 1 - j;
        let b = len - 1 - i;
        assert(path[a] == r[j] && path[b] == r[i]);
    }
    assert forall|i: int| 0 <= i < r.len() implies 0 <= #[trigger] r[i] < n && m(r[i]) by {
        assert(r[i] == path[len - 1 - i]);
    }
    assert(is_path(m, w, n, r));
}

proof fn lemma_path_prefix_in_closed(m: spec_fn(int) -> bool, w: int, n: int, d: Set<int>, path: Seq<int>, k: int)
    requires
        is_path(m, w, n, path),
        d.contains(path[0]),
        closed_under(m, w, n, d),
        0 <= k < path.len(),
    ensures
        d.contains(path[k]),
    decreases k,
{
    if k > 0 {
        lemma_path_prefix_in_closed(m, w, n, d, path, k - 1);
        assert(adjacent(w, n, path[k - 1], path[k]));
        assert(m(path[k]));
    }
}

/// A set closed under set neighbours that holds `s` holds all of `s`'s component.
pub proof fn lemma_closed_holds_component(m: spec_fn(int) -> bool, w: int, n: int, d: Set<int>, s: int, t: int)
    requires
        closed_under(m, w, n, d),
        d.contains(s),
        connected(m, w, n, s, t),
    ensures
        d.contains(t),
{
    let path = choose|path: Seq<int>| #[trigger] is_path(m, w, n, path) && path[0] == s && path.last() == t;
    lemma_path_prefix_in_closed(m, w, n, d, path, path.len() - 1);
}

/// Everything connected to `s` is set and in the grid.
pub proof fn lemma_connected_ends(m: spec_fn(int) -> bool, w: int, n: int, s: int, t: int)
    requires
        connected(m, w, n, s, t),
    ensures
        0 <= s < n,
        0 <= t < n,
        m(s),
        m(t),
{
    let path = choose|path: Seq<int>| #[trigger] is_path(m, w, n, path) && path[0] == s && path.last() == t;
    assert(path[path.len() - 1] == t);
}

/// The 4-neighbours of the pixel in column `cx` and row `cy` of a grid
/// `w` wide and `h` high.
pub proof fn lemma_neighbours(w: int, h: int, cx: int, cy: int)
    requires
        0 <= cx < w,
        0 <= cy < h,
    ensures
        0 <= cy * w + cx < w * h,
        (cy * w + cx) % w == cx,
        (cy * w + cx) / w == cy,
        forall|q: int|
            #[trigger] adjacent(w, w * h, cy * w + cx, q) <==> ((q == cy * w + cx + 1 && cx + 1 < w)
                || (q == cy * w + cx - 1 && cx >= 1) || (q == cy * w + cx + w && cy + 1 < h) || (q
                == cy * w + cx - w && cy >= 1)),
{
    let p = cy * w + cx;
    let n = w * h;
    assert(0 <= cy * w) by (nonlinear_arith)
        requires 0 <= cy, 0 < w;
    assert(cy * w + cx < w * h) by (nonlinear_arith)
        requires 0 <= cx < w, 0 <= cy < h;
    assert((cy + 1) * w == cy * w + w) by (nonlinear_arith);
    assert((cy - 1) * w == cy * w - w) by (nonlinear_arith);
    if cy + 1 < h {
        assert(cy * w + cx + w < w * h) by (nonlinear_arith)
            requires 0 <= cx < w, 0 <= cy, cy + 1 < h;
    } else {
        assert(cy * w + cx + w >= w * h) by (nonlinear_arith)
            requires 0 <= cx, 0 <= cy, h <= cy + 1, 0 < w;
    }
    if cy >= 1 {
        assert(cy * w + cx - w >= 0) by (nonlinear_arith)
            requires 0 <= cx, 0 < w, cy >= 1;
    } else {
        assert(cy * w + cx - w < 0) by (nonlinear_arith)
            requires cx < w, cy == 0;
    }
    assert(cy * w + w <= w * h) by (nonlinear_arith)
        requires 0 <= cy < h, 0 < w;
    vstd::arithmetic::div_mod::lemma_fundamental_div_mod_converse(p, w, cy, cx);
    if cx >= 1 {
        vstd::arithmetic::div_mod::lemma_fundamental_div_mod_converse(p - 1, w, cy, cx - 1);
    } else if cy >= 1 {
        vstd::arithmetic::div_mod::lemma_fundamental_div_mod_converse(p - 1, w, cy - 1, w - 1);
    }
    assert forall|q: int|
        #[trigger] adjacent(w, n, p, q) <==> ((q == p + 1 && cx + 1 < w) || (q == p - 1 && cx >= 1)
            || (q == p + w && cy + 1 < h) || (q == p - w && cy >= 1)) by {
        if q == p + 1 {
            if cx + 1 < w {
                assert(step(w, n, p, q));
            }
        } else if q == p - 1 {
            if cx >= 1 {
                assert(q % w == cx - 1);
                assert(step(w, n, q, p));
            } else if cy >= 1 {
                assert(q % w == w - 1);
            }
        } else if q == p + w {
            if cy + 1 < h {
                assert(step(w, n, p, q));
            }
        } else if q == p - w {
            if cy >= 1 {
                assert(step(w, n, q, p));
            }
        }
    }
}

} // verus!
