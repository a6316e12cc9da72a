//! Undirected connectivity over a sequence of edges.
//!
//! A spanning tree is characterised through walks: two cells are connected
//! when some walk joins them whose consecutive cells are endpoints of a tree
//! edge. These specs and lemmas let the selector state that the forest's
//! equivalence classes coincide with connectivity via the selected edges.

use vstd::prelude::*;
use crate::grid::Edge;

verus! {

/// Two cells are joined directly by some edge of the sequence, in either
/// direction.
pub open spec fn adjacent_in(edges: Seq<Edge>, a: int, b: int) -> bool {
    exists|k: int|
        0 <= k < edges.len() && ((edges[k].source == a && edges[k].target == b) || (
        edges[k].source == b && edges[k].target == a))
}

/// `p` is a walk from `x` to `y` whose consecutive cells are adjacent via
/// `edges`.
pub open spec fn is_path(edges: Seq<Edge>, p: Seq<int>, x: int, y: int) -> bool {
    &&& p.len() >= 1
    &&& p[0] == x
    &&& p[p.len() - 1] == y
    &&& forall|m: int| 0 <= m < p.len() - 1 ==> adjacent_in(edges, #[trigger] p[m], p[m + 1])
}

/// The undirected graph of `edges` connects `x` to `y`.
pub open spec fn connects(edges: Seq<Edge>, x: int, y: int) -> bool {
    exists|p: Seq<int>| is_path(edges, p, x, y)
}

/// Connectivity is reflexive.
pub proof fn lemma_connects_refl(edges: Seq<Edge>, x: int)
    ensures
        connects(edges, x, x),
{
    let p = seq![x];
    assert(is_path(edges, p, x, x));
}

/// Each edge connects its own endpoints.
pub proof fn lemma_connects_edge(edges: Seq<Edge>, k: int)
    requires
        0 <= k < edges.len(),
    ensures
        connects(edges, edges[k].source as int, edges[k].target as int),
{
    let a = edges[k].source as int;
    let b = edges[k].target as int;
    let p = seq![a, b];
    assert(adjacent_in(edges, a, b));
    assert(is_path(edges, p, a, b));
}

proof fn lemma_adjacent_sym(edges: Seq<Edge>, a: int, b: int)
    requires
        adjacent_in(edges, a, b),
    ensures
        adjacent_in(edges, b, a),
{
    let k = choose|k: int|
        0 <= k < edges.len() && ((edges[k].source == a && edges[k].target == b) || (
        edges[k].source == b && edges[k].target == a));
    assert(0 <= k < edges.len() && ((edges[k].source == b && edges[k].target == a) || (
    edges[k].source == a && edges[k].target == b)));
}

/// Connectivity is symmetric: walks reverse.
pub proof fn lemma_connects_sym(edges: Seq<Edge>, x: int, y: int)
    requires
        connects(edges, x, y),
    ensures
        connects(edges, y, x),
{
    let p = choose|p: Seq<int>| is_path(edges, p, x, y);
    let n = p.len() as int;
    let q = Seq::new(p.len(), |m: int| p[n - 1 - m]);
    assert forall|m: int| 0 <= m < q.len() - 1 implies adjacent_in(edges, #[trigger] q[m], q[m + 1]) by {
        assert(adjacent_in(edges, p[n - 2 - m], p[n - 1 - m]));
        lemma_adjacent_sym(edges, p[n - 2 - m], p[n - 1 - m]);
    }
    assert(is_path(edges, q, y, x));
}

/// Connectivity is transitive: walks concatenate.
pub proof fn lemma_connects_trans(edges: Seq<Edge>, x: int, y: int, z: int)
    requires
        connects(edges, x, y),
        connects(edges, y, z),
    ensures
        connects(edges, x, z),
{
    let p = choose|p: Seq<int>| is_path(edges, p, x, y);
    let q = choose|q: Seq<int>| is_path(edges, q, y, z);
    let r = p + q.subrange(1, q.len() as int);
    assert forall|m: int| 0 <= m < r.len() - 1 implies adjacent_in(edges, #[trigger] r[m], r[m + 1]) by {
        if m < p.len() - 1 {
            assert(adjacent_in(edges, p[m], p[m + 1]));
        } else if m == p.len() - 1 {
            assert(r[m] == p[p.len() - 1]);
            assert(r[m + 1] == q[1]);
            assert(adjacent_in(edges, q[0], q[1]));
        } else {
            let mm = m - p.len() + 1;
            assert(r[m] == q[mm]);
            assert(r[m + 1] == q[mm + 1]);
            assert(adjacent_in(edges, q[mm], q[mm + 1]));
        }
    }
    assert(r[r.len() - 1] == z);
    assert(is_path(edges, r, x, z));
}

/// Appending an edge preserves every connection.
pub proof fn lemma_connects_push(edges: Seq<Edge>, e: Edge, x: int, y: int)
    requires
        connects(edges, x, y),
    ensures
        connects(edges.push(e), x, y),
{
    let p = choose|p: Seq<int>| is_path(edges, p, x, y);
    assert forall|m: int| 0 <= m < p.len() - 1 implies adjacent_in(
        edges.push(e),
        #[trigger] p[m],
        p[m + 1],
    ) by {
        assert(adjacent_in(edges, p[m], p[m + 1]));
        let k = choose|k: int|
            0 <= k < edges.len() && ((edges[k].source == p[m] && edges[k].target == p[m + 1]) || (
            edges[k].source == p[m + 1] && edges[k].target == p[m]));
        assert(edges.push(e)[k] == edges[k]);
    }
    assert(is_path(edges.push(e), p, x, y));
}

/// With no edges, only a cell and itself are connected.
pub proof fn lemma_connects_empty(edges: Seq<Edge>, x: int, y: int)
    requires
        edges.len() == 0,
        connects(edges, x, y),
    ensures
        x == y,
{
    let p = choose|p: Seq<int>| is_path(edges, p, x, y);
    if p.len() >= 2 {
        assert(adjacent_in(edges, p[0], p[1]));
        assert(false);
    }
}

/// A cell connected to a different cell has an incident edge.
pub proof fn lemma_connects_touches(edges: Seq<Edge>, x: int, y: int)
    requires
        connects(edges, x, y),
        x != y,
    ensures
        exists|k: int|
            0 <= k < edges.len() && ((#[trigger] edges[k]).source == x || edges[k].target == x),
{
    let p = choose|p: Seq<int>| is_path(edges, p, x, y);
    assert(p.len() >= 2);
    assert(adjacent_in(edges, p[0], p[1]));
    let k = choose|k: int|
        0 <= k < edges.len() && ((edges[k].source == p[0] && edges[k].target == p[1]) || (
        edges[k].source == p[1] && edges[k].target == p[0]));
    assert(edges[k].source == x || edges[k].target == x);
}

} // verus!
