//! Minimum spanning tree selector (Kruskal's algorithm).
//!
//! Edges are processed greedily in priority order — highest stored weight
//! first, which under the builder's sign inversion means smallest true weight
//! first. An edge is kept exactly when the disjoint-set forest reports that it
//! joins two previously separate components, so the output is a spanning tree
//! of the connected grid graph.

use vstd::prelude::*;
use crate::forest::{forest_wf, root_of, num_roots, union, lemma_identity_forest, union_child,
    union_parent, lemma_root_props, lemma_single_class};
use crate::grid::{Edge, has_edge, right_covered_below, down_covered_below, lemma_grid_coords,
    lemma_cell_coords};
use crate::paths::{connects, adjacent_in, is_path, lemma_connects_refl, lemma_connects_edge,
    lemma_connects_trans, lemma_connects_sym, lemma_connects_push, lemma_connects_empty};

verus! {

/// Every tree edge keeps both endpoints inside the forest.
pub open spec fn tree_in_range(tree: Seq<Edge>, n: int) -> bool {
    forall|k: int| 0 <= k < tree.len() ==> (#[trigger] tree[k]).source < n && tree[k].target < n
}

/// The forest's equivalence classes coincide with connectivity via the tree
/// edges: two cells share a root exactly when some walk of tree edges joins
/// them.
pub open spec fn classes_match(f: Seq<usize>, tree: Seq<Edge>) -> bool {
    forall|x: int, y: int|
        0 <= x < f.len() && 0 <= y < f.len() ==> ((root_of(f, x) == root_of(f, y)) <==> #[trigger] connects(
            tree,
            x,
            y,
        ))
}

/// Walking tree edges never leaves an equivalence class.
proof fn lemma_path_roots(f: Seq<usize>, tree: Seq<Edge>, p: Seq<int>, x: int, y: int)
    requires
        forest_wf(f),
        tree_in_range(tree, f.len() as int),
        forall|k: int|
            0 <= k < tree.len() ==> root_of(f, (#[trigger] tree[k]).source as int) == root_of(
                f,
                tree[k].target as int,
            ),
        is_path(tree, p, x, y),
        0 <= x < f.len(),
    ensures
        0 <= y < f.len(),
        root_of(f, x) == root_of(f, y),
    decreases p.len(),
{
    if p.len() > 1 {
        assert(adjacent_in(tree, p[0], p[1]));
        let k = choose|k: int|
            0 <= k < tree.len() && ((tree[k].source == p[0] && tree[k].target == p[1]) || (
            tree[k].source == p[1] && tree[k].target == p[0]));
        assert(root_of(f, p[0]) == root_of(f, p[1]));
        let q = p.subrange(1, p.len() as int);
        assert forall|m: int| 0 <= m < q.len() - 1 implies adjacent_in(tree, #[trigger] q[m], q[m + 1]) by {
            assert(adjacent_in(tree, p[m + 1], p[m + 2]));
        }
        assert(is_path(tree, q, p[1], y));
        lemma_path_roots(f, tree, q, p[1], y);
    }
}

/// Connected cells share a root, provided every tree edge does.
proof fn lemma_connects_roots(f: Seq<usize>, tree: Seq<Edge>, x: int, y: int)
    requires
        forest_wf(f),
        tree_in_range(tree, f.len() as int),
        forall|k: int|
            0 <= k < tree.len() ==> root_of(f, (#[trigger] tree[k]).source as int) == root_of(
                f,
                tree[k].target as int,
            ),
        connects(tree, x, y),
        0 <= x < f.len(),
    ensures
        0 <= y < f.len(),
        root_of(f, x) == root_of(f, y),
{
    let p = choose|p: Seq<int>| is_path(tree, p, x, y);
    lemma_path_roots(f, tree, p, x, y);
}

/// After linking the two components of an accepted edge, the forest's classes
/// match connectivity via the extended tree.
proof fn lemma_classes_after_link(f0: Seq<usize>, f1: Seq<usize>, tree: Seq<Edge>, cand: Edge)
    requires
        forest_wf(f0),
        forest_wf(f1),
        f1.len() == f0.len(),
        tree_in_range(tree, f0.len() as int),
        cand.source < f0.len(),
        cand.target < f0.len(),
        classes_match(f0, tree),
        root_of(f0, cand.source as int) != root_of(f0, cand.target as int),
        forall|x: int|
            0 <= x < f0.len() ==> #[trigger] root_of(f1, x) == (if root_of(f0, x) == union_child(
                f0,
                cand.source as int,
                cand.target as int,
            ) {
                union_parent(f0, cand.source as int, cand.target as int)
            } else {
                root_of(f0, x)
            }),
    ensures
        classes_match(f1, tree.push(cand)),
{
    let n = f0.len() as int;
    let s = cand.source as int;
    let t = cand.target as int;
    let c = union_child(f0, s, t);
    let p = union_parent(f0, s, t);
    let tree1 = tree.push(cand);
    // every edge of the extended tree has root-equal endpoints in f1
    assert forall|k: int|
        0 <= k < tree1.len() implies root_of(f1, (#[trigger] tree1[k]).source as int) == root_of(
        f1,
        tree1[k].target as int,
    ) by {
        if k < tree.len() {
            assert(tree1[k] == tree[k]);
            lemma_connects_edge(tree, k);
            assert(connects(tree, tree[k].source as int, tree[k].target as int));
        } else {
            assert(tree1[k] == cand);
        }
    }
    assert forall|x: int, y: int| 0 <= x < n && 0 <= y < n implies ((root_of(f1, x) == root_of(
        f1,
        y,
    )) <==> #[trigger] connects(tree1, x, y)) by {
        if connects(tree1, x, y) {
            lemma_connects_roots(f1, tree1, x, y);
        }
        if root_of(f1, x) == root_of(f1, y) {
            if root_of(f0, x) == root_of(f0, y) {
                assert(connects(tree, x, y));
                lemma_connects_push(tree, cand, x, y);
            } else {
                // the only classes that f1 merges are those of c and p,
                // i.e. the classes of the edge's two endpoints
                assert((root_of(f0, x) == c && root_of(f0, y) == p) || (root_of(f0, x) == p
                    && root_of(f0, y) == c));
                let (xe, ye) = if root_of(f0, x) == root_of(f0, s) {
                    (s, t)
                } else {
                    (t, s)
                };
                assert(root_of(f0, x) == root_of(f0, xe));
                assert(root_of(f0, y) == root_of(f0, ye));
                assert(connects(tree, x, xe));
                assert(connects(tree, ye, y));
                lemma_connects_push(tree, cand, x, xe);
                lemma_connects_push(tree, cand, ye, y);
                lemma_connects_edge(tree1, tree1.len() - 1);
                if xe == s {
                    lemma_connects_trans(tree1, x, s, t);
                } else {
                    lemma_connects_sym(tree1, s, t);
                    lemma_connects_trans(tree1, x, t, s);
                }
                lemma_connects_trans(tree1, x, ye, y);
            }
        }
    }
}

/// Populates `tree` with a spanning tree of the given graph, selected
/// greedily in descending stored-weight order (ascending true weight under
/// the builder's sign inversion). The nodes vector doubles as the disjoint-set
/// forest, initially the singleton partition. On return:
/// - every tree edge is one of the input edges, and both endpoints of every
///   input edge are connected via the tree;
/// - the forest's classes match connectivity via the tree, and the number of
///   remaining sets plus the number of selected edges equals the cell count;
/// - each selected edge joined two cells not connected by the edges selected
///   before it (the tree is acyclic);
/// - selected edges appear in descending stored-weight order.
pub fn min_span_tree(nodes: &mut Vec<usize>, edges: &Vec<Edge>, tree: &mut Vec<Edge>)
    requires
        forall|m: int| 0 <= m < old(nodes)@.len() ==> old(nodes)@[m] as int == m,
        forall|k: int|
            0 <= k < edges@.len() ==> (#[trigger] edges@[k]).source < old(nodes)@.len()
                && edges@[k].target < old(nodes)@.len(),
        old(tree)@.len() == 0,
    ensures
        final(nodes)@.len() == old(nodes)@.len(),
        forest_wf(final(nodes)@),
        forall|k: int| 0 <= k < final(tree)@.len() ==> edges@.contains(#[trigger] final(tree)@[k]),
        tree_in_range(final(tree)@, old(nodes)@.len() as int),
        classes_match(final(nodes)@, final(tree)@),
        forall|k: int|
            0 <= k < edges@.len() ==> connects(
                final(tree)@,
                (#[trigger] edges@[k]).source as int,
                edges@[k].target as int,
            ),
        forall|k: int|
            0 <= k < final(tree)@.len() ==> !connects(
                final(tree)@.take(k),
                (#[trigger] final(tree)@[k]).source as int,
                final(tree)@[k].target as int,
            ),
        num_roots(final(nodes)@) + final(tree)@.len() == final(nodes)@.len(),
        forall|k1: int, k2: int|
            0 <= k1 < k2 < final(tree)@.len() ==> final(tree)@[k1].weight
                >= final(tree)@[k2].weight,
{
    let ghost n = nodes@.len() as int;
    proof {
        assert(nodes@.len() == nodes.len());
        lemma_identity_forest(nodes@);
    }
    let mut rem: Vec<Edge> = Vec::new();
    let mut t: usize = 0;
    while t < edges.len()
        invariant
            t <= edges@.len(),
            rem@ == edges@.take(t as int),
        decreases edges@.len() - t,
    {
        let e = edges[t];
        rem.push(e);
        proof {
            assert(rem@ =~= edges@.take(t + 1));
        }
        t = t + 1;
    }
    proof {
        assert(rem@ =~= edges@);
        assert forall|x: int, y: int| 0 <= x < n && 0 <= y < n implies ((root_of(nodes@, x)
            == root_of(nodes@, y)) <==> #[trigger] connects(tree@, x, y)) by {
            if connects(tree@, x, y) {
                lemma_connects_empty(tree@, x, y);
            }
            if x == y {
                lemma_connects_refl(tree@, x);
            }
        }
    }
    while rem.len() > 0
        invariant
            nodes@.len() == n,
            forest_wf(nodes@),
            forall|tt: int| 0 <= tt < rem@.len() ==> edges@.contains(#[trigger] rem@[tt]),
            forall|tt: int|
                0 <= tt < rem@.len() ==> (#[trigger] rem@[tt]).source < n && rem@[tt].target < n,
            forall|k: int| 0 <= k < tree@.len() ==> edges@.contains(#[trigger] tree@[k]),
            tree_in_range(tree@, n),
            classes_match(nodes@, tree@),
            forall|k: int|
                0 <= k < edges@.len() ==> connects(
                    tree@,
                    (#[trigger] edges@[k]).source as int,
                    edges@[k].target as int,
                ) || exists|tt: int| 0 <= tt < rem@.len() && rem@[tt] == edges@[k],
            forall|k: int|
                0 <= k < tree@.len() ==> !connects(
                    tree@.take(k),
                    (#[trigger] tree@[k]).source as int,
                    tree@[k].target as int,
                ),
            num_roots(nodes@) + tree@.len() == n,
            forall|k1: int, k2: int|
                0 <= k1 < k2 < tree@.len() ==> tree@[k1].weight >= tree@[k2].weight,
            tree@.len() > 0 ==> forall|tt: int|
                0 <= tt < rem@.len() ==> (#[trigger] rem@[tt]).weight <= tree@[tree@.len()
                    - 1].weight,
        decreases rem@.len(),
    {
        // pop the highest-weight remaining edge, as a max-priority structure would
        let mut best: usize = 0;
        let mut s: usize = 1;
        while s < rem.len()
            invariant
                rem@.len() > 0,
                best < s,
                s <= rem@.len(),
                forall|m: int| 0 <= m < s ==> rem@[m].weight <= rem@[best as int].weight,
            decreases rem@.len() - s,
        {
            if rem[s].weight > rem[best].weight {
                best = s;
            }
            s = s + 1;
        }
        let ghost rem0 = rem@;
        let ghost f0 = nodes@;
        let ghost t0 = tree@;
        let cand = rem.remove(best);
        proof {
            assert(edges@.contains(cand));
            assert forall|tt: int| 0 <= tt < rem@.len() implies edges@.contains(#[trigger] rem@[tt])
                && rem@[tt].source < n && rem@[tt].target < n && rem@[tt].weight <= cand.weight by {
                if tt < best {
                    assert(rem@[tt] == rem0[tt]);
                } else {
                    assert(rem@[tt] == rem0[tt + 1]);
                }
            }
        }
        let ok = union(nodes, cand.source, cand.target);
        if ok {
            proof {
                lemma_classes_after_link(f0, nodes@, t0, cand);
            }
            tree.push(cand);
            proof {
                let t1 = tree@;
                assert(t1 == t0.push(cand));
                assert(t1[t1.len() - 1] == cand);
                // acyclicity: the new edge was not connected by the old tree
                assert(t1.take(t1.len() - 1) =~= t0);
                assert(!connects(t0, cand.source as int, cand.target as int));
                assert forall|k: int| 0 <= k < t1.len() - 1 implies !connects(
                    t1.take(k),
                    (#[trigger] t1[k]).source as int,
                    t1[k].target as int,
                ) by {
                    assert(t1[k] == t0[k]);
                    assert(t1.take(k) =~= t0.take(k));
                }
                // every input edge stays accounted for
                assert forall|k: int| 0 <= k < edges@.len() implies connects(
                    t1,
                    (#[trigger] edges@[k]).source as int,
                    edges@[k].target as int,
                ) || exists|tt: int| 0 <= tt < rem@.len() && rem@[tt] == edges@[k] by {
                    if connects(t0, edges@[k].source as int, edges@[k].target as int) {
                        lemma_connects_push(t0, cand, edges@[k].source as int, edges@[k].target as int);
                    } else if exists|tt: int| 0 <= tt < rem0.len() && rem0[tt] == edges@[k] {
                        let tt = choose|tt: int| 0 <= tt < rem0.len() && rem0[tt] == edges@[k];
                        if tt == best {
                            lemma_connects_edge(t1, t1.len() - 1);
                        } else if tt < best {
                            assert(rem@[tt] == edges@[k]);
                        } else {
                            assert(rem@[tt - 1] == edges@[k]);
                        }
                    }
                }
            }
        } else {
            proof {
                // already connected: the candidate's endpoints share a root
                assert(connects(t0, cand.source as int, cand.target as int));
                assert forall|k: int| 0 <= k < edges@.len() implies connects(
                    tree@,
                    (#[trigger] edges@[k]).source as int,
                    edges@[k].target as int,
                ) || exists|tt: int| 0 <= tt < rem@.len() && rem@[tt] == edges@[k] by {
                    if !connects(tree@, edges@[k].source as int, edges@[k].target as int) {
                        if exists|tt: int| 0 <= tt < rem0.len() && rem0[tt] == edges@[k] {
                            let tt = choose|tt: int| 0 <= tt < rem0.len() && rem0[tt] == edges@[k];
                            if tt < best {
                                assert(rem@[tt] == edges@[k]);
                            } else if tt > best {
                                assert(rem@[tt - 1] == edges@[k]);
                            }
                        }
                    }
                }
            }
        }
    }
}

proof fn lemma_all_linked(
    f: Seq<usize>,
    edges: Seq<Edge>,
    tree: Seq<Edge>,
    width: int,
    height: int,
    c: int,
)
    requires
        width >= 1,
        height >= 1,
        f.len() == width * height,
        forest_wf(f),
        classes_match(f, tree),
        forall|k: int|
            0 <= k < edges.len() ==> connects(
                tree,
                (#[trigger] edges[k]).source as int,
                edges[k].target as int,
            ),
        right_covered_below(edges, width, width * height),
        down_covered_below(edges, width, height, width * height),
        0 <= c < width * height,
    ensures
        root_of(f, c) == root_of(f, 0),
    decreases c,
{
    if c > 0 {
        lemma_grid_coords(c, width, height);
        let x = c % width;
        let y = c / width;
        if x > 0 {
            lemma_cell_coords(x - 1, y, width);
            assert((c - 1) % width == x - 1);
            assert(has_edge(edges, c - 1, (c - 1) + 1));
            let k = choose|k: int|
                0 <= k < edges.len() && edges[k].source == c - 1 && edges[k].target == c;
            assert(connects(tree, c - 1, c));
            assert(root_of(f, c - 1) == root_of(f, c));
            lemma_all_linked(f, edges, tree, width, height, c - 1);
        } else {
            assert(y >= 1) by (nonlinear_arith)
                requires
                    c == y * width + x,
                    x == 0,
                    c > 0,
                    width >= 1,
                    y >= 0,
            ;
            lemma_cell_coords(0, y - 1, width);
            assert(c - width == 0 + (y - 1) * width) by (nonlinear_arith)
                requires
                    c == y * width + x,
                    x == 0,
            ;
            assert((c - width) / width == y - 1);
            assert(has_edge(edges, c - width, (c - width) + width));
            let k = choose|k: int|
                0 <= k < edges.len() && edges[k].source == c - width && edges[k].target == c;
            assert(connects(tree, c - width, c));
            assert(root_of(f, c - width) == root_of(f, c));
            lemma_all_linked(f, edges, tree, width, height, c - width);
        }
    }
}

/// Law: over the full grid graph the selected tree is a spanning tree — it
/// holds exactly `width*height - 1` edges and connects every pair of cells.
/// Its premises are exactly what `min_span_tree` ensures when handed the
/// builder's nodes and edges.
pub proof fn lemma_spanning_tree(
    f: Seq<usize>,
    edges: Seq<Edge>,
    tree: Seq<Edge>,
    width: int,
    height: int,
)
    requires
        width >= 1,
        height >= 1,
        f.len() == width * height,
        forest_wf(f),
        classes_match(f, tree),
        num_roots(f) + tree.len() == f.len(),
        forall|k: int|
            0 <= k < edges.len() ==> connects(
                tree,
                (#[trigger] edges[k]).source as int,
                edges[k].target as int,
            ),
        right_covered_below(edges, width, width * height),
        down_covered_below(edges, width, height, width * height),
    ensures
        tree.len() == width * height - 1,
        forall|x: int, y: int|
            0 <= x < width * height && 0 <= y < width * height ==> #[trigger] connects(tree, x, y),
{
    assert forall|c: int| 0 <= c < f.len() implies #[trigger] root_of(f, c) == root_of(f, 0) by {
        lemma_all_linked(f, edges, tree, width, height, c);
    }
    assert(width * height >= 1) by (nonlinear_arith)
        requires
            width >= 1,
            height >= 1,
    ;
    lemma_root_props(f, 0);
    lemma_single_class(f, root_of(f, 0));
    assert forall|x: int, y: int|
        0 <= x < width * height && 0 <= y < width * height implies #[trigger] connects(
        tree,
        x,
        y,
    ) by {
        assert(root_of(f, x) == root_of(f, y));
    }
}

} // verus!
