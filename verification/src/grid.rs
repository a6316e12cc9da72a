//! Grid graph builder.
//!
//! One node per cell of a `width` by `height` grid; node indices encode
//! coordinates as `y * width + x`. For every pair of grid-adjacent cells the
//! builder emits exactly one edge — rightward (`target == source + 1`) or
//! downward (`target == source + width`) — with an independently drawn random
//! weight, negated when non-negative so that all weights are non-positive.

use vstd::prelude::*;
use vstd::arithmetic::div_mod::lemma_fundamental_div_mod_converse;

verus! {

/// A potential wall-removal between two grid-adjacent cells.
#[derive(Copy, Clone, PartialEq, Eq, Structural, Debug)]
pub struct Edge {
    pub weight: i32,
    pub source: usize,
    pub target: usize,
}

/// A rightward edge: joins a cell that is not in the last column to its
/// right neighbour.
pub open spec fn is_rightward(e: Edge, width: int, height: int) -> bool {
    &&& e.target == e.source + 1
    &&& (e.source as int) % width < width - 1
    &&& e.source < width * height
}

/// A downward edge: joins a cell that is not in the last row to the cell
/// below it.
pub open spec fn is_downward(e: Edge, width: int, height: int) -> bool {
    &&& e.target == e.source + width
    &&& (e.source as int) / width < height - 1
    &&& e.source < width * height
}

/// Every generated edge is rightward or downward; both endpoints lie in the
/// grid.
pub open spec fn valid_edge(e: Edge, width: int, height: int) -> bool {
    ||| is_rightward(e, width, height)
    ||| is_downward(e, width, height)
}

/// Some edge of the sequence runs from `s` to `t`.
pub open spec fn has_edge(edges: Seq<Edge>, s: int, t: int) -> bool {
    exists|k: int| 0 <= k < edges.len() && edges[k].source == s && edges[k].target == t
}

/// Every cell strictly below `lim` that is not in the last column has its
/// rightward edge present.
pub open spec fn right_covered_below(edges: Seq<Edge>, width: int, lim: int) -> bool {
    forall|c: int| 0 <= c < lim && c % width < width - 1 ==> #[trigger] has_edge(edges, c, c + 1)
}

/// Every cell strictly below `lim` that is not in the last row has its
/// downward edge present.
pub open spec fn down_covered_below(edges: Seq<Edge>, width: int, height: int, lim: int) -> bool {
    forall|c: int| 0 <= c < lim && c / width < height - 1 ==> #[trigger] has_edge(edges, c, c + width)
}

/// The cell `i + j*width` has coordinates exactly `(i, j)`.
pub proof fn lemma_cell_coords(i: int, j: int, width: int)
    requires
        width >= 1,
        0 <= i < width,
        0 <= j,
    ensures
        (i + j * width) % width == i,
        (i + j * width) / width == j,
{
    lemma_fundamental_div_mod_converse(i + j * width, width, j, i);
}

/// A cell with coordinates inside the grid has an index inside the grid.
pub proof fn lemma_cell_in_grid(i: int, j: int, width: int, height: int)
    requires
        width >= 1,
        height >= 1,
        0 <= i < width,
        0 <= j < height,
    ensures
        0 <= i + j * width < width * height,
{
    assert(i + j * width < width * height) by (nonlinear_arith)
        requires
            0 <= i < width,
            0 <= j < height,
    ;
}

/// The coordinates of an in-grid cell index are in range and reassemble it.
pub proof fn lemma_grid_coords(c: int, width: int, height: int)
    requires
        width >= 1,
        height >= 1,
        0 <= c < width * height,
    ensures
        0 <= c % width < width,
        0 <= c / width < height,
        c == (c / width) * width + (c % width),
{
    vstd::arithmetic::div_mod::lemma_fundamental_div_mod(c, width);
    assert(0 <= c % width < width && 0 <= c / width) by (nonlinear_arith)
        requires
            width >= 1,
            c >= 0,
    ;
    assert(c / width < height) by (nonlinear_arith)
        requires
            width >= 1,
            height >= 1,
            c < width * height,
            c == width * (c / width) + (c % width),
            0 <= c % width < width,
            0 <= c / width,
    ;
}

/// A valid edge runs from a lower to a strictly higher in-grid index.
pub proof fn lemma_valid_edge_bounds(e: Edge, width: int, height: int)
    requires
        width >= 1,
        height >= 1,
        valid_edge(e, width, height),
    ensures
        e.source < e.target < width * height,
{
    let s = e.source as int;
    let x = s % width;
    let y = s / width;
    vstd::arithmetic::div_mod::lemma_fundamental_div_mod(s, width);
    assert(0 <= x < width && 0 <= y) by (nonlinear_arith)
        requires
            width >= 1,
            s >= 0,
            x == s % width,
            y == s / width,
    ;
    assert(y < height) by (nonlinear_arith)
        requires
            s < width * height,
            s == y * width + x,
            0 <= x < width,
            0 <= y,
            width >= 1,
            height >= 1,
    ;
    if is_rightward(e, width, height) {
        lemma_cell_in_grid(x + 1, y, width, height);
        assert(e.target == (x + 1) + y * width);
        assert(e.target < width * height);
    } else {
        lemma_cell_in_grid(x, y + 1, width, height);
        assert(e.target == x + (y + 1) * width) by (nonlinear_arith)
            requires
                e.target == e.source + width,
                e.source == s,
                s == y * width + x,
        ;
        assert(e.target < width * height);
    }
}

proof fn lemma_has_edge_push(edges: Seq<Edge>, e: Edge, s: int, t: int)
    requires
        has_edge(edges, s, t),
    ensures
        has_edge(edges.push(e), s, t),
{
    let k = choose|k: int| 0 <= k < edges.len() && edges[k].source == s && edges[k].target == t;
    assert(0 <= k < edges.push(e).len() && edges.push(e)[k].source == s && edges.push(e)[k].target
        == t);
}

/// Appending an edge preserves both coverage invariants.
proof fn lemma_covered_push(edges: Seq<Edge>, e: Edge, width: int, height: int, rlim: int, dlim: int)
    requires
        right_covered_below(edges, width, rlim),
        down_covered_below(edges, width, height, dlim),
    ensures
        right_covered_below(edges.push(e), width, rlim),
        down_covered_below(edges.push(e), width, height, dlim),
{
    assert forall|c: int| 0 <= c < rlim && c % width < width - 1 implies #[trigger] has_edge(
        edges.push(e),
        c,
        c + 1,
    ) by {
        lemma_has_edge_push(edges, e, c, c + 1);
    }
    assert forall|c: int| 0 <= c < dlim && c / width < height - 1 implies #[trigger] has_edge(
        edges.push(e),
        c,
        c + width,
    ) by {
        lemma_has_edge_push(edges, e, c, c + width);
    }
}

/// Relies on rand::random: an independently drawn pseudo-random value of the
/// requested type; nothing is promised of the result.
pub assume_specification<T>[ rand::random::<T> ]() -> (r: T)
    where rand::distributions::Standard: rand::distributions::Distribution<T>,
;

/// Draws one edge weight: a random signed value, negated when non-negative,
/// so that all weights are non-positive.
fn random_weight() -> (w: i32)
    ensures
        w <= 0,
{
    let x: i32 = rand::random();
    if x < 0 {
        x
    } else {
        -x
    }
}

/// Populates `nodes` with every cell index in order — the initial singleton
/// forest — and `edges` with one independently weighted edge per adjacent
/// cell pair: a rightward and a downward edge for every cell that has the
/// corresponding neighbour, and nothing else.
pub fn make_graph(width: usize, height: usize, nodes: &mut Vec<usize>, edges: &mut Vec<Edge>)
    requires
        width >= 1,
        height >= 1,
        width * height <= usize::MAX,
        old(nodes)@.len() == 0,
        old(edges)@.len() == 0,
    ensures
        final(nodes)@.len() == width * height,
        forall|m: int| 0 <= m < width * height ==> final(nodes)@[m] as int == m,
        final(edges)@.len() == 2 * (width * height) - width - height,
        forall|k: int|
            0 <= k < final(edges)@.len() ==> valid_edge(
                #[trigger] final(edges)@[k],
                width as int,
                height as int,
            ) && final(edges)@[k].weight <= 0,
        right_covered_below(final(edges)@, width as int, (width * height) as int),
        down_covered_below(final(edges)@, width as int, height as int, (width * height) as int),
{
    let n = width * height;
    let mut idx: usize = 0;
    while idx < n
        invariant
            idx <= n,
            n == width * height,
            nodes@.len() == idx,
            forall|m: int| 0 <= m < idx ==> nodes@[m] as int == m,
        decreases n - idx,
    {
        nodes.push(idx);
        idx = idx + 1;
    }

    let mut j: usize = 0;
    while j < height - 1
        invariant
            width >= 1,
            height >= 1,
            width * height <= usize::MAX,
            j <= height - 1,
            edges@.len() == j * (2 * width - 1),
            forall|k: int|
                0 <= k < edges@.len() ==> valid_edge(#[trigger] edges@[k], width as int, height as int)
                    && edges@[k].weight <= 0,
            right_covered_below(edges@, width as int, (j * width) as int),
            down_covered_below(edges@, width as int, height as int, (j * width) as int),
        decreases height - 1 - j,
    {
        proof {
            assert(j * (2 * width - 1) <= (height - 1) * (2 * width - 1) && (height - 1) * (2 * width
                - 1) + 2 * width <= 2 * (width * height)) by (nonlinear_arith)
                requires
                    width >= 1,
                    height >= 1,
                    0 <= j <= height - 1,
            ;
            assert(j * width + 2 * width <= width * height) by (nonlinear_arith)
                requires
                    width >= 1,
                    height >= 1,
                    0 <= j < height - 1,
            ;
        }
        let mut i: usize = 0;
        while i < width - 1
            invariant
                width >= 1,
                height >= 1,
                width * height <= usize::MAX,
                j < height - 1,
                i <= width - 1,
                j * width + 2 * width <= width * height,
                edges@.len() == j * (2 * width - 1) + 2 * i,
                j * (2 * width - 1) + 2 * width <= 2 * (width * height),
                forall|k: int|
                    0 <= k < edges@.len() ==> valid_edge(
                        #[trigger] edges@[k],
                        width as int,
                        height as int,
                    ) && edges@[k].weight <= 0,
                right_covered_below(edges@, width as int, j * width + i),
                down_covered_below(edges@, width as int, height as int, j * width + i),
            decreases width - 1 - i,
        {
            let w1 = random_weight();
            let w2 = random_weight();
            let src = i + j * width;
            proof {
                lemma_cell_coords(i as int, j as int, width as int);
                lemma_cell_in_grid(i as int, j as int, width as int, height as int);
            }
            let e1 = Edge { weight: w1, source: src, target: src + 1 };
            let e2 = Edge { weight: w2, source: src, target: src + width };
            proof {
                lemma_covered_push(edges@, e1, width as int, height as int, j * width + i, j * width + i);
                lemma_covered_push(
                    edges@.push(e1),
                    e2,
                    width as int,
                    height as int,
                    j * width + i,
                    j * width + i,
                );
            }
            edges.push(e1);
            edges.push(e2);
            proof {
                let le = edges@.len();
                assert(edges@[le - 2] == e1 && edges@[le - 1] == e2);
                assert(has_edge(edges@, src as int, src + 1));
                assert(has_edge(edges@, src as int, src + width));
            }
            i = i + 1;
        }
        let w = random_weight();
        let src = i + j * width;
        proof {
            lemma_cell_coords(i as int, j as int, width as int);
            lemma_cell_in_grid(i as int, j as int, width as int, height as int);
            assert((src as int) % (width as int) == width - 1);
        }
        let e3 = Edge { weight: w, source: src, target: src + width };
        proof {
            lemma_covered_push(edges@, e3, width as int, height as int, j * width + i, j * width + i);
        }
        edges.push(e3);
        proof {
            assert(edges@[edges@.len() - 1] == e3);
            assert(has_edge(edges@, src as int, src + width));
            // the last cell of the row owes no rightward edge, so coverage
            // extends past it
            assert(right_covered_below(edges@, width as int, j * width + width));
            assert(down_covered_below(edges@, width as int, height as int, j * width + width));
            assert((j + 1) * (2 * width - 1) == j * (2 * width - 1) + 2 * width - 1)
                by (nonlinear_arith)
            ;
            assert((j + 1) * width == j * width + width) by (nonlinear_arith);
        }
        j = j + 1;
    }

    proof {
        assert(j == height - 1);
        assert(j * width + width == width * height) by (nonlinear_arith)
            requires
                j == height - 1,
        ;
    }
    let mut i: usize = 0;
    while i < width - 1
        invariant
            width >= 1,
            height >= 1,
            width * height <= usize::MAX,
            j == height - 1,
            i <= width - 1,
            j * width + width == width * height,
            edges@.len() == j * (2 * width - 1) + i,
            forall|k: int|
                0 <= k < edges@.len() ==> valid_edge(#[trigger] edges@[k], width as int, height as int)
                    && edges@[k].weight <= 0,
            right_covered_below(edges@, width as int, j * width + i),
            down_covered_below(edges@, width as int, height as int, j * width + i),
        decreases width - 1 - i,
    {
        proof {
            assert(j * (2 * width - 1) + width <= 2 * (width * height)) by (nonlinear_arith)
                requires
                    width >= 1,
                    height >= 1,
                    j == height - 1,
            ;
        }
        let w1 = random_weight();
        let src = i + j * width;
        proof {
            lemma_cell_coords(i as int, j as int, width as int);
            lemma_cell_in_grid(i as int, j as int, width as int, height as int);
        }
        let e1 = Edge { weight: w1, source: src, target: src + 1 };
        proof {
            lemma_covered_push(edges@, e1, width as int, height as int, j * width + i, j * width + i);
        }
        edges.push(e1);
        proof {
            assert(edges@[edges@.len() - 1] == e1);
            assert(has_edge(edges@, src as int, src + 1));
            // a cell in the last row owes no downward edge
            lemma_cell_coords(i as int, j as int, width as int);
            assert(down_covered_below(edges@, width as int, height as int, j * width + i + 1));
        }
        i = i + 1;
    }
    proof {
        // the bottom-right cell owes neither edge, and the edge count sums up
        lemma_cell_coords(width as int - 1, height as int - 1, width as int);
        assert(right_covered_below(edges@, width as int, (width * height) as int));
        assert(down_covered_below(edges@, width as int, height as int, (width * height) as int));
        assert((height - 1) * (2 * width - 1) + (width - 1) == 2 * (width * height) - width - height)
            by (nonlinear_arith)
            requires
                width >= 1,
                height >= 1,
        ;
    }
}

} // verus!
