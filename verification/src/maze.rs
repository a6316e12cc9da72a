//! The full maze pipeline: build the grid graph, select a spanning tree,
//! rasterize it, and render the result — everything the program computes
//! between reading its two dimensions and printing the maze.

use vstd::prelude::*;
use crate::grid::{Edge, valid_edge, make_graph, lemma_valid_edge_bounds};
use crate::mst::{min_span_tree, lemma_spanning_tree};
use crate::paths::connects;
use crate::raster::{assemble_maze, open_at};
use crate::render::{render_maze, rendered, line_count, line_len};

verus! {

/// The corridor/wall scale factor: each logical cell becomes a `SCALE` by
/// `SCALE` block of rasterized cells.
pub const SCALE: usize = 3;

/// `matrix` is the rasterization of a spanning tree of the `width` by
/// `height` grid.
pub open spec fn is_maze_raster(matrix: Seq<bool>, tree: Seq<Edge>, width: int, height: int) -> bool {
    &&& tree.len() == width * height - 1
    &&& (forall|k: int| 0 <= k < tree.len() ==> valid_edge(#[trigger] tree[k], width, height))
    &&& (forall|x: int, y: int|
        0 <= x < width * height && 0 <= y < width * height ==> #[trigger] connects(tree, x, y))
    &&& matrix.len() == SCALE * SCALE * width * height
    &&& (forall|idx: int|
        0 <= idx < matrix.len() ==> ((#[trigger] matrix[idx]) <==> open_at(
            tree,
            width,
            SCALE as int,
            idx,
        )))
}

/// Generates one random perfect maze and renders it: the output is the
/// rendering of the rasterization of some spanning tree of the grid.
pub fn make_maze(width: usize, height: usize) -> (out: Vec<u8>)
    requires
        width >= 1,
        height >= 1,
        SCALE * SCALE * width * height <= usize::MAX,
    ensures
        exists|matrix: Seq<bool>, tree: Seq<Edge>|
            #[trigger] is_maze_raster(matrix, tree, width as int, height as int) && out@
                == rendered(matrix, width as int, height as int, SCALE as int),
        out@.len() == line_count(height as int, SCALE as int) * line_len(
            width as int,
            SCALE as int,
        ),
{
    proof {
        assert(width * height <= SCALE * SCALE * width * height && width * height >= 1)
            by (nonlinear_arith)
            requires
                width >= 1,
                height >= 1,
        ;
    }
    let mut nodes: Vec<usize> = Vec::new();
    let mut edges: Vec<Edge> = Vec::new();
    let mut tree: Vec<Edge> = Vec::new();
    make_graph(width, height, &mut nodes, &mut edges);
    proof {
        assert forall|k: int| 0 <= k < edges@.len() implies (#[trigger] edges@[k]).source
            < nodes@.len() && edges@[k].target < nodes@.len() by {
            lemma_valid_edge_bounds(edges@[k], width as int, height as int);
        }
    }
    min_span_tree(&mut nodes, &edges, &mut tree);
    proof {
        lemma_spanning_tree(nodes@, edges@, tree@, width as int, height as int);
        assert forall|k: int| 0 <= k < tree@.len() implies valid_edge(
            #[trigger] tree@[k],
            width as int,
            height as int,
        ) by {
            assert(edges@.contains(tree@[k]));
            let m = choose|m: int| 0 <= m < edges@.len() && edges@[m] == tree@[k];
            assert(valid_edge(edges@[m], width as int, height as int));
        }
    }
    let mut maze: Vec<bool> = Vec::new();
    assemble_maze(&mut maze, &tree, width, height, SCALE);
    let out = render_maze(&maze, width, height, SCALE);
    proof {
        assert(is_maze_raster(maze@, tree@, width as int, height as int));
        assert(out@ == rendered(maze@, width as int, height as int, SCALE as int));
        crate::render::lemma_render_shape(maze@, width as int, height as int, SCALE as int);
    }
    out
}

} // verus!
