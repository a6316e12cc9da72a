//! Random perfect-maze generation over a rectangular grid, rendered as ASCII art.
//!
//! The pipeline runs strictly forward: a grid-graph builder emits one weighted
//! edge per adjacent cell pair, a greedy selector turns them into a spanning
//! tree with the help of a disjoint-set forest, a rasterizer expands the tree
//! into a fine-grained boolean wall/passage grid, and a renderer frames that
//! grid as printable text.

pub mod forest;
pub mod grid;
pub mod maze;
pub mod mst;
pub mod paths;
pub mod raster;
pub mod render;
