//! Maze rasterizer.
//!
//! The spanning tree is expanded into a dense boolean grid of size
//! `(sp*width) * (sp*height)`: `true` is passage, `false` is wall, flat index
//! `i + sp*width*j` for rasterized coordinate `(i, j)`. For each tree edge the
//! rasterizer locates the top-left corner of the source cell's block and
//! opens a run of `sp+1` cells towards the target — horizontal when
//! `target - source == 1`, else vertical. Nothing else is opened.

use vstd::prelude::*;
use crate::grid::{Edge, valid_edge, is_rightward, is_downward, lemma_grid_coords,
    lemma_cell_coords, lemma_valid_edge_bounds};
use crate::paths::{connects, lemma_connects_touches};

verus! {

/// Flat index of the top-left rasterized corner of cell `c`'s block.
pub open spec fn cell_corner(c: int, width: int, sp: int) -> int {
    sp * (c % width) + sp * sp * width * (c / width)
}

/// Offset of the `m`-th step of a vertical run: one canvas row per step.
pub open spec fn vstep(width: int, sp: int, m: int) -> int {
    sp * width * m
}

/// The rasterized cells that edge `e` opens: from the corner of its source
/// cell, a horizontal run of `sp+1` cells when `target - source == 1` (the
/// rasterizer's rightward test), else a vertical run stepping one canvas row
/// at a time.
pub open spec fn edge_opens(e: Edge, width: int, sp: int, idx: int) -> bool {
    if e.target == e.source + 1 {
        cell_corner(e.source as int, width, sp) <= idx <= cell_corner(e.source as int, width, sp)
            + sp
    } else {
        exists|m: int|
            0 <= m <= sp && idx == cell_corner(e.source as int, width, sp) + #[trigger] vstep(
                width,
                sp,
                m,
            )
    }
}

/// A rasterized cell is open exactly when some tree edge opens it.
pub open spec fn open_at(tree: Seq<Edge>, width: int, sp: int, idx: int) -> bool {
    exists|k: int| 0 <= k < tree.len() && edge_opens(tree[k], width, sp, idx)
}

proof fn lemma_open_at_push(tree: Seq<Edge>, e: Edge, width: int, sp: int, idx: int)
    ensures
        open_at(tree.push(e), width, sp, idx) <==> (open_at(tree, width, sp, idx) || edge_opens(
            e,
            width,
            sp,
            idx,
        )),
{
    if open_at(tree.push(e), width, sp, idx) {
        let k = choose|k: int| 0 <= k < tree.push(e).len() && edge_opens(tree.push(e)[k], width, sp, idx);
        if k < tree.len() {
            assert(tree.push(e)[k] == tree[k]);
            assert(open_at(tree, width, sp, idx));
        } else {
            assert(tree.push(e)[k] == e);
        }
    }
    if open_at(tree, width, sp, idx) {
        let k = choose|k: int| 0 <= k < tree.len() && edge_opens(tree[k], width, sp, idx);
        assert(tree.push(e)[k] == tree[k]);
        assert(open_at(tree.push(e), width, sp, idx));
    }
    if edge_opens(e, width, sp, idx) {
        let k = tree.len() as int;
        assert(tree.push(e)[k] == e);
        assert(open_at(tree.push(e), width, sp, idx));
    }
}

/// Every cell a valid edge opens lies inside the canvas.
proof fn lemma_mark_bounds(e: Edge, width: int, height: int, sp: int)
    requires
        width >= 1,
        height >= 1,
        sp >= 1,
        valid_edge(e, width, height),
    ensures
        0 <= cell_corner(e.source as int, width, sp),
        e.target == e.source + 1 ==> cell_corner(e.source as int, width, sp) + sp < sp * sp * width
            * height,
        e.target != e.source + 1 ==> cell_corner(e.source as int, width, sp) + sp * width * sp < sp
            * sp * width * height,
{
    let s = e.source as int;
    lemma_grid_coords(s, width, height);
    let x = s % width;
    let y = s / width;
    if e.target == e.source + 1 {
        if is_rightward(e, width, height) {
            assert(sp * x + sp * sp * width * y + sp < sp * sp * width * height)
                by (nonlinear_arith)
                requires
                    0 <= x < width - 1,
                    0 <= y < height,
                    sp >= 1,
                    width >= 2,
            ;
        } else {
            // a downward edge with unit stride: the single-column case
            assert(width == 1);
            assert(y < height - 1);
            assert(sp * x + sp * sp * width * y + sp < sp * sp * width * height)
                by (nonlinear_arith)
                requires
                    x == 0,
                    width == 1,
                    0 <= y < height - 1,
                    sp >= 1,
                    height >= 1,
            ;
        }
    } else {
        assert(is_downward(e, width, height));
        assert(y < height - 1);
        assert(sp * x + sp * sp * width * y + sp * width * sp < sp * sp * width * height)
            by (nonlinear_arith)
            requires
                0 <= x < width,
                0 <= y < height - 1,
                sp >= 1,
                width >= 1,
        ;
    }
    assert(0 <= sp * x + sp * sp * width * y) by (nonlinear_arith)
        requires
            0 <= x,
            0 <= y,
            sp >= 1,
            width >= 1,
    ;
}

/// Clears the matrix and rebuilds it as the rasterized maze: a canvas of
/// `sp*sp*width*height` cells, all walls except exactly the cells that some
/// tree edge opens.
pub fn assemble_maze(
    matrix: &mut Vec<bool>,
    tree: &Vec<Edge>,
    width: usize,
    height: usize,
    sp: usize,
)
    requires
        width >= 1,
        height >= 1,
        sp >= 1,
        sp * sp * width * height <= usize::MAX,
        forall|k: int|
            0 <= k < tree@.len() ==> valid_edge(#[trigger] tree@[k], width as int, height as int),
    ensures
        final(matrix)@.len() == sp * sp * width * height,
        forall|idx: int|
            0 <= idx < sp * sp * width * height ==> (final(matrix)@[idx] <==> open_at(
                tree@,
                width as int,
                sp as int,
                idx,
            )),
{
    matrix.clear();
    proof {
        assert(sp * sp <= sp * sp * width * height && sp * sp * width <= sp * sp * width * height)
            by (nonlinear_arith)
            requires
                width >= 1,
                height >= 1,
                sp >= 1,
        ;
    }
    let total = sp * sp * width * height;
    let mut z: usize = 0;
    while z < total
        invariant
            z <= total,
            matrix@.len() == z,
            forall|idx: int| 0 <= idx < z ==> !matrix@[idx],
        decreases total - z,
    {
        matrix.push(false);
        z = z + 1;
    }
    proof {
        assert forall|idx: int| 0 <= idx < total implies (matrix@[idx] <==> open_at(
            tree@.take(0),
            width as int,
            sp as int,
            idx,
        )) by {
            if open_at(tree@.take(0), width as int, sp as int, idx) {
                let k = choose|k: int|
                    0 <= k < tree@.take(0).len() && edge_opens(
                        tree@.take(0)[k],
                        width as int,
                        sp as int,
                        idx,
                    );
            }
        }
    }
    let mut t: usize = 0;
    while t < tree.len()
        invariant
            t <= tree@.len(),
            width >= 1,
            height >= 1,
            sp >= 1,
            total == sp * sp * width * height,
            matrix@.len() == total,
            forall|k: int|
                0 <= k < tree@.len() ==> valid_edge(#[trigger] tree@[k], width as int, height as int),
            forall|idx: int|
                0 <= idx < total ==> (matrix@[idx] <==> open_at(
                    tree@.take(t as int),
                    width as int,
                    sp as int,
                    idx,
                )),
        decreases tree@.len() - t,
    {
        let e = tree[t];
        proof {
            lemma_valid_edge_bounds(e, width as int, height as int);
            lemma_grid_coords(e.source as int, width as int, height as int);
            lemma_mark_bounds(e, width as int, height as int, sp as int);
        }
        let x = e.source % width;
        let y = e.source / width;
        let ghost corner = cell_corner(e.source as int, width as int, sp as int);
        proof {
            assert(corner == sp * x + sp * sp * width * y);
            assert(corner < total);
            assert(sp * x <= corner && sp * sp * width * y <= corner && sp * sp <= total && sp * sp
                * width <= total && sp + 1 <= usize::MAX) by (nonlinear_arith)
                requires
                    corner == sp * x + sp * sp * width * y,
                    0 <= x,
                    0 <= y < height,
                    sp >= 1,
                    width >= 1,
                    height >= 1,
                    total == sp * sp * width * height,
                    corner < total,
                    total <= usize::MAX,
            ;
        }
        let index = sp * x + sp * sp * width * y;
        let ghost t0 = tree@.take(t as int);
        if e.target - e.source == 1 {
            let mut i: usize = 0;
            while i < sp + 1
                invariant
                    i <= sp + 1,
                    sp >= 1,
                    sp + 1 <= usize::MAX,
                    matrix@.len() == total,
                    index == corner,
                    corner + sp < total,
                    corner >= 0,
                    forall|idx: int|
                        0 <= idx < total ==> (matrix@[idx] <==> (open_at(
                            t0,
                            width as int,
                            sp as int,
                            idx,
                        ) || (corner <= idx < corner + i))),
                decreases sp + 1 - i,
            {
                matrix[index + i] = true;
                i = i + 1;
            }
        } else {
            let mut i: usize = 0;
            while i < sp + 1
                invariant
                    i <= sp + 1,
                    sp >= 1,
                    sp + 1 <= usize::MAX,
                    width >= 1,
                    matrix@.len() == total,
                    index == corner,
                    corner + sp * width * sp < total,
                    corner >= 0,
                    forall|idx: int|
                        0 <= idx < total ==> (matrix@[idx] <==> (open_at(
                            t0,
                            width as int,
                            sp as int,
                            idx,
                        ) || (exists|m: int|
                            0 <= m < i && idx == corner + #[trigger] vstep(width as int, sp as int, m)))),
                decreases sp + 1 - i,
            {
                proof {
                    assert(sp * width <= sp * width * sp && sp * width * i <= sp * width * sp)
                        by (nonlinear_arith)
                        requires
                            0 <= i <= sp,
                            width >= 1,
                            sp >= 1,
                    ;
                }
                matrix[index + sp * width * i] = true;
                proof {
                    assert forall|idx: int|
                        0 <= idx < total implies (matrix@[idx] <==> (open_at(
                        t0,
                        width as int,
                        sp as int,
                        idx,
                    ) || (exists|m: int|
                        0 <= m < i + 1 && idx == corner + #[trigger] vstep(width as int, sp as int, m)))) by {
                        if idx == corner + vstep(width as int, sp as int, i as int) {
                            assert(0 <= (i as int) && (i as int) < i + 1);
                        } else if exists|m: int|
                            0 <= m < i + 1 && idx == corner + #[trigger] vstep(width as int, sp as int, m) {
                            let m = choose|m: int|
                                0 <= m < i + 1 && idx == corner + #[trigger] vstep(width as int, sp as int, m);
                            assert(m < i || m == i);
                        }
                    }
                }
                i = i + 1;
            }
        }
        proof {
            assert(tree@.take(t + 1) =~= t0.push(e));
            assert forall|idx: int|
                0 <= idx < total implies (matrix@[idx] <==> open_at(
                tree@.take(t + 1),
                width as int,
                sp as int,
                idx,
            )) by {
                lemma_open_at_push(t0, e, width as int, sp as int, idx);
                if e.target == e.source + 1 {
                    assert(edge_opens(e, width as int, sp as int, idx) <==> (corner <= idx <= corner
                        + sp));
                } else {
                }
            }
        }
        t = t + 1;
    }
    proof {
        assert(tree@.take(tree@.len() as int) =~= tree@);
    }
}

/// Law: in a grid of at least two columns, every logical cell has at least
/// one open rasterized cell — the top-left corner of its block — whenever the
/// tree connects every pair of cells. A single-column grid with more than one
/// row is the exception: its downward edges pass the rasterizer's
/// unit-stride test, the marks run off horizontally, and the lowest block
/// stays fully walled.
pub proof fn lemma_every_cell_open(tree: Seq<Edge>, width: int, height: int, sp: int, c: int)
    requires
        width >= 2,
        height >= 1,
        sp >= 1,
        forall|k: int| 0 <= k < tree.len() ==> valid_edge(#[trigger] tree[k], width, height),
        forall|x: int, y: int|
            0 <= x < width * height && 0 <= y < width * height ==> #[trigger] connects(tree, x, y),
        0 <= c < width * height,
    ensures
        open_at(tree, width, sp, cell_corner(c, width, sp)),
{
    let d = if c == 0 {
        1int
    } else {
        0int
    };
    assert(0 <= d < width * height) by (nonlinear_arith)
        requires
            width >= 2,
            height >= 1,
            d == 0 || d == 1,
    ;
    assert(connects(tree, c, d));
    lemma_connects_touches(tree, c, d);
    let k = choose|k: int|
        0 <= k < tree.len() && ((#[trigger] tree[k]).source == c || tree[k].target == c);
    let e = tree[k];
    let corner = cell_corner(c, width, sp);
    lemma_grid_coords(c, width, height);
    if e.source == c {
        if e.target == e.source + 1 {
            assert(edge_opens(e, width, sp, corner));
        } else {
            assert(vstep(width, sp, 0) == 0) by (nonlinear_arith);
            assert(corner == cell_corner(e.source as int, width, sp) + vstep(width, sp, 0));
            assert(edge_opens(e, width, sp, corner));
        }
    } else {
        let s = e.source as int;
        lemma_grid_coords(s, width, height);
        let x = s % width;
        let y = s / width;
        if e.target == e.source + 1 {
            // with two or more columns a unit stride is a genuine rightward edge
            assert(is_rightward(e, width, height));
            lemma_cell_coords(x + 1, y, width);
            assert(corner == cell_corner(s, width, sp) + sp) by (nonlinear_arith)
                requires
                    corner == sp * ((s + 1) % width) + sp * sp * width * ((s + 1) / width),
                    (s + 1) % width == x + 1,
                    (s + 1) / width == y,
                    x == s % width,
                    y == s / width,
                    c == s + 1,
            ;
            assert(edge_opens(e, width, sp, corner));
        } else {
            assert(is_downward(e, width, height));
            lemma_cell_coords(x, y + 1, width);
            assert(c == x + (y + 1) * width) by (nonlinear_arith)
                requires
                    c == s + width,
                    s == y * width + x,
            ;
            assert(corner == cell_corner(s, width, sp) + vstep(width, sp, sp)) by (nonlinear_arith)
                requires
                    corner == sp * (c % width) + sp * sp * width * (c / width),
                    vstep(width, sp, sp) == sp * width * sp,
                    cell_corner(s, width, sp) == sp * (s % width) + sp * sp * width * (s / width),
                    c % width == x,
                    c / width == y + 1,
                    x == s % width,
                    y == s / width,
            ;
            assert(edge_opens(e, width, sp, corner));
        }
    }
    assert(open_at(tree, width, sp, corner));
}

} // verus!
