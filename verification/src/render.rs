//! Text renderer.
//!
//! Converts the boolean maze grid into printable ASCII bytes: a top border of
//! `sp-1` wall rows with a single breach column (the entry), then
//! `sp*height - sp + 1` body rows each prefixed by `sp-1` wall bytes and
//! showing every canvas cell as a passage or a wall, then a bottom border
//! mirroring the top with the breach on the opposite side (the exit). Every
//! line ends with a newline and all lines have the same length.

use vstd::prelude::*;

verus! {

/// Wall byte, `'#'`.
pub const WALL: u8 = 35;

/// Passage byte, `'.'`.
pub const OPEN: u8 = 46;

/// Line terminator, `'\n'`.
pub const NEWLINE: u8 = 10;

/// `n` wall bytes in a row.
pub open spec fn wall_run(n: int) -> Seq<u8> {
    Seq::new(n as nat, |m: int| WALL)
}

/// A top border line: walls, the entry breach, then walls to the right edge.
pub open spec fn top_line(width: int, sp: int) -> Seq<u8> {
    wall_run(sp - 1) + seq![OPEN] + wall_run(sp * width - 1) + seq![NEWLINE]
}

/// A bottom border line: walls to the left edge, the exit breach, then walls.
pub open spec fn bottom_line(width: int, sp: int) -> Seq<u8> {
    wall_run(sp * width - 1) + seq![OPEN] + wall_run(sp - 1) + seq![NEWLINE]
}

/// The byte showing canvas cell `(i, j)`.
pub open spec fn cell_byte(matrix: Seq<bool>, width: int, sp: int, j: int, i: int) -> u8 {
    if matrix[i + sp * width * j] {
        OPEN
    } else {
        WALL
    }
}

/// A body line: the left frame of `sp-1` walls, one byte per canvas cell of
/// row `j`, and the terminator.
pub open spec fn body_line(matrix: Seq<bool>, width: int, sp: int, j: int) -> Seq<u8> {
    wall_run(sp - 1) + Seq::new((sp * width) as nat, |i: int| cell_byte(matrix, width, sp, j, i))
        + seq![NEWLINE]
}

/// Number of body rows.
pub open spec fn body_count(height: int, sp: int) -> int {
    sp * height - sp + 1
}

/// Total number of output lines.
pub open spec fn line_count(height: int, sp: int) -> int {
    2 * (sp - 1) + body_count(height, sp)
}

/// Length of every output line, terminator included.
pub open spec fn line_len(width: int, sp: int) -> int {
    sp * width + sp
}

/// The `t`-th output line, terminator included.
pub open spec fn line_at(matrix: Seq<bool>, width: int, height: int, sp: int, t: int) -> Seq<u8> {
    if t < sp - 1 {
        top_line(width, sp)
    } else if t < sp - 1 + body_count(height, sp) {
        body_line(matrix, width, sp, t - (sp - 1))
    } else {
        bottom_line(width, sp)
    }
}

/// The first `t` output lines, concatenated.
pub open spec fn rendered_upto(matrix: Seq<bool>, width: int, height: int, sp: int, t: int) -> Seq<
    u8,
>
    decreases t,
{
    if t <= 0 {
        Seq::empty()
    } else {
        rendered_upto(matrix, width, height, sp, t - 1) + line_at(matrix, width, height, sp, t - 1)
    }
}

/// The full rendered maze.
pub open spec fn rendered(matrix: Seq<bool>, width: int, height: int, sp: int) -> Seq<u8> {
    rendered_upto(matrix, width, height, sp, line_count(height, sp))
}

/// Every line has the same length, ends with the terminator, and otherwise
/// holds only wall and passage bytes.
pub proof fn lemma_line_shape(matrix: Seq<bool>, width: int, height: int, sp: int, t: int)
    requires
        width >= 1,
        sp >= 1,
        0 <= t < line_count(height, sp),
    ensures
        line_at(matrix, width, height, sp, t).len() == line_len(width, sp),
        line_at(matrix, width, height, sp, t)[line_len(width, sp) - 1] == NEWLINE,
        forall|m: int|
            0 <= m < line_len(width, sp) - 1 ==> (#[trigger] line_at(matrix, width, height, sp, t)[m]
                == WALL || line_at(matrix, width, height, sp, t)[m] == OPEN),
{
    assert(sp * width >= 1) by (nonlinear_arith)
        requires
            sp >= 1,
            width >= 1,
    ;
}

proof fn lemma_upto_len(matrix: Seq<bool>, width: int, height: int, sp: int, t: int)
    requires
        width >= 1,
        sp >= 1,
        0 <= t <= line_count(height, sp),
    ensures
        rendered_upto(matrix, width, height, sp, t).len() == t * line_len(width, sp),
    decreases t,
{
    if t > 0 {
        lemma_upto_len(matrix, width, height, sp, t - 1);
        lemma_line_shape(matrix, width, height, sp, t - 1);
        let ll = line_len(width, sp);
        assert(rendered_upto(matrix, width, height, sp, t) == rendered_upto(
            matrix,
            width,
            height,
            sp,
            t - 1,
        ) + line_at(matrix, width, height, sp, t - 1));
        assert(rendered_upto(matrix, width, height, sp, t).len() == (t - 1) * ll + ll);
        assert(t * ll == (t - 1) * ll + ll) by (nonlinear_arith);
    } else {
        assert(t * line_len(width, sp) == 0) by (nonlinear_arith)
            requires
                t == 0,
        ;
    }
}

proof fn lemma_upto_extract(matrix: Seq<bool>, width: int, height: int, sp: int, t: int, u: int)
    requires
        width >= 1,
        sp >= 1,
        0 <= t < u <= line_count(height, sp),
    ensures
        rendered_upto(matrix, width, height, sp, u).subrange(
            t * line_len(width, sp),
            (t + 1) * line_len(width, sp),
        ) == line_at(matrix, width, height, sp, t),
    decreases u,
{
    let ll = line_len(width, sp);
    lemma_line_shape(matrix, width, height, sp, t);
    lemma_upto_len(matrix, width, height, sp, u - 1);
    lemma_upto_len(matrix, width, height, sp, u);
    lemma_line_shape(matrix, width, height, sp, u - 1);
    assert((t + 1) * ll == t * ll + ll && u * ll == (u - 1) * ll + ll && 0 <= t * ll)
        by (nonlinear_arith)
        requires
            0 <= t,
            ll >= 1,
    ;
    if t == u - 1 {
        assert(rendered_upto(matrix, width, height, sp, u).subrange(t * ll, (t + 1) * ll)
            =~= line_at(matrix, width, height, sp, t));
    } else {
        lemma_upto_extract(matrix, width, height, sp, t, u - 1);
        assert((t + 1) * ll <= (u - 1) * ll) by (nonlinear_arith)
            requires
                0 <= t,
                t + 1 <= u - 1,
                ll >= 1,
        ;
        assert(rendered_upto(matrix, width, height, sp, u).subrange(t * ll, (t + 1) * ll)
            =~= rendered_upto(matrix, width, height, sp, u - 1).subrange(t * ll, (t + 1) * ll));
    }
}

/// Law: the rendered output consists of exactly
/// `2*(sp-1) + (sp*height - sp + 1)` newline-terminated lines of equal
/// length; apart from the terminators only wall and passage bytes appear.
pub proof fn lemma_render_shape(matrix: Seq<bool>, width: int, height: int, sp: int)
    requires
        width >= 1,
        height >= 1,
        sp >= 1,
    ensures
        rendered(matrix, width, height, sp).len() == line_count(height, sp) * line_len(width, sp),
        forall|t: int|
            0 <= t < line_count(height, sp) ==> rendered(matrix, width, height, sp).subrange(
                t * line_len(width, sp),
                (t + 1) * line_len(width, sp),
            ) == #[trigger] line_at(matrix, width, height, sp, t),
        forall|t: int|
            0 <= t < line_count(height, sp) ==> (#[trigger] line_at(matrix, width, height, sp, t)).len()
                == line_len(width, sp) && line_at(matrix, width, height, sp, t)[line_len(width, sp)
                - 1] == NEWLINE,
        forall|t: int, m: int|
            0 <= t < line_count(height, sp) && 0 <= m < line_len(width, sp) - 1 ==> (#[trigger] line_at(
                matrix,
                width,
                height,
                sp,
                t,
            )[m] == WALL || line_at(matrix, width, height, sp, t)[m] == OPEN),
{
    lemma_upto_len(matrix, width, height, sp, line_count(height, sp));
    assert forall|t: int| 0 <= t < line_count(height, sp) implies rendered(
        matrix,
        width,
        height,
        sp,
    ).subrange(t * line_len(width, sp), (t + 1) * line_len(width, sp)) == #[trigger] line_at(
        matrix,
        width,
        height,
        sp,
        t,
    ) by {
        lemma_upto_extract(matrix, width, height, sp, t, line_count(height, sp));
    }
    assert forall|t: int| 0 <= t < line_count(height, sp) implies (#[trigger] line_at(
        matrix,
        width,
        height,
        sp,
        t,
    )).len() == line_len(width, sp) && line_at(matrix, width, height, sp, t)[line_len(width, sp)
        - 1] == NEWLINE by {
        lemma_line_shape(matrix, width, height, sp, t);
    }
    assert forall|t: int, m: int|
        0 <= t < line_count(height, sp) && 0 <= m < line_len(width, sp) - 1 implies (#[trigger] line_at(
        matrix,
        width,
        height,
        sp,
        t,
    )[m] == WALL || line_at(matrix, width, height, sp, t)[m] == OPEN) by {
        lemma_line_shape(matrix, width, height, sp, t);
    }
}

/// Renders the maze grid as printable bytes, exactly the bordered layout that
/// `rendered` describes.
pub fn render_maze(matrix: &Vec<bool>, width: usize, height: usize, sp: usize) -> (out: Vec<u8>)
    requires
        width >= 1,
        height >= 1,
        sp >= 1,
        matrix@.len() == sp * sp * width * height,
    ensures
        out@ == rendered(matrix@, width as int, height as int, sp as int),
{
    let ghost w = width as int;
    let ghost h = height as int;
    let ghost spg = sp as int;
    let total = matrix.len();
    proof {
        assert(total == matrix@.len());
        assert(1 <= sp * width && sp * width <= sp * sp * width * height && sp <= sp * height
            && sp * height <= sp * sp * width * height) by (nonlinear_arith)
            requires
                sp >= 1,
                width >= 1,
                height >= 1,
        ;
    }
    let row = sp * width;
    let body_rows = sp * height - sp + 1;
    let mut out: Vec<u8> = Vec::new();

    let mut t: usize = 0;
    while t < sp - 1
        invariant
            t <= sp - 1,
            sp >= 1,
            width >= 1,
            height >= 1,
            row == sp * width,
            row >= 1,
            out@ == rendered_upto(matrix@, w, h, spg, t as int),
            w == width,
            h == height,
            spg == sp,
        decreases sp - 1 - t,
    {
        let ghost base = out@;
        let mut m: usize = 0;
        while m < sp - 1
            invariant
                m <= sp - 1,
                out@ == base + wall_run(m as int),
            decreases sp - 1 - m,
        {
            out.push(WALL);
            proof {
                assert(out@ =~= base + wall_run(m + 1));
            }
            m = m + 1;
        }
        out.push(OPEN);
        let ghost mid = base + wall_run(spg - 1) + seq![OPEN];
        proof {
            assert(out@ =~= mid);
        }
        let mut m: usize = 0;
        while m < row - 1
            invariant
                m <= row - 1,
                row >= 1,
                out@ == mid + wall_run(m as int),
            decreases row - 1 - m,
        {
            out.push(WALL);
            proof {
                assert(out@ =~= mid + wall_run(m + 1));
            }
            m = m + 1;
        }
        out.push(NEWLINE);
        proof {
            assert(t < sp - 1);
            assert(line_at(matrix@, w, h, spg, t as int) == top_line(w, spg));
            assert(out@ =~= rendered_upto(matrix@, w, h, spg, t as int) + top_line(w, spg));
            assert(out@ == rendered_upto(matrix@, w, h, spg, t + 1));
        }
        t = t + 1;
    }

    let mut j: usize = 0;
    while j < body_rows
        invariant
            j <= body_rows,
            sp >= 1,
            width >= 1,
            height >= 1,
            row == sp * width,
            row >= 1,
            body_rows == sp * height - sp + 1,
            total == matrix@.len(),
            total == sp * sp * width * height,
            out@ == rendered_upto(matrix@, w, h, spg, sp - 1 + j),
            w == width,
            h == height,
            spg == sp,
        decreases body_rows - j,
    {
        let ghost base = out@;
        let mut m: usize = 0;
        while m < sp - 1
            invariant
                m <= sp - 1,
                out@ == base + wall_run(m as int),
            decreases sp - 1 - m,
        {
            out.push(WALL);
            proof {
                assert(out@ =~= base + wall_run(m + 1));
            }
            m = m + 1;
        }
        let ghost mid = base + wall_run(spg - 1);
        let mut i: usize = 0;
        while i < row
            invariant
                i <= row,
                j < body_rows,
                sp >= 1,
                width >= 1,
                height >= 1,
                row == sp * width,
                body_rows == sp * height - sp + 1,
                total == matrix@.len(),
                total == sp * sp * width * height,
                out@ == mid + Seq::new(i as nat, |ii: int| cell_byte(matrix@, w, spg, j as int, ii)),
                w == width,
                h == height,
                spg == sp,
            decreases row - i,
        {
            proof {
                assert(i + sp * width * j < total && sp * width * j <= total) by (nonlinear_arith)
                    requires
                        0 <= i < sp * width,
                        0 <= j <= sp * height - sp,
                        total == sp * sp * width * height,
                        sp >= 1,
                        width >= 1,
                        height >= 1,
                ;
            }
            let b = if matrix[i + sp * width * j] {
                OPEN
            } else {
                WALL
            };
            out.push(b);
            proof {
                assert(b == cell_byte(matrix@, w, spg, j as int, i as int));
                assert(out@ =~= mid + Seq::new((i + 1) as nat, |ii: int| cell_byte(matrix@, w, spg, j as int, ii)));
            }
            i = i + 1;
        }
        out.push(NEWLINE);
        proof {
            let tl = spg - 1 + j;
            assert(line_at(matrix@, w, h, spg, tl) == body_line(matrix@, w, spg, j as int));
            assert(out@ =~= rendered_upto(matrix@, w, h, spg, tl) + body_line(matrix@, w, spg, j as int));
            assert(out@ == rendered_upto(matrix@, w, h, spg, tl + 1));
        }
        j = j + 1;
    }

    let mut r: usize = 0;
    while r < sp - 1
        invariant
            r <= sp - 1,
            sp >= 1,
            width >= 1,
            height >= 1,
            row == sp * width,
            row >= 1,
            body_rows == sp * height - sp + 1,
            out@ == rendered_upto(matrix@, w, h, spg, sp - 1 + body_rows + r),
            w == width,
            h == height,
            spg == sp,
        decreases sp - 1 - r,
    {
        let ghost base = out@;
        let mut m: usize = 0;
        while m < row - 1
            invariant
                m <= row - 1,
                row >= 1,
                out@ == base + wall_run(m as int),
            decreases row - 1 - m,
        {
            out.push(WALL);
            proof {
                assert(out@ =~= base + wall_run(m + 1));
            }
            m = m + 1;
        }
        out.push(OPEN);
        let ghost mid = base + wall_run(spg * w - 1) + seq![OPEN];
        proof {
            assert(out@ =~= mid);
        }
        let mut m: usize = 0;
        while m < sp - 1
            invariant
                m <= sp - 1,
                out@ == mid + wall_run(m as int),
            decreases sp - 1 - m,
        {
            out.push(WALL);
            proof {
                assert(out@ =~= mid + wall_run(m + 1));
            }
            m = m + 1;
        }
        out.push(NEWLINE);
        proof {
            let tl = spg - 1 + body_rows + r;
            assert(tl >= spg - 1 + body_count(h, spg));
            assert(line_at(matrix@, w, h, spg, tl) == bottom_line(w, spg));
            assert(out@ =~= rendered_upto(matrix@, w, h, spg, tl) + bottom_line(w, spg));
            assert(out@ == rendered_upto(matrix@, w, h, spg, tl + 1));
        }
        r = r + 1;
    }
    proof {
        assert(sp - 1 + body_rows + (sp - 1) == line_count(h, spg));
    }
    out
}

} // verus!
