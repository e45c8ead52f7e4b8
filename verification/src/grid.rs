//! Grid partitioning of rectangles.
//!
//! Grid lines sit at multiples of the cell size measured from the origin, not
//! from the rectangle's own corner, so a misaligned rectangle gets smaller
//! cells on its first (and possibly last) row and column. Cells are emitted
//! row-major: top-to-bottom bands, left-to-right within a band.

use vstd::prelude::*;
use vstd::arithmetic::div_mod::{
    lemma_fundamental_div_mod,
    lemma_fundamental_div_mod_converse,
    lemma_mod_bound,
};
use crate::rect::Rect;

verus! {

/// Coordinates and cell sizes are kept below this bound so that all grid and
/// rasterization arithmetic fits comfortably in the machine integer types.
pub const MAX_DIM: usize = 0x100000;

/// How many grid bands the span `[lo, hi)` crosses, for grid lines at
/// multiples of `step`.
pub open spec fn span_cells(lo: int, hi: int, step: int) -> int {
    (hi - 1) / step - lo / step + 1
}

/// Where band `k` of the span starting at `lo` begins: the span's own start
/// for the first band, the `k`-th following grid line otherwise.
pub open spec fn band_start(lo: int, step: int, k: int) -> int {
    if k == 0 {
        lo
    } else {
        (lo / step + k) * step
    }
}

/// Where band `k` of the span `[lo, hi)` ends: the next grid line, clipped to
/// the span's end.
pub open spec fn band_end(lo: int, hi: int, step: int, k: int) -> int {
    vstd::math::min((lo / step + k + 1) * step, hi)
}

/// Cell `(row, col)` of the grid partition of `r`.
pub open spec fn grid_cell(r: Rect, cw: int, ch: int, row: int, col: int) -> Rect {
    Rect {
        left: band_start(r.left as int, cw, col) as usize,
        top: band_start(r.top as int, ch, row) as usize,
        right: band_end(r.left as int, r.right as int, cw, col) as usize,
        bottom: band_end(r.top as int, r.bottom as int, ch, row) as usize,
    }
}

/// The grid partition of `r` with nominal cell size `cw` by `ch`, row-major.
pub open spec fn partition_cells(r: Rect, cw: int, ch: int) -> Seq<Rect> {
    let cols = span_cells(r.left as int, r.right as int, cw);
    let rows = span_cells(r.top as int, r.bottom as int, ch);
    Seq::new((rows * cols) as nat, |i: int| grid_cell(r, cw, ch, i / cols, i % cols))
}

/// The next grid line strictly above `x` lies in `(x, x + step]`.
proof fn lemma_next_line(x: int, step: int)
    requires
        x >= 0,
        step >= 1,
    ensures
        x < (x / step + 1) * step <= x + step,
{
    lemma_fundamental_div_mod(x, step);
    lemma_mod_bound(x, step);
    assert((x / step + 1) * step == step * (x / step) + step) by (nonlinear_arith);
}

/// A product of `step` divided by `step` gives the factor back.
proof fn lemma_line_index(a: int, step: int)
    requires
        a >= 0,
        step >= 1,
    ensures
        (a * step) / step == a,
        (a * step) % step == 0,
{
    assert(a * step == step * a + 0) by (nonlinear_arith);
    lemma_fundamental_div_mod_converse(a * step, step, a, 0);
}

/// Whether a grid line clears `hi - 1` decides the comparison with the last
/// band index: `q * step > x` exactly when `q` is past `x / step`.
proof fn lemma_line_threshold(x: int, step: int, q: int)
    requires
        x >= 0,
        step >= 1,
        q >= 0,
    ensures
        (q * step > x) <==> (q > x / step),
{
    lemma_fundamental_div_mod(x, step);
    lemma_mod_bound(x, step);
    let d = x / step;
    if q > d {
        assert(q * step >= (d + 1) * step && (d + 1) * step == step * d + step) by (nonlinear_arith)
            requires
                q >= d + 1,
                step >= 1,
        ;
    } else {
        assert(q * step <= d * step && d * step == step * d) by (nonlinear_arith)
            requires
                q <= d,
                step >= 1,
        ;
    }
}

/// Every cell of a partition is well formed and lies inside its rectangle.
pub proof fn lemma_partition_cells_wf(r: Rect, cw: int, ch: int, i: int)
    requires
        r.wf(),
        cw >= 1,
        ch >= 1,
        0 <= i < partition_cells(r, cw, ch).len(),
    ensures
        partition_cells(r, cw, ch)[i].wf(),
        r.left <= partition_cells(r, cw, ch)[i].left,
        r.top <= partition_cells(r, cw, ch)[i].top,
        partition_cells(r, cw, ch)[i].right <= r.right,
        partition_cells(r, cw, ch)[i].bottom <= r.bottom,
{
    let cols = span_cells(r.left as int, r.right as int, cw);
    let rows = span_cells(r.top as int, r.bottom as int, ch);
    lemma_span_cells_pos(r.left as int, r.right as int, cw);
    lemma_span_cells_pos(r.top as int, r.bottom as int, ch);
    lemma_mod_bound(i, cols);
    lemma_fundamental_div_mod(i, cols);
    let row = i / cols;
    let col = i % cols;
    assert(0 <= row && row < rows) by (nonlinear_arith)
        requires
            0 <= i,
            i < rows * cols,
            i == row * cols + col,
            0 <= col < cols,
            cols >= 1,
            rows >= 1,
    ;
    lemma_band_bounds(r.left as int, r.right as int, cw, col, cols);
    lemma_band_bounds(r.top as int, r.bottom as int, ch, row, rows);
}

/// A non-empty span crosses at least one band.
proof fn lemma_span_cells_pos(lo: int, hi: int, step: int)
    requires
        0 <= lo < hi,
        step >= 1,
    ensures
        span_cells(lo, hi, step) >= 1,
{
    vstd::arithmetic::div_mod::lemma_div_is_ordered(lo, hi - 1, step);
}

/// Band `k` of a span is non-empty and stays inside the span.
proof fn lemma_band_bounds(lo: int, hi: int, step: int, k: int, count: int)
    requires
        0 <= lo < hi,
        step >= 1,
        count == span_cells(lo, hi, step),
        0 <= k < count,
    ensures
        lo <= band_start(lo, step, k) < band_end(lo, hi, step, k) <= hi,
{
    let base = lo / step;
    lemma_fundamental_div_mod(lo, step);
    lemma_mod_bound(lo, step);
    lemma_fundamental_div_mod(hi - 1, step);
    lemma_mod_bound(hi - 1, step);
    if k == 0 {
        lemma_next_line(lo, step);
    } else {
        // start of band k: (base + k) * step; it is above lo and at most hi - 1
        assert((base + k) * step == step * base + k * step) by (nonlinear_arith);
        assert(k * step >= step) by (nonlinear_arith)
            requires
                k >= 1,
                step >= 1,
        ;
        // (base + k) <= (hi - 1) / step, so (base + k) * step <= hi - 1
        let e = (hi - 1) / step;
        assert((base + k) * step <= e * step && e * step == step * e) by (nonlinear_arith)
            requires
                base + k <= e,
                step >= 1,
        ;
    }
    // the end line is strictly above the start
    assert((base + k + 1) * step == (base + k) * step + step) by (nonlinear_arith);
}

/// Splits `r` into grid-aligned cells of nominal size `cell_w` by `cell_h`,
/// in row-major order. Boundary cells are clipped to `r`.
pub fn partition(r: Rect, cell_w: usize, cell_h: usize) -> (cells: Vec<Rect>)
    requires
        r.wf(),
        1 <= cell_w <= MAX_DIM,
        1 <= cell_h <= MAX_DIM,
        r.right <= MAX_DIM,
        r.bottom <= MAX_DIM,
    ensures
        cells@ == partition_cells(r, cell_w as int, cell_h as int),
{
    let ghost cw = cell_w as int;
    let ghost ch = cell_h as int;
    let ghost cols = span_cells(r.left as int, r.right as int, cw);
    let ghost rows = span_cells(r.top as int, r.bottom as int, ch);
    let ghost target = partition_cells(r, cw, ch);
    proof {
        lemma_span_cells_pos(r.left as int, r.right as int, cw);
        lemma_span_cells_pos(r.top as int, r.bottom as int, ch);
    }
    let mut cells: Vec<Rect> = Vec::new();
    let mut y0: usize = r.top;
    let ghost mut row: int = 0;
    loop
        invariant_except_break
            r.wf(),
            1 <= cell_w <= MAX_DIM,
            1 <= cell_h <= MAX_DIM,
            r.right <= MAX_DIM,
            r.bottom <= MAX_DIM,
            cw == cell_w as int,
            ch == cell_h as int,
            cols == span_cells(r.left as int, r.right as int, cw),
            rows == span_cells(r.top as int, r.bottom as int, ch),
            target == partition_cells(r, cw, ch),
            0 <= row < rows,
            y0 == band_start(r.top as int, ch, row),
            r.top <= y0 < r.bottom,
            cells@.len() == row * cols,
            forall|idx: int| 0 <= idx < cells@.len() ==> cells@[idx] == target[idx],
        ensures
            cells@.len() == rows * cols,
            forall|idx: int| 0 <= idx < cells@.len() ==> cells@[idx] == target[idx],
        decreases r.bottom - y0,
    {
        proof {
            lemma_span_cells_pos(r.left as int, r.right as int, cw);
            lemma_next_line(y0 as int, ch);
            if row > 0 {
                lemma_line_index(r.top as int / ch + row, ch);
            }
            lemma_band_bounds(r.top as int, r.bottom as int, ch, row, rows);
        }
        let y1 = (y0 / cell_h + 1) * cell_h;
        let y2 = if y1 < r.bottom {
            y1
        } else {
            r.bottom
        };
        proof {
            assert(y0 as int / ch == r.top as int / ch + row);
            assert(y2 == band_end(r.top as int, r.bottom as int, ch, row));
        }
        let mut x0: usize = r.left;
        let ghost mut col: int = 0;
        loop
            invariant_except_break
                r.wf(),
                1 <= cell_w <= MAX_DIM,
                r.right <= MAX_DIM,
                cw == cell_w as int,
                cols == span_cells(r.left as int, r.right as int, cw),
                target == partition_cells(r, cw, ch),
                rows == span_cells(r.top as int, r.bottom as int, ch),
                0 <= row < rows,
                0 <= col < cols,
                x0 == band_start(r.left as int, cw, col),
                r.left <= x0 < r.right,
                y0 == band_start(r.top as int, ch, row),
                y2 == band_end(r.top as int, r.bottom as int, ch, row),
                cells@.len() == row * cols + col,
                forall|idx: int| 0 <= idx < cells@.len() ==> cells@[idx] == target[idx],
            ensures
                cells@.len() == row * cols + cols,
                forall|idx: int| 0 <= idx < cells@.len() ==> cells@[idx] == target[idx],
                y0 == band_start(r.top as int, ch, row),
                y2 == band_end(r.top as int, r.bottom as int, ch, row),
                rows == span_cells(r.top as int, r.bottom as int, ch),
                0 <= row < rows,
            decreases r.right - x0,
        {
            proof {
                lemma_next_line(x0 as int, cw);
                if col > 0 {
                    lemma_line_index(r.left as int / cw + col, cw);
                }
                lemma_band_bounds(r.left as int, r.right as int, cw, col, cols);
            }
            let x1 = (x0 / cell_w + 1) * cell_w;
            let x2 = if x1 < r.right {
                x1
            } else {
                r.right
            };
            proof {
                assert(x0 as int / cw == r.left as int / cw + col);
                assert(x2 == band_end(r.left as int, r.right as int, cw, col));
            }
            let cell = Rect { left: x0, top: y0, right: x2, bottom: y2 };
            proof {
                let idx = row * cols + col;
                lemma_fundamental_div_mod_converse(idx, cols, row, col);
                assert(cell == grid_cell(r, cw, ch, row, col));
                assert(0 <= idx && idx + 1 <= (row + 1) * cols <= rows * cols) by (nonlinear_arith)
                    requires
                        0 <= col < cols,
                        0 <= row < rows,
                        idx == row * cols + col,
                ;
                assert(target[idx] == cell);
            }
            cells.push(cell);
            proof {
                lemma_line_threshold(r.right as int - 1, cw, r.left as int / cw + col + 1);
            }
            if x1 >= r.right {
                proof {
                    assert(col == cols - 1);
                }
                break;
            }
            x0 = x2;
            proof {
                col = col + 1;
            }
        }
        proof {
            lemma_line_threshold(r.bottom as int - 1, ch, r.top as int / ch + row + 1);
            assert((row + 1) * cols == row * cols + cols) by (nonlinear_arith);
        }
        if y1 >= r.bottom {
            proof {
                assert(row == rows - 1);
            }
            break;
        }
        y0 = y2;
        proof {
            row = row + 1;
        }
    }
    proof {
        assert(cells@ =~= target);
    }
    cells
}

} // verus!
