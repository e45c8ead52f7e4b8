//! Frame cell-size solving.
//!
//! Given the number of destination cells the regions offer, the solver picks
//! one frame-wide cell size whose grid has at most that many cells, keeping
//! cells as small as it can. It estimates a vertical cell count as the square
//! root of the destination count scaled by the frame's and the region cells'
//! aspect ratios, derives the cell size from it with ceiling divisions, and,
//! if the resulting grid is still too fine, retries once with the estimate
//! rounded down to a whole number. All arithmetic is exact: the square roots
//! of the rational estimates are taken with integer ceiling and floor roots.

use vstd::prelude::*;
use vstd::math::min;
use crate::grid::MAX_DIM;

verus! {

/// The largest destination cell count the solver accepts; keeps every
/// intermediate product inside the machine integer types.
pub const MAX_CELL_COUNT: u64 = 0x10_0000_0000_0000;

/// `a / b` rounded up.
pub open spec fn div_ceil(a: int, b: int) -> int {
    (a + b - 1) / b
}

/// `m` is the smallest integer whose square reaches `q`.
pub open spec fn is_ceil_sqrt(q: int, m: int) -> bool {
    &&& 0 <= m
    &&& m * m >= q
    &&& (m >= 1 ==> (m - 1) * (m - 1) < q)
}

/// `f` is the largest integer whose square does not exceed `q`.
pub open spec fn is_floor_sqrt(q: int, f: int) -> bool {
    &&& 0 <= f
    &&& f * f <= q
    &&& (f + 1) * (f + 1) > q
}

/// The smallest integer whose square reaches `q`.
pub open spec fn ceil_sqrt_of(q: int) -> int {
    choose|m: int| is_ceil_sqrt(q, m)
}

/// The largest integer whose square does not exceed `q`.
pub open spec fn floor_sqrt_of(q: int) -> int {
    choose|f: int| is_floor_sqrt(q, f)
}

/// Any witness of `is_ceil_sqrt` is the ceiling root.
pub proof fn lemma_ceil_sqrt_is(q: int, m: int)
    requires
        is_ceil_sqrt(q, m),
    ensures
        ceil_sqrt_of(q) == m,
{
    assert(is_ceil_sqrt(q, m));
    let c = ceil_sqrt_of(q);
    assert(is_ceil_sqrt(q, c)) by {
        assert(exists|x: int| is_ceil_sqrt(q, x));
    }
    if c < m {
        assert(false) by (nonlinear_arith)
            requires
                0 <= c <= m - 1,
                c * c >= q,
                (m - 1) * (m - 1) < q,
        ;
    }
    if c > m {
        assert(false) by (nonlinear_arith)
            requires
                0 <= m <= c - 1,
                m * m >= q,
                (c - 1) * (c - 1) < q,
        ;
    }
}

/// Any witness of `is_floor_sqrt` is the floor root.
pub proof fn lemma_floor_sqrt_is(q: int, f: int)
    requires
        is_floor_sqrt(q, f),
    ensures
        floor_sqrt_of(q) == f,
{
    assert(is_floor_sqrt(q, f));
    let c = floor_sqrt_of(q);
    assert(is_floor_sqrt(q, c)) by {
        assert(exists|x: int| is_floor_sqrt(q, x));
    }
    if c < f {
        assert(false) by (nonlinear_arith)
            requires
                0 <= c,
                c + 1 <= f,
                (c + 1) * (c + 1) > q,
                f * f <= q,
        ;
    }
    if c > f {
        assert(false) by (nonlinear_arith)
            requires
                0 <= f,
                f + 1 <= c,
                (f + 1) * (f + 1) > q,
                c * c <= q,
        ;
    }
}

/// The cell size the solver picks for a frame of `width` by `height`, given
/// `r_count` destination cells and the region cell size `cx` by `cy` (used
/// for its aspect ratio only). The returned pair is `(cell width, cell
/// height)`, each clipped to the frame's extent on its axis: any larger size
/// partitions the frame into the very same single band.
pub open spec fn solved_cell_size(
    r_count: int,
    width: int,
    height: int,
    cx: int,
    cy: int,
) -> (int, int) {
    if r_count == 0 {
        (width, height)
    } else {
        let qc = div_ceil(height * width * cy, r_count * cx);
        let icy = ceil_sqrt_of(qc);
        let icx = div_ceil(icy * cx, cy);
        if div_ceil(width, icx) * div_ceil(height, icy) > r_count {
            let f = floor_sqrt_of((r_count * height * cx) / (width * cy));
            if f == 0 {
                (width, height)
            } else {
                let icy2 = div_ceil(height, f);
                let icx2 = div_ceil(icy2 * cx, cy);
                (min(icx2, width), min(icy2, height))
            }
        } else {
            (min(icx, width), min(icy, height))
        }
    }
}

/// `a / b` rounded up, as `div_ceil` says.
fn div_ceil_u64(a: u64, b: u64) -> (r: u64)
    requires
        1 <= b,
    ensures
        r == div_ceil(a as int, b as int),
        r <= a,
        a >= 1 ==> r >= 1,
{
    if a == 0 {
        proof {
            vstd::arithmetic::div_mod::lemma_div_pos_is_pos(b as int - 1, b as int);
            vstd::arithmetic::div_mod::lemma_basic_div(b as int - 1, b as int);
        }
        0
    } else {
        let r = (a - 1) / b + 1;
        proof {
            vstd::arithmetic::div_mod::lemma_div_plus_one(a as int - 1, b as int);
            assert(a as int - 1 <= (a as int - 1) * b as int) by (nonlinear_arith)
                requires
                    b >= 1,
                    a >= 1,
            ;
            vstd::arithmetic::div_mod::lemma_div_is_ordered(
                a as int - 1,
                (a as int - 1) * b as int,
                b as int,
            );
            vstd::arithmetic::div_mod::lemma_div_by_multiple(a as int - 1, b as int);
            vstd::arithmetic::div_mod::lemma_div_pos_is_pos(a as int - 1, b as int);
        }
        r
    }
}

/// The smallest integer whose square reaches `q`, by binary search.
fn ceil_sqrt(q: u64) -> (m: u64)
    ensures
        is_ceil_sqrt(q as int, m as int),
        m <= 0x1_0000_0000,
{
    let mut lo: u64 = 0;
    let mut hi: u64 = 0x1_0000_0000;
    proof {
        assert(0x1_0000_0000int * 0x1_0000_0000 >= q as int) by (nonlinear_arith)
            requires
                q <= 0xffff_ffff_ffff_ffff,
        ;
    }
    while lo < hi
        invariant
            lo <= hi <= 0x1_0000_0000,
            lo >= 1 ==> (lo as int - 1) * (lo as int - 1) < q as int,
            (hi as int) * (hi as int) >= q as int,
        decreases hi - lo,
    {
        let mid = lo + (hi - lo) / 2;
        proof {
            assert((mid as int) * (mid as int) <= 0x1_0000_0000int * 0x1_0000_0000) by (nonlinear_arith)
                requires
                    0 <= mid <= 0x1_0000_0000,
            ;
        }
        let sq: u128 = (mid as u128) * (mid as u128);
        if sq >= q as u128 {
            hi = mid;
        } else {
            lo = mid + 1;
        }
    }
    lo
}

/// The largest integer whose square does not exceed `q`, by binary search.
fn floor_sqrt(q: u128) -> (f: u64)
    requires
        q < 0x4000_0000_0000_0000_0000_0000_0000_0000,
    ensures
        is_floor_sqrt(q as int, f as int),
        f <= 0x8000_0000_0000_0000,
{
    let mut lo: u64 = 0;
    let mut hi: u64 = 0x8000_0000_0000_0000;
    proof {
        assert((0x8000_0000_0000_0000int + 1) * (0x8000_0000_0000_0000int + 1)
            > 0x4000_0000_0000_0000_0000_0000_0000_0000int) by (nonlinear_arith);
    }
    while lo < hi
        invariant
            lo <= hi <= 0x8000_0000_0000_0000,
            (lo as int) * (lo as int) <= q as int,
            (hi as int + 1) * (hi as int + 1) > q as int,
            q < 0x4000_0000_0000_0000_0000_0000_0000_0000,
        decreases hi - lo,
    {
        let mid = lo + (hi - lo + 1) / 2;
        proof {
            assert((mid as int) * (mid as int) <= 0x8000_0000_0000_0000int
                * 0x8000_0000_0000_0000) by (nonlinear_arith)
                requires
                    0 <= mid <= 0x8000_0000_0000_0000,
            ;
        }
        let sq: u128 = (mid as u128) * (mid as u128);
        if sq <= q {
            lo = mid;
        } else {
            hi = mid - 1;
        }
    }
    lo
}

/// Picks the frame cell size for `width` by `height`, so that the frame grid
/// has at most `region_cell_count` cells unless even the one-retry estimate
/// cannot reach that. The region cell size contributes its aspect ratio. The
/// result is clipped to the frame's extent on each axis and is never zero.
pub fn solve_cell_size(
    region_cell_count: usize,
    width: usize,
    height: usize,
    cell_w: usize,
    cell_h: usize,
) -> (res: (usize, usize))
    requires
        1 <= width <= MAX_DIM,
        1 <= height <= MAX_DIM,
        1 <= cell_w <= MAX_DIM,
        1 <= cell_h <= MAX_DIM,
        region_cell_count as int <= MAX_CELL_COUNT as int,
    ensures
        (res.0 as int, res.1 as int) == solved_cell_size(
            region_cell_count as int,
            width as int,
            height as int,
            cell_w as int,
            cell_h as int,
        ),
        1 <= res.0 <= width,
        1 <= res.1 <= height,
{
    if region_cell_count == 0 {
        return (width, height);
    }
    let r: u64 = region_cell_count as u64;
    let w: u64 = width as u64;
    let h: u64 = height as u64;
    let cx: u64 = cell_w as u64;
    let cy: u64 = cell_h as u64;
    proof {
        assert(h as int * w as int <= 0x100_0000_0000int && h as int * w as int * cy as int
            <= 0x1000_0000_0000_0000int) by (nonlinear_arith)
            requires
                1 <= h <= 0x10_0000,
                1 <= w <= 0x10_0000,
                1 <= cy <= 0x10_0000,
        ;
    }
    let n: u64 = h * w * cy;
    proof {
        assert(1 <= r as int * cx as int <= 0x1000_0000_0000_0000_0000int) by (nonlinear_arith)
            requires
                1 <= r <= 0x10_0000_0000_0000,
                1 <= cx <= 0x10_0000,
        ;
        assert(1 <= n as int) by (nonlinear_arith)
            requires
                1 <= h,
                1 <= w,
                1 <= cy,
                n as int == h as int * w as int * cy as int,
        ;
    }
    let d: u128 = (r as u128) * (cx as u128);
    let qc: u128 = ((n as u128) + d - 1) / d;
    proof {
        assert(qc as int == div_ceil(n as int, d as int));
        assert(n as int + d as int - 1 <= n as int * d as int) by (nonlinear_arith)
            requires
                n >= 1,
                d >= 1,
        ;
        vstd::arithmetic::div_mod::lemma_div_is_ordered(
            n as int + d as int - 1,
            n as int * d as int,
            d as int,
        );
        assert(n as int * d as int == d as int * n as int) by (nonlinear_arith);
        vstd::arithmetic::div_mod::lemma_div_by_multiple(n as int, d as int);
        assert(qc <= n as u128);
        vstd::arithmetic::div_mod::lemma_div_by_self(d as int);
        vstd::arithmetic::div_mod::lemma_div_is_ordered(
            d as int,
            n as int + d as int - 1,
            d as int,
        );
        assert(qc >= 1);
    }
    let icy: u64 = ceil_sqrt(qc as u64);
    proof {
        lemma_ceil_sqrt_is(qc as int, icy as int);
        assert(icy as int <= 0x8000_0000) by (nonlinear_arith)
            requires
                is_ceil_sqrt(qc as int, icy as int),
                qc as int <= 0x1000_0000_0000_0000,
        ;
        assert(icy >= 1) by (nonlinear_arith)
            requires
                is_ceil_sqrt(qc as int, icy as int),
                qc >= 1,
        ;
        assert(1 <= icy as int * cx as int <= 0x8000_0000int * 0x10_0000) by (nonlinear_arith)
            requires
                1 <= icy <= 0x8000_0000,
                1 <= cx <= 0x10_0000,
        ;
    }
    let icx: u64 = div_ceil_u64(icy * cx, cy);
    let cols: u64 = div_ceil_u64(w, icx);
    let rows_: u64 = div_ceil_u64(h, icy);
    proof {
        assert(cols as int * rows_ as int <= 0x10_0000int * 0x10_0000) by (nonlinear_arith)
            requires
                cols <= 0x10_0000,
                rows_ <= 0x10_0000,
        ;
    }
    if cols * rows_ > r {
        proof {
            assert(r as int * h as int * cx as int <= 0x10_0000_0000_0000int * 0x10_0000
                * 0x10_0000) by (nonlinear_arith)
                requires
                    r <= 0x10_0000_0000_0000,
                    h <= 0x10_0000,
                    cx <= 0x10_0000,
            ;
            assert(w as int * cy as int <= 0x10_0000int * 0x10_0000) by (nonlinear_arith)
                requires
                    w <= 0x10_0000,
                    cy <= 0x10_0000,
            ;
        }
        proof {
            assert(r as int * h as int <= 0x1000_0000_0000_0000_0000int && r as int * h as int
                * cx as int <= 0x1_0000_0000_0000_0000_0000_0000int) by (nonlinear_arith)
                requires
                    r <= 0x10_0000_0000_0000,
                    h <= 0x10_0000,
                    cx <= 0x10_0000,
            ;
            assert(1 <= w as int * cy as int) by (nonlinear_arith)
                requires
                    1 <= w,
                    1 <= cy,
            ;
        }
        let n2: u128 = (r as u128) * (h as u128) * (cx as u128);
        let k: u128 = (w as u128) * (cy as u128);
        let q2: u128 = n2 / k;
        proof {
            vstd::arithmetic::div_mod::lemma_div_is_ordered_by_denominator(n2 as int, 1, k as int);
            vstd::arithmetic::div_mod::lemma_div_basics(n2 as int);
        }
        let f: u64 = floor_sqrt(q2);
        proof {
            lemma_floor_sqrt_is(q2 as int, f as int);
        }
        if f == 0 {
            return (width, height);
        }
        let icy2: u64 = div_ceil_u64(h, f);
        proof {
            assert(1 <= icy2 as int * cx as int <= 0x10_0000int * 0x10_0000) by (nonlinear_arith)
                requires
                    1 <= icy2 <= 0x10_0000,
                    1 <= cx <= 0x10_0000,
            ;
        }
        let icx2: u64 = div_ceil_u64(icy2 * cx, cy);
        let rx: u64 = if icx2 < w {
            icx2
        } else {
            w
        };
        let ry: u64 = if icy2 < h {
            icy2
        } else {
            h
        };
        proof {
            assert(rx as int == min(icx2 as int, w as int));
            assert(ry as int == min(icy2 as int, h as int));
        }
        return (rx as usize, ry as usize);
    }
    let rx: u64 = if icx < w {
        icx
    } else {
        w
    };
    let ry: u64 = if icy < h {
        icy
    } else {
        h
    };
    proof {
        assert(rx as int == min(icx as int, w as int));
        assert(ry as int == min(icy as int, h as int));
    }
    (rx as usize, ry as usize)
}

} // verus!
