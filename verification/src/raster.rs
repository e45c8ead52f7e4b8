//! Rasterization of the UV-mapping buffer.
//!
//! Each frame cell is paired with a region cell of the same index. The pair's
//! destination rectangle interpolates between the two with the progress
//! ratio; every texel inside it receives the exact rational coordinate of the
//! frame-cell point it should sample, written as numerator and denominator.
//! Later pairs overwrite earlier ones, and an interpolated rectangle that is
//! empty on either axis writes nothing, so no division by a zero extent can
//! arise. Texels no pair touches stay unmapped.

use vstd::prelude::*;
use vstd::arithmetic::div_mod::{
    lemma_fundamental_div_mod,
    lemma_fundamental_div_mod_converse,
    lemma_div_is_ordered,
    lemma_div_by_multiple,
    lemma_mod_bound,
};
use crate::rect::Rect;
use crate::grid::MAX_DIM;

verus! {

/// One texel of the UV map. A mapped texel's normalized coordinates are
/// `U = u_num / (u_den * width)` and `V = v_num / (v_den * height)`; its
/// alpha is full. An unmapped texel is fully transparent.
#[derive(Clone, Copy, PartialEq, Eq, Structural, Debug)]
pub enum Texel {
    Unmapped,
    Mapped { u_num: u64, u_den: u64, v_num: u64, v_den: u64 },
}

/// The largest progress denominator accepted; keeps interpolation products
/// inside 64 bits.
pub const MAX_PROGRESS_DEN: u64 = 0x1_0000_0000;

/// The interpolated edge `a + (b - a) * pn/pd`, truncated to a whole texel
/// coordinate.
pub open spec fn lerp_edge(a: int, b: int, pn: int, pd: int) -> int {
    (a * (pd - pn) + b * pn) / pd
}

/// The destination rectangle of a pair: each edge interpolated independently
/// from the frame cell's edge towards the region cell's.
pub open spec fn current_rect(fc: Rect, rc: Rect, pn: int, pd: int) -> Rect {
    Rect {
        left: lerp_edge(fc.left as int, rc.left as int, pn, pd) as usize,
        top: lerp_edge(fc.top as int, rc.top as int, pn, pd) as usize,
        right: lerp_edge(fc.right as int, rc.right as int, pn, pd) as usize,
        bottom: lerp_edge(fc.bottom as int, rc.bottom as int, pn, pd) as usize,
    }
}

/// Whether the pair `(fc, rc)` writes the texel `(x, y)`.
pub open spec fn pair_covers(fc: Rect, rc: Rect, pn: int, pd: int, x: int, y: int) -> bool {
    let cur = current_rect(fc, rc, pn, pd);
    cur.left <= x < cur.right && cur.top <= y < cur.bottom
}

/// What the pair writes at `(x, y)`: the texel's proportional position in the
/// destination rectangle carried onto the same proportional position in the
/// frame cell, kept as an exact fraction.
pub open spec fn mapped_texel(fc: Rect, cur: Rect, x: int, y: int) -> Texel {
    Texel::Mapped {
        u_num: (fc.left * (cur.right - cur.left) + (x - cur.left) * (fc.right
            - fc.left)) as u64,
        u_den: (cur.right - cur.left) as u64,
        v_num: (fc.top * (cur.bottom - cur.top) + (y - cur.top) * (fc.bottom
            - fc.top)) as u64,
        v_den: (cur.bottom - cur.top) as u64,
    }
}

/// The texel at `(x, y)` after the first `n` pairs have drawn, the last
/// write winning.
pub open spec fn texel_after(
    fcs: Seq<Rect>,
    rcs: Seq<Rect>,
    pn: int,
    pd: int,
    n: int,
    x: int,
    y: int,
) -> Texel
    decreases n,
{
    if n <= 0 {
        Texel::Unmapped
    } else if pair_covers(fcs[n - 1], rcs[n - 1], pn, pd, x, y) {
        mapped_texel(fcs[n - 1], current_rect(fcs[n - 1], rcs[n - 1], pn, pd), x, y)
    } else {
        texel_after(fcs, rcs, pn, pd, n - 1, x, y)
    }
}

/// The whole row-major buffer: every texel as `texel_after` leaves it once
/// all pairs up to the shorter list's length have drawn.
pub open spec fn uv_buffer(
    fcs: Seq<Rect>,
    rcs: Seq<Rect>,
    pn: int,
    pd: int,
    width: int,
    height: int,
) -> Seq<Texel> {
    let n = vstd::math::min(fcs.len() as int, rcs.len() as int);
    Seq::new(
        (width * height) as nat,
        |idx: int| texel_after(fcs, rcs, pn, pd, n, idx % width, idx / width),
    )
}

/// An interpolated edge stays between the two edges it interpolates.
proof fn lemma_lerp_bounds(a: int, b: int, pn: int, pd: int)
    requires
        0 <= a,
        0 <= b,
        0 <= pn <= pd,
        1 <= pd,
    ensures
        vstd::math::min(a, b) <= lerp_edge(a, b, pn, pd) <= vstd::math::max(a, b),
{
    let lo = vstd::math::min(a, b);
    let hi = vstd::math::max(a, b);
    let num = a * (pd - pn) + b * pn;
    assert(lo * pd <= a * (pd - pn) + b * pn <= hi * pd) by (nonlinear_arith)
        requires
            0 <= pn <= pd,
            1 <= pd,
            lo <= a <= hi,
            lo <= b <= hi,
    ;
    lemma_div_is_ordered(lo * pd, num, pd);
    lemma_div_is_ordered(num, hi * pd, pd);
    lemma_div_by_multiple(lo, pd);
    lemma_div_by_multiple(hi, pd);
    assert(lo * pd == pd * lo && hi * pd == pd * hi) by (nonlinear_arith);
}

/// Interpolation keeps the order of edges: a pair of lower edges stays below
/// a pair of higher ones.
proof fn lemma_lerp_mono(a1: int, b1: int, a2: int, b2: int, pn: int, pd: int)
    requires
        0 <= a1 <= a2,
        0 <= b1 <= b2,
        0 <= pn <= pd,
        1 <= pd,
    ensures
        lerp_edge(a1, b1, pn, pd) <= lerp_edge(a2, b2, pn, pd),
{
    assert(a1 * (pd - pn) + b1 * pn <= a2 * (pd - pn) + b2 * pn) by (nonlinear_arith)
        requires
            0 <= pn <= pd,
            a1 <= a2,
            b1 <= b2,
    ;
    lemma_div_is_ordered(a1 * (pd - pn) + b1 * pn, a2 * (pd - pn) + b2 * pn, pd);
}

/// At progress zero the destination rectangle is the frame cell itself, and
/// every texel a pair writes samples exactly its own position: the written
/// fraction at `(x, y)` is `x / u_den` and `y / v_den`.
pub proof fn lemma_progress_zero(
    fcs: Seq<Rect>,
    rcs: Seq<Rect>,
    pd: int,
    width: int,
    height: int,
    n: int,
    x: int,
    y: int,
)
    requires
        1 <= pd,
        1 <= width <= MAX_DIM,
        1 <= height <= MAX_DIM,
        n <= fcs.len(),
        forall|i: int|
            0 <= i < fcs.len() ==> (#[trigger] fcs[i]).wf() && fcs[i].within_frame(width, height),
    ensures
        texel_after(fcs, rcs, 0, pd, n, x, y) matches Texel::Mapped {
            u_num,
            u_den,
            v_num,
            v_den,
        } ==> u_num == x * u_den && v_num == y * v_den,
    decreases n,
{
    if n > 0 {
        let fc = fcs[n - 1];
        let rc = rcs[n - 1];
        assert(fc.left * pd + rc.left * 0 == pd * (fc.left as int)) by (nonlinear_arith);
        assert(fc.top * pd + rc.top * 0 == pd * (fc.top as int)) by (nonlinear_arith);
        assert(fc.right * pd + rc.right * 0 == pd * (fc.right as int)) by (nonlinear_arith);
        assert(fc.bottom * pd + rc.bottom * 0 == pd * (fc.bottom as int)) by (nonlinear_arith);
        lemma_div_by_multiple(fc.left as int, pd);
        lemma_div_by_multiple(fc.top as int, pd);
        lemma_div_by_multiple(fc.right as int, pd);
        lemma_div_by_multiple(fc.bottom as int, pd);
        assert(current_rect(fc, rc, 0, pd) == fc);
        if pair_covers(fc, rc, 0, pd, x, y) {
            assert(fc.left * (fc.right - fc.left) + (x - fc.left) * (fc.right - fc.left) == x
                * (fc.right - fc.left)) by (nonlinear_arith);
            assert(fc.top * (fc.bottom - fc.top) + (y - fc.top) * (fc.bottom - fc.top) == y
                * (fc.bottom - fc.top)) by (nonlinear_arith);
            assert(0 <= x * (fc.right - fc.left) <= 0x10_0000int * 0x10_0000) by (nonlinear_arith)
                requires
                    0 <= x < fc.right <= 0x10_0000,
                    0 < fc.right - fc.left <= 0x10_0000,
            ;
            assert(0 <= y * (fc.bottom - fc.top) <= 0x10_0000int * 0x10_0000) by (nonlinear_arith)
                requires
                    0 <= y < fc.bottom <= 0x10_0000,
                    0 < fc.bottom - fc.top <= 0x10_0000,
            ;
        } else {
            lemma_progress_zero(fcs, rcs, pd, width, height, n - 1, x, y);
        }
    }
}

/// At full progress the destination rectangle of a pair is exactly its
/// region cell: the scrambled payload lands on the region, nowhere else.
pub proof fn lemma_progress_full_rect(fc: Rect, rc: Rect, pd: int)
    requires
        1 <= pd,
    ensures
        current_rect(fc, rc, pd, pd) == rc,
{
    assert(fc.left * (pd - pd) + rc.left * pd == pd * (rc.left as int)) by (nonlinear_arith);
    assert(fc.top * (pd - pd) + rc.top * pd == pd * (rc.top as int)) by (nonlinear_arith);
    assert(fc.right * (pd - pd) + rc.right * pd == pd * (rc.right as int)) by (nonlinear_arith);
    assert(fc.bottom * (pd - pd) + rc.bottom * pd == pd * (rc.bottom as int)) by (nonlinear_arith);
    lemma_div_by_multiple(rc.left as int, pd);
    lemma_div_by_multiple(rc.top as int, pd);
    lemma_div_by_multiple(rc.right as int, pd);
    lemma_div_by_multiple(rc.bottom as int, pd);
}

/// At full progress every texel a pair writes samples strictly from inside
/// the matched frame cell: the written fraction lies between the cell's
/// edges on both axes.
pub proof fn lemma_progress_full_sample(fc: Rect, rc: Rect, pd: int, x: int, y: int)
    requires
        1 <= pd,
        fc.wf(),
        rc.wf(),
        fc.right <= MAX_DIM,
        fc.bottom <= MAX_DIM,
        rc.right <= MAX_DIM,
        rc.bottom <= MAX_DIM,
        pair_covers(fc, rc, pd, pd, x, y),
    ensures
        mapped_texel(fc, current_rect(fc, rc, pd, pd), x, y) matches Texel::Mapped {
            u_num,
            u_den,
            v_num,
            v_den,
        } ==> 1 <= u_den && 1 <= v_den && fc.left * u_den <= u_num < fc.right * u_den && fc.top
            * v_den <= v_num < fc.bottom * v_den,
{
    lemma_progress_full_rect(fc, rc, pd);
    let du = rc.right - rc.left;
    let dv = rc.bottom - rc.top;
    assert(fc.left * du <= fc.left * du + (x - rc.left) * (fc.right - fc.left) && fc.left * du
        + (x - rc.left) * (fc.right - fc.left) < fc.right * du) by (nonlinear_arith)
        requires
            rc.left <= x < rc.right,
            fc.left < fc.right,
            du == rc.right - rc.left,
    ;
    assert(fc.top * dv <= fc.top * dv + (y - rc.top) * (fc.bottom - fc.top) && fc.top * dv + (y
        - rc.top) * (fc.bottom - fc.top) < fc.bottom * dv) by (nonlinear_arith)
        requires
            rc.top <= y < rc.bottom,
            fc.top < fc.bottom,
            dv == rc.bottom - rc.top,
    ;
    assert(0 <= fc.left * du + (x - rc.left) * (fc.right - fc.left) <= 0x10_0000int * 0x10_0000
        + 0x10_0000int * 0x10_0000) by (nonlinear_arith)
        requires
            0 <= fc.left <= 0x10_0000,
            0 < du <= 0x10_0000,
            0 <= x - rc.left <= 0x10_0000,
            0 < fc.right - fc.left <= 0x10_0000,
    ;
    assert(0 <= fc.top * dv + (y - rc.top) * (fc.bottom - fc.top) <= 0x10_0000int * 0x10_0000
        + 0x10_0000int * 0x10_0000) by (nonlinear_arith)
        requires
            0 <= fc.top <= 0x10_0000,
            0 < dv <= 0x10_0000,
            0 <= y - rc.top <= 0x10_0000,
            0 < fc.bottom - fc.top <= 0x10_0000,
    ;
}

/// Draws one pair into the buffer.
fn blit_pair(
    buf: &mut Vec<Texel>,
    fc: Rect,
    rc: Rect,
    pn: u64,
    pd: u64,
    width: usize,
    height: usize,
)
    requires
        fc.wf(),
        rc.wf(),
        fc.within_frame(width as int, height as int),
        rc.within_frame(width as int, height as int),
        1 <= width <= MAX_DIM,
        1 <= height <= MAX_DIM,
        1 <= pd <= MAX_PROGRESS_DEN,
        pn <= pd,
        width as int * height as int <= usize::MAX,
        old(buf)@.len() == width as int * height as int,
    ensures
        final(buf)@.len() == old(buf)@.len(),
        forall|idx: int|
            0 <= idx < old(buf)@.len() ==> final(buf)@[idx] == (if pair_covers(
                fc,
                rc,
                pn as int,
                pd as int,
                idx % (width as int),
                idx / (width as int),
            ) {
                mapped_texel(
                    fc,
                    current_rect(fc, rc, pn as int, pd as int),
                    idx % (width as int),
                    idx / (width as int),
                )
            } else {
                old(buf)@[idx]
            }),
{
    let ghost cur = current_rect(fc, rc, pn as int, pd as int);
    let ghost prev = buf@;
    let ghost w = width as int;
    let pdm: u64 = pd - pn;
    proof {
        assert(fc.left * pdm + rc.left * pn <= 0x10_0000int * 0x1_0000_0000
            + 0x10_0000int * 0x1_0000_0000) by (nonlinear_arith)
            requires
                fc.left <= 0x10_0000,
                rc.left <= 0x10_0000,
                pdm <= 0x1_0000_0000,
                pn <= 0x1_0000_0000,
        ;
        assert(fc.top * pdm + rc.top * pn <= 0x10_0000int * 0x1_0000_0000 + 0x10_0000int
            * 0x1_0000_0000) by (nonlinear_arith)
            requires
                fc.top <= 0x10_0000,
                rc.top <= 0x10_0000,
                pdm <= 0x1_0000_0000,
                pn <= 0x1_0000_0000,
        ;
        assert(fc.right * pdm + rc.right * pn <= 0x10_0000int * 0x1_0000_0000 + 0x10_0000int
            * 0x1_0000_0000) by (nonlinear_arith)
            requires
                fc.right <= 0x10_0000,
                rc.right <= 0x10_0000,
                pdm <= 0x1_0000_0000,
                pn <= 0x1_0000_0000,
        ;
        assert(fc.bottom * pdm + rc.bottom * pn <= 0x10_0000int * 0x1_0000_0000 + 0x10_0000int
            * 0x1_0000_0000) by (nonlinear_arith)
            requires
                fc.bottom <= 0x10_0000,
                rc.bottom <= 0x10_0000,
                pdm <= 0x1_0000_0000,
                pn <= 0x1_0000_0000,
        ;
        lemma_lerp_bounds(fc.left as int, rc.left as int, pn as int, pd as int);
        lemma_lerp_bounds(fc.top as int, rc.top as int, pn as int, pd as int);
        lemma_lerp_bounds(fc.right as int, rc.right as int, pn as int, pd as int);
        lemma_lerp_bounds(fc.bottom as int, rc.bottom as int, pn as int, pd as int);
        lemma_lerp_mono(
            fc.left as int,
            rc.left as int,
            fc.right as int,
            rc.right as int,
            pn as int,
            pd as int,
        );
        lemma_lerp_mono(
            fc.top as int,
            rc.top as int,
            fc.bottom as int,
            rc.bottom as int,
            pn as int,
            pd as int,
        );
    }
    let cl: usize = (((fc.left as u64) * pdm + (rc.left as u64) * pn) / pd) as usize;
    let ct: usize = (((fc.top as u64) * pdm + (rc.top as u64) * pn) / pd) as usize;
    let cr: usize = (((fc.right as u64) * pdm + (rc.right as u64) * pn) / pd) as usize;
    let cb: usize = (((fc.bottom as u64) * pdm + (rc.bottom as u64) * pn) / pd) as usize;
    proof {
        assert(cl == cur.left && ct == cur.top && cr == cur.right && cb == cur.bottom);
        assert(cl <= cr <= width && ct <= cb <= height);
    }
    let mut y: usize = ct;
    while y < cb
        invariant
            ct <= y <= cb,
            cl == cur.left && ct == cur.top && cr == cur.right && cb == cur.bottom,
            cl <= cr <= width && ct <= cb <= height,
            1 <= width <= MAX_DIM,
            1 <= height <= MAX_DIM,
            fc.wf(),
            fc.within_frame(width as int, height as int),
            width as int * height as int <= usize::MAX,
            w == width as int,
            buf@.len() == w * height as int,
            prev.len() == buf@.len(),
            cur == current_rect(fc, rc, pn as int, pd as int),
            forall|idx: int|
                0 <= idx < buf@.len() ==> buf@[idx] == (if cur.left <= idx % w < cur.right
                    && cur.top <= idx / w < y {
                    mapped_texel(fc, cur, idx % w, idx / w)
                } else {
                    prev[idx]
                }),
        decreases cb - y,
    {
        let mut x: usize = cl;
        while x < cr
            invariant
                cl <= x <= cr,
                ct <= y < cb,
                cl == cur.left && ct == cur.top && cr == cur.right && cb == cur.bottom,
                cl <= cr <= width && ct <= cb <= height,
                1 <= width <= MAX_DIM,
                1 <= height <= MAX_DIM,
                fc.wf(),
                fc.within_frame(width as int, height as int),
                width as int * height as int <= usize::MAX,
                w == width as int,
                buf@.len() == w * height as int,
                prev.len() == buf@.len(),
                cur == current_rect(fc, rc, pn as int, pd as int),
                forall|idx: int|
                    0 <= idx < buf@.len() ==> buf@[idx] == (if cur.left <= idx % w < cur.right
                        && (cur.top <= idx / w < y || (idx / w == y && idx % w < x)) {
                        mapped_texel(fc, cur, idx % w, idx / w)
                    } else {
                        prev[idx]
                    }),
            decreases cr - x,
        {
            proof {
                assert(y as int * w + x < w * height as int && y as int * w + x >= 0)
                    by (nonlinear_arith)
                    requires
                        0 <= y < height as int,
                        0 <= x < w,
                        w >= 1,
                ;
                assert(fc.left * (cr - cl) + (x - cl) * (fc.right - fc.left) <= 0x10_0000int
                    * 0x10_0000 + 0x10_0000int * 0x10_0000) by (nonlinear_arith)
                    requires
                        0 <= fc.left <= 0x10_0000,
                        0 <= cr - cl <= 0x10_0000,
                        0 <= x - cl <= 0x10_0000,
                        0 <= fc.right - fc.left <= 0x10_0000,
                ;
                assert(fc.top * (cb - ct) + (y - ct) * (fc.bottom - fc.top) <= 0x10_0000int
                    * 0x10_0000 + 0x10_0000int * 0x10_0000) by (nonlinear_arith)
                    requires
                        0 <= fc.top <= 0x10_0000,
                        0 <= cb - ct <= 0x10_0000,
                        0 <= y - ct <= 0x10_0000,
                        0 <= fc.bottom - fc.top <= 0x10_0000,
                ;
            }
            let idx: usize = y * width + x;
            proof {
                lemma_fundamental_div_mod_converse(y as int * w + x, w, y as int, x as int);
            }
            let un: u64 = (fc.left as u64) * ((cr - cl) as u64) + ((x - cl) as u64) * ((fc.right
                - fc.left) as u64);
            let vn: u64 = (fc.top as u64) * ((cb - ct) as u64) + ((y - ct) as u64) * ((fc.bottom
                - fc.top) as u64);
            let t = Texel::Mapped { u_num: un, u_den: (cr - cl) as u64, v_num: vn, v_den: (cb
                - ct) as u64 };
            proof {
                assert(t == mapped_texel(fc, cur, x as int, y as int));
            }
            let ghost bufpre = buf@;
            buf[idx] = t;
            proof {
                assert forall|idx2: int| 0 <= idx2 < buf@.len() implies buf@[idx2] == (if cur.left
                    <= idx2 % w < cur.right && (cur.top <= idx2 / w < y || (idx2 / w == y && idx2
                    % w < x + 1)) {
                    mapped_texel(fc, cur, idx2 % w, idx2 / w)
                } else {
                    prev[idx2]
                }) by {
                    lemma_fundamental_div_mod(idx2, w);
                    lemma_mod_bound(idx2, w);
                    if idx2 == idx {
                        assert(idx2 % w == x as int && idx2 / w == y as int);
                        assert(buf@[idx2] == t);
                        assert(cur.left <= idx2 % w < cur.right);
                    } else {
                        assert(buf@[idx2] == bufpre[idx2]);
                        assert(idx2 == w * (idx2 / w) + idx2 % w);
                        if idx2 / w == y as int && idx2 % w == x as int {
                            assert(w * (y as int) == (y as int) * w) by (nonlinear_arith);
                            assert(idx == y as int * w + x as int);
                            assert(false);
                        }
                    }
                }
            }
            x = x + 1;
        }
        proof {
            assert forall|idx2: int| 0 <= idx2 < buf@.len() implies buf@[idx2] == (if cur.left
                <= idx2 % w < cur.right && cur.top <= idx2 / w < y + 1 {
                mapped_texel(fc, cur, idx2 % w, idx2 / w)
            } else {
                prev[idx2]
            }) by {
                lemma_fundamental_div_mod(idx2, w);
                lemma_mod_bound(idx2, w);
            }
        }
        y = y + 1;
    }
    proof {
        assert forall|idx: int| 0 <= idx < buf@.len() implies buf@[idx] == (if pair_covers(
            fc,
            rc,
            pn as int,
            pd as int,
            idx % w,
            idx / w,
        ) {
            mapped_texel(fc, cur, idx % w, idx / w)
        } else {
            prev[idx]
        }) by {
            lemma_mod_bound(idx, w);
            lemma_fundamental_div_mod(idx, w);
        }
    }
}

/// Rasterizes the paired cell lists into a `width * height` row-major
/// buffer. Pairs beyond the shorter list are dropped; texels outside every
/// destination rectangle stay unmapped.
pub fn rasterize(
    frame_cells: &Vec<Rect>,
    region_cells: &Vec<Rect>,
    progress_num: u64,
    progress_den: u64,
    width: usize,
    height: usize,
) -> (buf: Vec<Texel>)
    requires
        1 <= width <= MAX_DIM,
        1 <= height <= MAX_DIM,
        width as int * height as int <= usize::MAX,
        1 <= progress_den <= MAX_PROGRESS_DEN,
        progress_num <= progress_den,
        forall|i: int|
            0 <= i < frame_cells@.len() ==> (#[trigger] frame_cells@[i]).wf()
                && frame_cells@[i].within_frame(width as int, height as int),
        forall|i: int|
            0 <= i < region_cells@.len() ==> (#[trigger] region_cells@[i]).wf()
                && region_cells@[i].within_frame(width as int, height as int),
    ensures
        buf@ == uv_buffer(
            frame_cells@,
            region_cells@,
            progress_num as int,
            progress_den as int,
            width as int,
            height as int,
        ),
        buf@.len() == width as int * height as int,
{
    let ghost w = width as int;
    let ghost target = uv_buffer(
        frame_cells@,
        region_cells@,
        progress_num as int,
        progress_den as int,
        width as int,
        height as int,
    );
    proof {
        assert(width as int * height as int >= 0) by (nonlinear_arith)
            requires
                width >= 1,
                height >= 1,
        ;
    }
    let total: usize = width * height;
    let mut buf: Vec<Texel> = Vec::new();
    let mut k: usize = 0;
    while k < total
        invariant
            0 <= k <= total,
            buf@.len() == k,
            forall|idx: int| 0 <= idx < k ==> buf@[idx] == Texel::Unmapped,
        decreases total - k,
    {
        buf.push(Texel::Unmapped);
        k = k + 1;
    }
    let count: usize = if frame_cells.len() < region_cells.len() {
        frame_cells.len()
    } else {
        region_cells.len()
    };
    let mut i: usize = 0;
    while i < count
        invariant
            0 <= i <= count,
            count == vstd::math::min(frame_cells@.len() as int, region_cells@.len() as int),
            1 <= width <= MAX_DIM,
            1 <= height <= MAX_DIM,
            1 <= progress_den <= MAX_PROGRESS_DEN,
            progress_num <= progress_den,
            width as int * height as int <= usize::MAX,
            w == width as int,
            buf@.len() == w * height as int,
            forall|j: int|
                0 <= j < frame_cells@.len() ==> (#[trigger] frame_cells@[j]).wf()
                    && frame_cells@[j].within_frame(width as int, height as int),
            forall|j: int|
                0 <= j < region_cells@.len() ==> (#[trigger] region_cells@[j]).wf()
                    && region_cells@[j].within_frame(width as int, height as int),
            forall|idx: int|
                0 <= idx < buf@.len() ==> buf@[idx] == texel_after(
                    frame_cells@,
                    region_cells@,
                    progress_num as int,
                    progress_den as int,
                    i as int,
                    idx % w,
                    idx / w,
                ),
        decreases count - i,
    {
        let fc = frame_cells[i];
        let rc = region_cells[i];
        blit_pair(&mut buf, fc, rc, progress_num, progress_den, width, height);
        proof {
            assert forall|idx: int| 0 <= idx < buf@.len() implies buf@[idx] == texel_after(
                frame_cells@,
                region_cells@,
                progress_num as int,
                progress_den as int,
                i + 1,
                idx % w,
                idx / w,
            ) by {
            }
        }
        i = i + 1;
    }
    proof {
        assert(buf@ =~= target);
    }
    buf
}

} // verus!
