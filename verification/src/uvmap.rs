//! The full UV-map computation.
//!
//! Region cells come from partitioning every region with the configured cell
//! size, concatenated in declaration order. Their count feeds the cell-size
//! solver; the whole frame is partitioned with the solved size, the frame
//! cells are shuffled with the seed, and the rasterizer pairs both lists into
//! the output buffer. The buffer is a function of the parameters alone, so
//! equal parameters always produce the identical buffer.

use vstd::prelude::*;
use vstd::arithmetic::div_mod::{lemma_div_nonincreasing, lemma_div_pos_is_pos};
use crate::rect::Rect;
use crate::grid::{partition, partition_cells, span_cells, lemma_partition_cells_wf, MAX_DIM};
use crate::parse::{parse_regions, regions_of, RegionIssue};
use crate::seed::{seed_of, string_to_seed};
use crate::solver::{solve_cell_size, solved_cell_size, MAX_CELL_COUNT};
use crate::shuffle::{shuffle, shuffled, lemma_shuffle_permutes};
use crate::raster::{rasterize, uv_buffer, Texel, MAX_PROGRESS_DEN};

verus! {

/// The most regions one call accepts; keeps the total region-cell count
/// inside the solver's range.
pub const MAX_REGIONS: usize = 0x1000;

/// The destination cells of all regions, partitioned one region at a time
/// and concatenated in declaration order.
pub open spec fn region_cells_of(regions: Seq<Rect>, cx: int, cy: int) -> Seq<Rect>
    decreases regions.len(),
{
    if regions.len() == 0 {
        Seq::empty()
    } else {
        region_cells_of(regions.drop_last(), cx, cy) + partition_cells(regions.last(), cx, cy)
    }
}

/// The buffer the whole computation produces for the given parameters.
pub open spec fn uv_map_spec(
    seed: u32,
    width: int,
    height: int,
    cx: int,
    cy: int,
    regions: Seq<Rect>,
    pn: int,
    pd: int,
) -> Seq<Texel> {
    let rcells = region_cells_of(regions, cx, cy);
    let size = solved_cell_size(rcells.len() as int, width, height, cx, cy);
    let frame = Rect { left: 0, top: 0, right: width as usize, bottom: height as usize };
    let fcells = shuffled(partition_cells(frame, size.0, size.1), seed);
    uv_buffer(fcells, rcells, pn, pd, width, height)
}

/// A partition of a bounded rectangle has a bounded cell count.
proof fn lemma_partition_count_bound(r: Rect, cw: int, ch: int)
    requires
        r.wf(),
        cw >= 1,
        ch >= 1,
        r.right <= MAX_DIM,
        r.bottom <= MAX_DIM,
    ensures
        partition_cells(r, cw, ch).len() <= 0x100_0000_0000,
{
    let cols = span_cells(r.left as int, r.right as int, cw);
    let rows = span_cells(r.top as int, r.bottom as int, ch);
    lemma_div_nonincreasing(r.right as int - 1, cw);
    lemma_div_pos_is_pos(r.left as int, cw);
    lemma_div_nonincreasing(r.bottom as int - 1, ch);
    lemma_div_pos_is_pos(r.top as int, ch);
    assert(cols >= 1 && rows >= 1) by {
        vstd::arithmetic::div_mod::lemma_div_is_ordered(r.left as int, r.right as int - 1, cw);
        vstd::arithmetic::div_mod::lemma_div_is_ordered(r.top as int, r.bottom as int - 1, ch);
    }
    assert(rows * cols <= 0x10_0000int * 0x10_0000) by (nonlinear_arith)
        requires
            1 <= cols <= 0x10_0000,
            1 <= rows <= 0x10_0000,
    ;
}

/// Every cell of the concatenated region partitions is well formed and lies
/// inside the frame, provided every region does.
pub proof fn lemma_region_cells_wf(
    regions: Seq<Rect>,
    cx: int,
    cy: int,
    width: int,
    height: int,
    j: int,
)
    requires
        cx >= 1,
        cy >= 1,
        forall|i: int|
            0 <= i < regions.len() ==> (#[trigger] regions[i]).wf() && regions[i].within_frame(
                width,
                height,
            ),
        0 <= j < region_cells_of(regions, cx, cy).len(),
    ensures
        region_cells_of(regions, cx, cy)[j].wf(),
        region_cells_of(regions, cx, cy)[j].within_frame(width, height),
    decreases regions.len(),
{
    let prefix = region_cells_of(regions.drop_last(), cx, cy);
    if j < prefix.len() {
        lemma_region_cells_wf(regions.drop_last(), cx, cy, width, height, j);
    } else {
        let r = regions.last();
        lemma_partition_cells_wf(r, cx, cy, j - prefix.len());
    }
}

/// A reordering that keeps the multiset of cells keeps them well formed and
/// inside the frame.
proof fn lemma_permutation_keeps_frame(s: Seq<Rect>, t: Seq<Rect>, width: int, height: int)
    requires
        t.to_multiset() == s.to_multiset(),
        forall|i: int|
            0 <= i < s.len() ==> (#[trigger] s[i]).wf() && s[i].within_frame(width, height),
    ensures
        forall|i: int|
            0 <= i < t.len() ==> (#[trigger] t[i]).wf() && t[i].within_frame(width, height),
{
    assert forall|i: int|
        0 <= i < t.len() implies (#[trigger] t[i]).wf() && t[i].within_frame(width, height) by {
        assert(t.contains(t[i]));
        vstd::seq_lib::to_multiset_contains(t, t[i]);
        vstd::seq_lib::to_multiset_contains(s, t[i]);
        assert(s.contains(t[i]));
        let k = choose|k: int| 0 <= k < s.len() && s[k] == t[i];
        assert(s[k].wf());
    }
}

/// Two buffers computed from the same parameters are the same buffer: the
/// computation depends on nothing else.
pub proof fn lemma_uv_map_deterministic(
    b1: Seq<Texel>,
    b2: Seq<Texel>,
    seed: u32,
    width: int,
    height: int,
    cx: int,
    cy: int,
    regions: Seq<Rect>,
    pn: int,
    pd: int,
)
    requires
        b1 == uv_map_spec(seed, width, height, cx, cy, regions, pn, pd),
        b2 == uv_map_spec(seed, width, height, cx, cy, regions, pn, pd),
    ensures
        b1 == b2,
{
}

/// The recovery policy around parsing: a failed parse, like an empty region
/// list, falls back to one region spanning the whole frame.
pub fn regions_or_full_frame(
    parsed: Result<Vec<Rect>, crate::parse::ParseError>,
    width: usize,
    height: usize,
) -> (r: Vec<Rect>)
    requires
        1 <= width,
        1 <= height,
    ensures
        r@ == (match parsed {
            Ok(v) => if v@.len() > 0 {
                v@
            } else {
                seq![Rect { left: 0, top: 0, right: width, bottom: height }]
            },
            Err(_) => seq![Rect { left: 0, top: 0, right: width, bottom: height }],
        }),
{
    let full = Rect { left: 0, top: 0, right: width, bottom: height };
    match parsed {
        Ok(v) => {
            if v.len() > 0 {
                v
            } else {
                let mut r: Vec<Rect> = Vec::new();
                r.push(full);
                proof {
                    assert(r@ =~= seq![full]);
                }
                r
            }
        },
        Err(_) => {
            let mut r: Vec<Rect> = Vec::new();
            r.push(full);
            proof {
                assert(r@ =~= seq![full]);
            }
            r
        },
    }
}

/// Whether a region list meets what `generate_uv_map` asks of it: not more
/// regions than accepted, each well formed and inside the frame.
pub fn regions_valid(regions: &Vec<Rect>, width: usize, height: usize) -> (ok: bool)
    ensures
        ok == (regions@.len() <= MAX_REGIONS && forall|i: int|
            0 <= i < regions@.len() ==> (#[trigger] regions@[i]).wf()
                && regions@[i].within_frame(width as int, height as int)),
{
    let n: usize = regions.len();
    if n > MAX_REGIONS {
        return false;
    }
    for i in 0..n
        invariant
            n == regions@.len(),
            forall|j: int|
                0 <= j < i ==> (#[trigger] regions@[j]).wf() && regions@[j].within_frame(
                    width as int,
                    height as int,
                ),
    {
        let r = regions[i];
        if !(r.left < r.right && r.top < r.bottom && r.right <= width && r.bottom <= height) {
            return false;
        }
    }
    true
}

/// Computes the UV-mapping texture: `width * height` texels, row-major. The
/// progress ratio `progress_num / progress_den` interpolates between the
/// identity mapping (zero) and the fully scrambled one (one).
pub fn generate_uv_map(
    seed: u32,
    width: usize,
    height: usize,
    cell_size_x: usize,
    cell_size_y: usize,
    regions: &Vec<Rect>,
    progress_num: u64,
    progress_den: u64,
) -> (buf: Vec<Texel>)
    requires
        1 <= width <= MAX_DIM,
        1 <= height <= MAX_DIM,
        1 <= cell_size_x <= MAX_DIM,
        1 <= cell_size_y <= MAX_DIM,
        width as int * height as int <= usize::MAX,
        regions@.len() <= MAX_REGIONS,
        forall|i: int|
            0 <= i < regions@.len() ==> (#[trigger] regions@[i]).wf()
                && regions@[i].within_frame(width as int, height as int),
        1 <= progress_den <= MAX_PROGRESS_DEN,
        progress_num <= progress_den,
    ensures
        buf@ == uv_map_spec(
            seed,
            width as int,
            height as int,
            cell_size_x as int,
            cell_size_y as int,
            regions@,
            progress_num as int,
            progress_den as int,
        ),
        buf@.len() == width as int * height as int,
{
    let ghost cx = cell_size_x as int;
    let ghost cy = cell_size_y as int;
    let mut rcells: Vec<Rect> = Vec::new();
    let rn: usize = regions.len();
    proof {
        assert(regions@.take(0) =~= Seq::<Rect>::empty());
    }
    for i in 0..rn
        invariant
            rn == regions@.len() <= MAX_REGIONS,
            1 <= width <= MAX_DIM,
            1 <= height <= MAX_DIM,
            1 <= cell_size_x <= MAX_DIM,
            1 <= cell_size_y <= MAX_DIM,
            cx == cell_size_x as int,
            cy == cell_size_y as int,
            forall|j: int|
                0 <= j < regions@.len() ==> (#[trigger] regions@[j]).wf()
                    && regions@[j].within_frame(width as int, height as int),
            rcells@ == region_cells_of(regions@.take(i as int), cx, cy),
            rcells@.len() <= i * 0x100_0000_0000,
    {
        let region = regions[i];
        let mut part = partition(region, cell_size_x, cell_size_y);
        proof {
            lemma_partition_count_bound(region, cx, cy);
        }
        let ghost pre = rcells@;
        rcells.append(&mut part);
        proof {
            assert(regions@.take(i + 1).drop_last() =~= regions@.take(i as int));
            assert(regions@.take(i + 1).last() == regions@[i as int]);
            assert(rcells@ == region_cells_of(regions@.take(i + 1), cx, cy));
            assert(rcells@.len() <= (i + 1) * 0x100_0000_0000) by (nonlinear_arith)
                requires
                    rcells@.len() <= pre.len() + 0x100_0000_0000,
                    pre.len() <= i * 0x100_0000_0000,
                    i >= 0,
            ;
        }
    }
    proof {
        assert(regions@.take(rn as int) =~= regions@);
        assert(rcells@.len() <= MAX_REGIONS * 0x100_0000_0000) by (nonlinear_arith)
            requires
                rcells@.len() <= rn as int * 0x100_0000_0000,
                rn <= MAX_REGIONS,
        ;
        assert(MAX_REGIONS * 0x100_0000_0000 == MAX_CELL_COUNT as int);
    }
    let count: usize = rcells.len();
    let size = solve_cell_size(count, width, height, cell_size_x, cell_size_y);
    let frame = Rect { left: 0, top: 0, right: width, bottom: height };
    let mut fcells = partition(frame, size.0, size.1);
    let ghost unshuffled = fcells@;
    shuffle(&mut fcells, seed);
    proof {
        assert forall|j: int|
            0 <= j < unshuffled.len() implies (#[trigger] unshuffled[j]).wf()
            && unshuffled[j].within_frame(width as int, height as int) by {
            lemma_partition_cells_wf(frame, size.0 as int, size.1 as int, j);
        }
        lemma_shuffle_permutes(unshuffled, seed);
        lemma_permutation_keeps_frame(unshuffled, fcells@, width as int, height as int);
        assert forall|j: int|
            0 <= j < rcells@.len() implies (#[trigger] rcells@[j]).wf()
            && rcells@[j].within_frame(width as int, height as int) by {
            lemma_region_cells_wf(regions@, cx, cy, width as int, height as int, j);
        }
    }
    rasterize(&fcells, &rcells, progress_num, progress_den, width, height)
}

/// The regions an update works with: what the region text parses to, unless
/// that fails or is empty, in which case one region spanning the frame.
pub open spec fn fallback_regions(
    parsed: Result<Seq<Rect>, RegionIssue>,
    width: int,
    height: int,
) -> Seq<Rect> {
    let full = Rect { left: 0, top: 0, right: width as usize, bottom: height as usize };
    match parsed {
        Ok(v) => if v.len() > 0 {
            v
        } else {
            seq![full]
        },
        Err(_) => seq![full],
    }
}

/// Whether a region list meets what `generate_uv_map` asks of it.
pub open spec fn regions_ok(regions: Seq<Rect>, width: int, height: int) -> bool {
    regions.len() <= MAX_REGIONS && forall|i: int|
        0 <= i < regions.len() ==> (#[trigger] regions[i]).wf() && regions[i].within_frame(
            width,
            height,
        )
}

/// One whole configuration update: derives the seed from its text, reads the
/// region text with the full-frame fallback, and computes the texture. The
/// update yields nothing exactly when the regions it ends up with do not fit
/// the frame.
pub fn update_texture(
    seed_text: &[u8],
    regions_text: &[u8],
    width: usize,
    height: usize,
    cell_size_x: usize,
    cell_size_y: usize,
    progress_num: u64,
    progress_den: u64,
) -> (r: Option<Vec<Texel>>)
    requires
        1 <= width <= MAX_DIM,
        1 <= height <= MAX_DIM,
        1 <= cell_size_x <= MAX_DIM,
        1 <= cell_size_y <= MAX_DIM,
        width as int * height as int <= usize::MAX,
        1 <= progress_den <= MAX_PROGRESS_DEN,
        progress_num <= progress_den,
    ensures
        ({
            let regions = fallback_regions(
                regions_of(regions_text@),
                width as int,
                height as int,
            );
            match r {
                Some(buf) => regions_ok(regions, width as int, height as int) && buf@
                    == uv_map_spec(
                    seed_of(seed_text@),
                    width as int,
                    height as int,
                    cell_size_x as int,
                    cell_size_y as int,
                    regions,
                    progress_num as int,
                    progress_den as int,
                ),
                None => !regions_ok(regions, width as int, height as int),
            }
        }),
{
    let seed = string_to_seed(seed_text);
    let regions = regions_or_full_frame(parse_regions(regions_text), width, height);
    proof {
        assert(regions@ == fallback_regions(
            regions_of(regions_text@),
            width as int,
            height as int,
        ));
    }
    if !regions_valid(&regions, width, height) {
        return None;
    }
    Some(
        generate_uv_map(
            seed,
            width,
            height,
            cell_size_x,
            cell_size_y,
            &regions,
            progress_num,
            progress_den,
        ),
    )
}

} // verus!
