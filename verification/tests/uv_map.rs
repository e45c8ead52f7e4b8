use uv_map::parse::{parse_regions, ParseError};
use uv_map::rect::Rect;
use uv_map::raster::Texel;
use uv_map::seed::{hashcode, prng, string_to_seed};
use uv_map::shuffle::shuffle;
use uv_map::grid::partition;
use uv_map::solver::solve_cell_size;
use uv_map::uvmap::{generate_uv_map, regions_or_full_frame, regions_valid, update_texture};

fn rect(left: usize, top: usize, right: usize, bottom: usize) -> Rect {
    Rect { left, top, right, bottom }
}

#[test]
fn hashcode_abc() {
    assert_eq!(hashcode(b"abc"), 96354);
}

#[test]
fn hashcode_empty() {
    assert_eq!(hashcode(b""), 0);
}

#[test]
fn hashcode_wraps() {
    // long inputs exercise the 32-bit wraparound
    let h = hashcode(b"aaaaaaaaaaaaaaaaaaaaaaaa");
    let mut expected: u32 = 0;
    for b in b"aaaaaaaaaaaaaaaaaaaaaaaa" {
        expected = expected.wrapping_mul(31).wrapping_add(*b as u32);
    }
    assert_eq!(h, expected);
}

#[test]
fn seed_from_digits() {
    assert_eq!(string_to_seed(b"12345"), 12345);
    assert_eq!(string_to_seed(b"0"), 0);
}

#[test]
fn seed_falls_back_on_letters() {
    assert_eq!(string_to_seed(b"abc"), 96354);
}

#[test]
fn seed_falls_back_on_long_input() {
    // eleven bytes: hashed even though they are all digits
    assert_eq!(string_to_seed(b"12345678901"), hashcode(b"12345678901"));
}

#[test]
fn seed_falls_back_on_overflow() {
    // 2^32 does not fit in 32 bits; 2^32 - 1 does
    assert_eq!(string_to_seed(b"4294967296"), hashcode(b"4294967296"));
    assert_eq!(string_to_seed(b"4294967295"), 4294967295);
}

#[test]
fn prng_first_draw() {
    let mut state: u32 = 0;
    let r = prng(&mut state);
    assert_eq!(state, 12345);
    assert_eq!(r, 12345);
}

#[test]
fn prng_reproducible() {
    let mut a: u32 = 7;
    let mut b: u32 = 7;
    for _ in 0..100 {
        let ra = prng(&mut a);
        let rb = prng(&mut b);
        assert_eq!(ra, rb);
        assert!(ra <= 0x7fffffff);
    }
    assert_eq!(a, b);
}

#[test]
fn shuffle_is_permutation() {
    let mut list: Vec<u32> = (0..10).collect();
    shuffle(&mut list, 42);
    assert_eq!(list.len(), 10);
    let mut sorted = list.clone();
    sorted.sort();
    let expected: Vec<u32> = (0..10).collect();
    assert_eq!(sorted, expected);
}

#[test]
fn shuffle_single_element_unchanged() {
    for seed in [0u32, 1, 42, 0xffffffff] {
        let mut list = vec![99u32];
        shuffle(&mut list, seed);
        assert_eq!(list, vec![99u32]);
    }
}

#[test]
fn shuffle_empty_unchanged() {
    let mut list: Vec<u32> = vec![];
    shuffle(&mut list, 5);
    assert!(list.is_empty());
}

#[test]
fn shuffle_matches_forward_pass() {
    // the documented algorithm, replayed with the public generator
    let mut list: Vec<u32> = (0..8).collect();
    shuffle(&mut list, 3);
    let mut expected: Vec<u32> = (0..8).collect();
    let mut state: u32 = 3;
    let len = expected.len();
    for i in 0..len {
        let r = prng(&mut state) as usize;
        expected.swap(i, i + r % (len - i));
    }
    assert_eq!(list, expected);
}

#[test]
fn shuffle_deterministic() {
    let mut a: Vec<u32> = (0..32).collect();
    let mut b: Vec<u32> = (0..32).collect();
    shuffle(&mut a, 1234);
    shuffle(&mut b, 1234);
    assert_eq!(a, b);
}

#[test]
fn parse_single_region() {
    let r = parse_regions(b"[0,0,4,4]").unwrap();
    assert_eq!(r, vec![rect(0, 0, 4, 4)]);
}

#[test]
fn parse_empty_input() {
    let r = parse_regions(b"").unwrap();
    assert!(r.is_empty());
}

#[test]
fn parse_three_fields_is_error() {
    let e = parse_regions(b"[0,0,4]").unwrap_err();
    match e {
        ParseError::MissingFields { segment } => assert_eq!(segment, b"0,0,4".to_vec()),
        ParseError::InvalidNumber { .. } => panic!("wrong error variant"),
    }
}

#[test]
fn parse_letters_is_error() {
    let e = parse_regions(b"[a,b,c,d]").unwrap_err();
    match e {
        ParseError::InvalidNumber { segment } => assert_eq!(segment, b"a,b,c,d".to_vec()),
        ParseError::MissingFields { .. } => panic!("wrong error variant"),
    }
}

#[test]
fn parse_several_regions() {
    let r = parse_regions(b"[0,0,1920,100],[0,100,200,800]").unwrap();
    assert_eq!(r, vec![rect(0, 0, 1920, 100), rect(0, 100, 200, 800)]);
}

#[test]
fn parse_tolerates_whitespace() {
    let r = parse_regions(b" [ 1 , 2 , 3 , 4 ] ").unwrap();
    assert_eq!(r, vec![rect(1, 2, 3, 4)]);
}

#[test]
fn parse_first_error_wins() {
    let e = parse_regions(b"[1,2,3],[x,0,0,0]").unwrap_err();
    match e {
        ParseError::MissingFields { segment } => assert_eq!(segment, b"1,2,3".to_vec()),
        ParseError::InvalidNumber { .. } => panic!("wrong error variant"),
    }
}

#[test]
fn partition_aligned_square() {
    let cells = partition(rect(0, 0, 4, 4), 2, 2);
    assert_eq!(
        cells,
        vec![rect(0, 0, 2, 2), rect(2, 0, 4, 2), rect(0, 2, 2, 4), rect(2, 2, 4, 4)]
    );
}

#[test]
fn partition_misaligned_rect() {
    // grid lines stay anchored at multiples of the cell size
    let cells = partition(rect(1, 1, 4, 4), 2, 2);
    assert_eq!(
        cells,
        vec![rect(1, 1, 2, 2), rect(2, 1, 4, 2), rect(1, 2, 2, 4), rect(2, 2, 4, 4)]
    );
}

#[test]
fn partition_clips_boundary_cells() {
    let cells = partition(rect(0, 0, 5, 3), 2, 2);
    assert_eq!(
        cells,
        vec![
            rect(0, 0, 2, 2),
            rect(2, 0, 4, 2),
            rect(4, 0, 5, 2),
            rect(0, 2, 2, 3),
            rect(2, 2, 4, 3),
            rect(4, 2, 5, 3)
        ]
    );
}

#[test]
fn solver_bound_small_frame() {
    let (icx, icy) = solve_cell_size(4, 4, 4, 2, 2);
    assert_eq!((icx, icy), (2, 2));
    let count = ((4 + icx - 1) / icx) * ((4 + icy - 1) / icy);
    assert!(count <= 4);
}

#[test]
fn solver_reference_frame() {
    // 1920x1080 with 4452 destination cells of 16x16 solves to 22x22,
    // an 88 * 50 = 4400 cell grid
    let (icx, icy) = solve_cell_size(4452, 1920, 1080, 16, 16);
    assert_eq!((icx, icy), (22, 22));
    let count = ((1920 + icx - 1) / icx) * ((1080 + icy - 1) / icy);
    assert!(count <= 4452);
}

#[test]
fn solver_zero_cells_covers_frame() {
    let (icx, icy) = solve_cell_size(0, 640, 480, 16, 16);
    assert_eq!((icx, icy), (640, 480));
}

#[test]
fn fallback_keeps_good_regions() {
    let parsed = parse_regions(b"[0,0,4,4]");
    let regions = regions_or_full_frame(parsed, 8, 8);
    assert_eq!(regions, vec![rect(0, 0, 4, 4)]);
}

#[test]
fn fallback_on_parse_error() {
    let parsed = parse_regions(b"[oops]");
    let regions = regions_or_full_frame(parsed, 8, 8);
    assert_eq!(regions, vec![rect(0, 0, 8, 8)]);
}

#[test]
fn fallback_on_empty_list() {
    let parsed = parse_regions(b"");
    let regions = regions_or_full_frame(parsed, 8, 8);
    assert_eq!(regions, vec![rect(0, 0, 8, 8)]);
}

#[test]
fn validator_accepts_and_rejects() {
    assert!(regions_valid(&vec![rect(0, 0, 4, 4)], 4, 4));
    assert!(!regions_valid(&vec![rect(0, 0, 5, 4)], 4, 4));
    assert!(!regions_valid(&vec![rect(2, 0, 2, 4)], 4, 4));
}

fn quadrant_of(u: f32, v: f32) -> usize {
    let col = if u < 0.5 { 0 } else { 1 };
    let row = if v < 0.5 { 0 } else { 1 };
    row * 2 + col
}

#[test]
fn end_to_end_full_scramble() {
    // 4x4 frame, 2x2 cells, one full-frame region, progress 1: every texel
    // mapped, and the four quadrants are a permutation of the four sources
    let regions = vec![rect(0, 0, 4, 4)];
    let buf = generate_uv_map(0, 4, 4, 2, 2, &regions, 1, 1);
    assert_eq!(buf.len(), 16);
    let mut sources = [usize::MAX; 4];
    for y in 0..4usize {
        for x in 0..4usize {
            match buf[y * 4 + x] {
                Texel::Unmapped => panic!("texel ({x},{y}) left unmapped"),
                Texel::Mapped { u_num, u_den, v_num, v_den } => {
                    let u = u_num as f32 / u_den as f32 / 4.0;
                    let v = v_num as f32 / v_den as f32 / 4.0;
                    assert!((0.0..1.0).contains(&u));
                    assert!((0.0..1.0).contains(&v));
                    let dest = quadrant_of(x as f32 / 4.0, y as f32 / 4.0);
                    let src = quadrant_of(u, v);
                    if sources[dest] == usize::MAX {
                        sources[dest] = src;
                    } else {
                        assert_eq!(sources[dest], src);
                    }
                }
            }
        }
    }
    let mut seen = sources;
    seen.sort();
    assert_eq!(seen, [0, 1, 2, 3]);
}

#[test]
fn progress_zero_is_identity() {
    let regions = vec![rect(0, 0, 4, 4)];
    let buf = generate_uv_map(7, 4, 4, 2, 2, &regions, 0, 1);
    for y in 0..4usize {
        for x in 0..4usize {
            match buf[y * 4 + x] {
                Texel::Unmapped => panic!("texel ({x},{y}) left unmapped"),
                Texel::Mapped { u_num, u_den, v_num, v_den } => {
                    assert_eq!(u_num, x as u64 * u_den);
                    assert_eq!(v_num, y as u64 * v_den);
                }
            }
        }
    }
}

#[test]
fn texels_outside_regions_stay_unmapped() {
    // the region covers only the top half; the bottom half stays transparent
    let regions = vec![rect(0, 0, 4, 2)];
    let buf = generate_uv_map(1, 4, 4, 2, 2, &regions, 1, 1);
    for x in 0..4usize {
        assert!(matches!(buf[3 * 4 + x], Texel::Unmapped));
    }
}

#[test]
fn generate_deterministic() {
    let regions = vec![rect(0, 0, 16, 8), rect(0, 8, 8, 16)];
    let a = generate_uv_map(12345, 16, 16, 4, 4, &regions, 1, 2);
    let b = generate_uv_map(12345, 16, 16, 4, 4, &regions, 1, 2);
    assert_eq!(a, b);
}

#[test]
fn update_texture_full_path() {
    let via_update = update_texture(b"0", b"[0,0,4,4]", 4, 4, 2, 2, 1, 1).unwrap();
    let regions = vec![rect(0, 0, 4, 4)];
    let direct = generate_uv_map(0, 4, 4, 2, 2, &regions, 1, 1);
    assert_eq!(via_update, direct);
}

#[test]
fn update_texture_falls_back_on_bad_text() {
    let via_update = update_texture(b"7", b"[nonsense]", 4, 4, 2, 2, 0, 1).unwrap();
    let full = vec![rect(0, 0, 4, 4)];
    let direct = generate_uv_map(7, 4, 4, 2, 2, &full, 0, 1);
    assert_eq!(via_update, direct);
}

#[test]
fn update_texture_rejects_out_of_frame_regions() {
    // the region parses but does not fit the 4x4 frame
    assert!(update_texture(b"1", b"[0,0,8,8]", 4, 4, 2, 2, 1, 1).is_none());
}
