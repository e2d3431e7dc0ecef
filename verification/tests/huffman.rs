use huffman_image::comp::{compress_to_bytes, huffman_compress};
use huffman_image::container::read_compressed_image;
use huffman_image::hist::construct_dictionaries;
use huffman_image::ratio::{channel_ratio, overall_ratio};
use huffman_image::tree::Node;
use huffman_image::{InputError, Pixel, PixelGrid};

fn grid_of(width: u32, height: u32, px: Vec<(u8, u8, u8)>) -> PixelGrid {
    let pixels: Vec<Pixel> = px.into_iter().map(|(r, g, b)| Pixel { r, g, b }).collect();
    assert_eq!(pixels.len(), (width * height) as usize);
    PixelGrid { width, height, pixels }
}

fn round_trip(grid: &PixelGrid, tap: i32, seed: &[u8]) {
    let seed_vec: Vec<u8> = seed.to_vec();
    let (bytes, _ratio) = compress_to_bytes(grid, tap, &seed_vec).expect("compresses");
    let out = read_compressed_image(&bytes).expect("decodes");
    assert_eq!(out.tap_position, tap);
    assert_eq!(out.seed, seed_vec);
    assert_eq!(out.grid.width, grid.width);
    assert_eq!(out.grid.height, grid.height);
    assert_eq!(out.grid.pixels, grid.pixels);
}

#[test]
fn round_trip_single_pixel() {
    round_trip(&grid_of(1, 1, vec![(7, 8, 9)]), 2, b"seed");
}

#[test]
fn round_trip_single_color() {
    round_trip(&grid_of(3, 2, vec![(5, 5, 5); 6]), 0, b"");
}

#[test]
fn round_trip_full_alphabet() {
    // every byte value 0..=255 occurs on every channel, including the
    // value 255, which the tree slots must keep distinct from the
    // internal-node marker
    let px: Vec<(u8, u8, u8)> = (0..256).map(|i| (i as u8, (255 - i) as u8, (i * 7 % 256) as u8)).collect();
    round_trip(&grid_of(16, 16, px), 3, b"k");
}

#[test]
fn round_trip_mixed() {
    let px = vec![
        (10, 200, 30),
        (10, 200, 31),
        (12, 200, 30),
        (12, 201, 33),
        (10, 200, 30),
        (90, 1, 255),
    ];
    round_trip(&grid_of(3, 2, px), -4, b"0011");
}

#[test]
fn empty_grid_is_rejected() {
    let grid = grid_of(0, 0, vec![]);
    match huffman_compress(&grid) {
        Err(InputError::EmptyInput) => {}
        _ => panic!("an empty grid must fail with EmptyInput"),
    }
}

#[test]
fn determinism_same_grid_same_bytes() {
    let px = vec![(1, 2, 3), (4, 5, 6), (1, 2, 3), (7, 7, 7)];
    let g1 = grid_of(2, 2, px.clone());
    let g2 = grid_of(2, 2, px);
    let seed: Vec<u8> = b"s".to_vec();
    let (b1, _) = compress_to_bytes(&g1, 9, &seed).unwrap();
    let (b2, _) = compress_to_bytes(&g2, 9, &seed).unwrap();
    assert_eq!(b1, b2);
}

fn code_of(table: &huffman_image::codes::CodeTable, v: u8) -> Option<Vec<bool>> {
    table.codes[v as usize].clone()
}

#[test]
fn prefix_free_codes() {
    let px = vec![
        (0, 0, 0),
        (0, 1, 10),
        (0, 2, 10),
        (1, 3, 10),
        (2, 4, 20),
        (3, 4, 20),
        (4, 4, 20),
        (5, 4, 30),
    ];
    let grid = grid_of(4, 2, px);
    let ci = huffman_compress(&grid).unwrap();
    for table in [&ci.red_table, &ci.green_table, &ci.blue_table] {
        for v1 in 0..=255u8 {
            for v2 in 0..=255u8 {
                if v1 == v2 {
                    continue;
                }
                if let (Some(c1), Some(c2)) = (code_of(table, v1), code_of(table, v2)) {
                    assert!(
                        !(c1.len() <= c2.len() && c1[..] == c2[..c1.len()]),
                        "code of {v1} prefixes code of {v2}"
                    );
                }
            }
        }
    }
}

#[test]
fn bit_length_accounting() {
    let px = vec![
        (9, 0, 200),
        (9, 1, 200),
        (9, 2, 201),
        (17, 2, 202),
        (17, 3, 203),
        (33, 3, 204),
    ];
    let grid = grid_of(6, 1, px);
    let (rf, gf, bf) = construct_dictionaries(&grid);
    let ci = huffman_compress(&grid).unwrap();
    for (table, freqs, size, bits) in [
        (&ci.red_table, &rf, ci.red_size, &ci.red_bits),
        (&ci.green_table, &gf, ci.green_size, &ci.green_bits),
        (&ci.blue_table, &bf, ci.blue_size, &ci.blue_bits),
    ] {
        let mut total: u64 = 0;
        for v in 0..256usize {
            if let Some(code) = &table.codes[v] {
                total += code.len() as u64 * freqs.counts[v];
            }
        }
        assert_eq!(total, size, "table sum must equal the reported bit count");
        assert_eq!(bits.len() as u64, size, "stream length must equal the reported bit count");
    }
}

#[test]
fn degenerate_channel_code_is_zero() {
    let grid = grid_of(2, 1, vec![(10, 20, 30), (10, 21, 31)]);
    let ci = huffman_compress(&grid).unwrap();
    // red has one distinct value: a single leaf, code 0, stream 00
    match &ci.red_root {
        Node::Leaf { value, freq } => {
            assert_eq!(*value, 10);
            assert_eq!(*freq, 2);
        }
        Node::Internal { .. } => panic!("a one-value channel must give a single leaf"),
    }
    assert_eq!(code_of(&ci.red_table, 10), Some(vec![false]));
    assert_eq!(ci.red_bits, vec![false, false]);
    let out = read_compressed_image(&compress_to_bytes(&grid, 0, &vec![]).unwrap().0).unwrap();
    assert_eq!(out.grid.pixels, grid.pixels);
}

#[test]
fn two_pixel_red_scenario() {
    // red values [10, 10]: histogram {10: 2}, single leaf, code 0,
    // stream of 2 bits, ratio 2 / 16 = 12.5 percent
    let grid = grid_of(2, 1, vec![(10, 0, 0), (10, 0, 0)]);
    let (rf, _, _) = construct_dictionaries(&grid);
    assert_eq!(rf.counts[10], 2);
    for v in 0..256usize {
        if v != 10 {
            assert_eq!(rf.counts[v], 0);
        }
    }
    let ci = huffman_compress(&grid).unwrap();
    assert_eq!(code_of(&ci.red_table, 10), Some(vec![false]));
    assert_eq!(ci.red_bits.len(), 2);
    assert_eq!(ci.red_size, 2);
    let r = channel_ratio(ci.red_size, 2, 1);
    assert_eq!(r.numerator, 200);
    assert_eq!(r.denominator, 16);
    assert!((r.numerator as f64 / r.denominator as f64 - 12.5).abs() < 1e-12);
}

#[test]
fn all_black_scenario() {
    // 2x2 all-black: every channel histogram {0: 4}, code 0, stream
    // 0000, 12.5 percent per channel and overall
    let grid = grid_of(2, 2, vec![(0, 0, 0); 4]);
    let (rf, gf, bf) = construct_dictionaries(&grid);
    for f in [&rf, &gf, &bf] {
        assert_eq!(f.counts[0], 4);
        assert_eq!(f.counts.iter().sum::<u64>(), 4);
    }
    let ci = huffman_compress(&grid).unwrap();
    for (table, bits) in [
        (&ci.red_table, &ci.red_bits),
        (&ci.green_table, &ci.green_bits),
        (&ci.blue_table, &ci.blue_bits),
    ] {
        assert_eq!(code_of(table, 0), Some(vec![false]));
        assert_eq!(bits, &vec![false; 4]);
    }
    let per_channel = channel_ratio(ci.red_size, 2, 2);
    assert!((per_channel.numerator as f64 / per_channel.denominator as f64 - 12.5).abs() < 1e-12);
    let overall = overall_ratio(ci.red_size, ci.green_size, ci.blue_size, 2, 2);
    assert_eq!(overall.numerator, 1200);
    assert_eq!(overall.denominator, 96);
    assert!((overall.numerator as f64 / overall.denominator as f64 - 12.5).abs() < 1e-12);
    assert_eq!(ci.ratio.numerator, overall.numerator);
    assert_eq!(ci.ratio.denominator, overall.denominator);
}

#[test]
fn frequent_values_get_short_codes() {
    // one very frequent red value against several rare ones: the
    // frequent value's code must be no longer than any rare one's
    let mut px = vec![(50, 0, 0); 8];
    for (i, v) in [(0usize, 1u8), (1, 2), (2, 3)] {
        px[i] = (v, 0, 0);
    }
    px.extend(vec![(50, 0, 0); 4]);
    let grid = grid_of(4, 3, px);
    let ci = huffman_compress(&grid).unwrap();
    let frequent = code_of(&ci.red_table, 50).unwrap();
    for rare in [1u8, 2, 3] {
        let code = code_of(&ci.red_table, rare).unwrap();
        assert!(frequent.len() <= code.len());
    }
    round_trip(&grid, 0, b"x");
}
