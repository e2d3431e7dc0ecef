use huffman_image::comp::compress_to_bytes;
use huffman_image::container::read_compressed_image;
use huffman_image::FormatError;
use huffman_image::{Pixel, PixelGrid};

fn sample_grid() -> PixelGrid {
    let pixels = vec![
        Pixel { r: 1, g: 10, b: 100 },
        Pixel { r: 2, g: 10, b: 100 },
        Pixel { r: 1, g: 11, b: 101 },
        Pixel { r: 3, g: 12, b: 102 },
    ];
    PixelGrid { width: 2, height: 2, pixels }
}

fn sample_artifact() -> Vec<u8> {
    let seed: Vec<u8> = b"ab".to_vec();
    compress_to_bytes(&sample_grid(), 5, &seed).unwrap().0
}

#[test]
fn truncation_in_packed_section_fails() {
    let bytes = sample_artifact();
    // the packed sections are the last three bytes groups; cutting any
    // tail of the artifact must fail, never return a shorter grid
    for cut in 1..=12usize.min(bytes.len()) {
        let shorter: Vec<u8> = bytes[..bytes.len() - cut].to_vec();
        assert!(
            read_compressed_image(&shorter).is_err(),
            "a truncated artifact must be rejected (cut {cut})"
        );
    }
}

#[test]
fn truncation_anywhere_fails() {
    let bytes = sample_artifact();
    for keep in 0..bytes.len() {
        let shorter: Vec<u8> = bytes[..keep].to_vec();
        assert!(read_compressed_image(&shorter).is_err());
    }
}

#[test]
fn trailing_garbage_fails() {
    let mut bytes = sample_artifact();
    bytes.push(0);
    assert!(read_compressed_image(&bytes).is_err());
}

#[test]
fn truncated_header_is_truncated_error() {
    let bytes = vec![1u8, 2];
    match read_compressed_image(&bytes) {
        Err(FormatError::Truncated) => {}
        Err(other) => panic!("expected a truncation error, got {other:?}"),
        Ok(_) => panic!("a two-byte input must not decode"),
    }
}

#[test]
fn bad_tree_slot_is_malformed() {
    // header for an empty seed and a 1x1 image, then a tree slot above
    // the sentinel: 0x0101 = 257
    let mut bytes = Vec::new();
    bytes.extend_from_slice(&[0, 0, 0, 0]); // tap
    bytes.extend_from_slice(&[0; 8]); // seed length 0
    bytes.extend_from_slice(&[1, 0, 0, 0]); // width
    bytes.extend_from_slice(&[1, 0, 0, 0]); // height
    bytes.extend_from_slice(&[1, 1]); // tree slot 257
    match read_compressed_image(&bytes) {
        Err(FormatError::Malformed) => {}
        Err(other) => panic!("expected a malformed-slot error, got {other:?}"),
        Ok(_) => panic!("a bad tree slot must not decode"),
    }
}

#[test]
fn exact_layout_of_tiny_artifact() {
    // 2x1 image, every channel constant: three single-leaf trees, one
    // zero bit per pixel and channel
    let grid = PixelGrid {
        width: 2,
        height: 1,
        pixels: vec![Pixel { r: 10, g: 20, b: 30 }, Pixel { r: 10, g: 20, b: 30 }],
    };
    let seed: Vec<u8> = b"ab".to_vec();
    let (bytes, _) = compress_to_bytes(&grid, 2, &seed).unwrap();
    let mut expected: Vec<u8> = Vec::new();
    expected.extend_from_slice(&[2, 0, 0, 0]); // tap position 2
    expected.extend_from_slice(&[2, 0, 0, 0, 0, 0, 0, 0]); // seed length
    expected.extend_from_slice(b"ab");
    expected.extend_from_slice(&[2, 0, 0, 0]); // width
    expected.extend_from_slice(&[1, 0, 0, 0]); // height
    expected.extend_from_slice(&[10, 0]); // red tree: leaf 10, no sentinel
    expected.extend_from_slice(&[20, 0]); // green tree
    expected.extend_from_slice(&[30, 0]); // blue tree
    expected.extend_from_slice(&[2, 0, 0, 0, 0, 0, 0, 0]); // red bits
    expected.extend_from_slice(&[2, 0, 0, 0, 0, 0, 0, 0]); // green bits
    expected.extend_from_slice(&[2, 0, 0, 0, 0, 0, 0, 0]); // blue bits
    expected.extend_from_slice(&[0, 0, 0]); // three packed bytes, all zero bits
    assert_eq!(bytes, expected);
}

#[test]
fn msb_first_packing() {
    // red values 1 (three times) and 2 (once): a two-leaf tree, so
    // both codes are a single bit and the stream has four bits. The
    // packed byte carries them MSB-first with zero pad bits.
    let grid = PixelGrid {
        width: 4,
        height: 1,
        pixels: vec![
            Pixel { r: 1, g: 0, b: 0 },
            Pixel { r: 2, g: 0, b: 0 },
            Pixel { r: 1, g: 0, b: 0 },
            Pixel { r: 1, g: 0, b: 0 },
        ],
    };
    let (bytes, _) = compress_to_bytes(&grid, 0, &vec![]).unwrap();
    // the red packed byte is the third from the end
    let red_packed = bytes[bytes.len() - 3];
    // stream positions 0, 2, 3 carry value 1's bit and position 1
    // value 2's; the two bits differ and the pad nibble is zero
    assert_eq!(red_packed & 0x0F, 0);
    let b0 = (red_packed >> 7) & 1;
    let b1 = (red_packed >> 6) & 1;
    let b2 = (red_packed >> 5) & 1;
    let b3 = (red_packed >> 4) & 1;
    assert_eq!(b0, b2);
    assert_eq!(b0, b3);
    assert_ne!(b0, b1);
}
