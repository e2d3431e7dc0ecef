use huffman_image::cipher::{convert_byte, key_generation};

#[test]
fn convert_byte_folds_msb_first() {
    let mut key: Vec<char> = vec!['\u{1}', '\u{0}', '\u{1}'];
    assert_eq!(convert_byte(&mut key), 0b101);
    assert_eq!(key, vec!['\u{1}', '\u{0}', '\u{1}']);
}

#[test]
fn convert_byte_of_empty_key_is_zero() {
    let mut key: Vec<char> = vec![];
    assert_eq!(convert_byte(&mut key), 0);
}

#[test]
fn key_generation_two_bit_register() {
    // seed [0, 1], tap 0: the register XORs its last and first
    // characters; the eight outputs follow the period-3 orbit
    let mut seed: Vec<char> = vec!['\u{0}', '\u{1}'];
    let mut rgb_keys: Vec<Vec<char>> = vec![vec![' '; 8]];
    key_generation(0, &mut seed, &mut rgb_keys);
    let expected: Vec<char> = [1u8, 0, 1, 1, 0, 1, 1, 0].iter().map(|&b| b as char).collect();
    assert_eq!(rgb_keys[0], expected);
    assert_eq!(seed, vec!['\u{1}', '\u{0}']);
    let mut key = rgb_keys[0].clone();
    assert_eq!(convert_byte(&mut key), 0b1011_0110);
}

#[test]
fn key_generation_advances_across_keys() {
    // three keys in a row consume twenty-four steps of one register:
    // generating them at once equals generating them one by one
    let mut seed_a: Vec<char> = "110010".chars().collect();
    let mut keys_a: Vec<Vec<char>> = vec![vec![]; 3];
    key_generation(2, &mut seed_a, &mut keys_a);

    let mut seed_b: Vec<char> = "110010".chars().collect();
    let mut one: Vec<Vec<char>> = vec![vec![]];
    let mut keys_b: Vec<Vec<char>> = Vec::new();
    for _ in 0..3 {
        key_generation(2, &mut seed_b, &mut one);
        keys_b.push(one[0].clone());
    }
    assert_eq!(seed_a, seed_b);
    assert_eq!(keys_a, keys_b);
}
