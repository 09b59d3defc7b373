use rc5::packing::{bytes_to_words, words_to_bytes};
use rc5::word::{rotate_left, rotate_right};
use rc5::{decode, encode, key_table, ArithExt, CollectRev, FromIteratorRev};

fn sample_keys() -> Vec<Vec<u8>> {
    vec![
        vec![0u8; 16],
        vec![0xFFu8; 16],
        (0u8..16).collect(),
        (0u8..16).map(|i| i.wrapping_mul(37).wrapping_add(11)).collect(),
    ]
}

fn sample_blocks() -> Vec<Vec<u32>> {
    vec![
        vec![0, 0],
        vec![u32::MAX, u32::MAX],
        vec![0x33221100, 0x77665544],
        vec![0xdeadbeef, 0x01234567],
    ]
}

#[test]
fn round_trip_over_sample_keys_and_blocks() {
    for key in sample_keys() {
        let table = key_table(&key);
        for block in sample_blocks() {
            let ct = encode(table.clone(), block.clone());
            assert_eq!(decode(table.clone(), ct), block);
            let pt = decode(table.clone(), block.clone());
            assert_eq!(encode(table.clone(), pt), block);
        }
    }
}

#[test]
fn key_table_is_deterministic() {
    for key in sample_keys() {
        let first = key_table(&key);
        let second = key_table(&key.clone());
        assert_eq!(first.len(), 26);
        assert_eq!(first, second);
    }
}

#[test]
fn key_table_of_zero_key() {
    let table = key_table(&vec![0u8; 16]);
    assert_eq!(table.len(), 26);
    assert_ne!(table, key_table(&vec![1u8; 16]));
}

fn differing_bits(x: &[u32], y: &[u32]) -> u32 {
    x.iter().zip(y.iter()).map(|(a, b)| (a ^ b).count_ones()).sum()
}

#[test]
fn avalanche_on_plaintext_bits() {
    let key: Vec<u8> = (0u8..16).collect();
    let table = key_table(&key);
    let block: Vec<u32> = vec![0x33221100, 0x77665544];
    let base = encode(table.clone(), block.clone());
    let mut total: u32 = 0;
    for bit in 0..64u32 {
        let mut flipped = block.clone();
        flipped[(bit / 32) as usize] ^= 1u32 << (bit % 32);
        let out = encode(table.clone(), flipped);
        let d = differing_bits(&base, &out);
        assert!(d > 0);
        total += d;
    }
    let mean = total / 64;
    assert!(mean >= 24 && mean <= 40, "mean changed bits {}", mean);
}

#[test]
fn avalanche_on_key_bits() {
    let key: Vec<u8> = (0u8..16).collect();
    let block: Vec<u32> = vec![0x33221100, 0x77665544];
    let base = encode(key_table(&key), block.clone());
    let mut total: u32 = 0;
    for bit in 0..128usize {
        let mut flipped = key.clone();
        flipped[bit / 8] ^= 1u8 << (bit % 8);
        let out = encode(key_table(&flipped), block.clone());
        let d = differing_bits(&base, &out);
        assert!(d > 0);
        total += d;
    }
    let mean = total / 128;
    assert!(mean >= 24 && mean <= 40, "mean changed bits {}", mean);
}

#[test]
fn bytes_to_words_is_little_endian() {
    let bytes: Vec<u8> = vec![0x01, 0x02, 0x03, 0x04, 0xAA, 0xBB, 0xCC, 0xDD];
    assert_eq!(bytes_to_words(&bytes, 2), vec![0x04030201, 0xDDCCBBAA]);
}

#[test]
fn bytes_to_words_of_key() {
    let key: Vec<u8> = (0u8..16).collect();
    assert_eq!(
        bytes_to_words(&key, 4),
        vec![0x03020100, 0x07060504, 0x0B0A0908, 0x0F0E0D0C]
    );
}

#[test]
fn bytes_to_words_empty() {
    assert_eq!(bytes_to_words(&Vec::new(), 0), Vec::<u32>::new());
}

#[test]
fn words_to_bytes_is_little_endian() {
    assert_eq!(
        words_to_bytes(&vec![0x04030201, 0xDDCCBBAA]),
        vec![0x01, 0x02, 0x03, 0x04, 0xAA, 0xBB, 0xCC, 0xDD]
    );
}

#[test]
fn packing_round_trips() {
    let bytes: Vec<u8> = vec![0x2D, 0xDC, 0x14, 0x9B, 0xCF, 0x08, 0x8B, 0x9E];
    let words = bytes_to_words(&bytes, 2);
    assert_eq!(words_to_bytes(&words), bytes);
    let words: Vec<u32> = vec![0, u32::MAX, 0x80000001];
    assert_eq!(bytes_to_words(&words_to_bytes(&words), 3), words);
}

#[test]
fn platform_add_wraps() {
    assert_eq!(u32::MAX.platform_add(1), 0);
    assert_eq!(0xb7e15163u32.platform_add(0x9e3779b9), 0x5618cb1c);
    assert_eq!(2u32.platform_add(3), 5);
}

#[test]
fn platform_sub_wraps() {
    assert_eq!(0u32.platform_sub(1), u32::MAX);
    assert_eq!(5u32.platform_sub(3), 2);
}

#[test]
fn rotations_take_amount_mod_32() {
    assert_eq!(rotate_left(0x80000001, 1), 0x00000003);
    assert_eq!(rotate_left(0x12345678, 0), 0x12345678);
    assert_eq!(rotate_left(0x12345678, 32), 0x12345678);
    assert_eq!(rotate_left(0x12345678, 36), 0x23456781);
    assert_eq!(rotate_right(0x00000003, 1), 0x80000001);
    assert_eq!(rotate_right(0x12345678, 4), 0x81234567);
    assert_eq!(rotate_right(0x12345678, 68), 0x81234567);
    for n in 0..70u32 {
        let x = 0xdeadbeefu32;
        assert_eq!(rotate_left(x, n), x.rotate_left(n));
        assert_eq!(rotate_right(x, n), x.rotate_right(n));
        assert_eq!(rotate_right(rotate_left(x, n), n), x);
    }
}

#[test]
fn collect_rev_reverses() {
    let v: Vec<u32> = vec![1, 2, 3, 4];
    let r: Vec<u32> = v.collect_rev();
    assert_eq!(r, vec![4, 3, 2, 1]);
    let e: Vec<u32> = Vec::new().collect_rev();
    assert!(e.is_empty());
}

#[test]
fn from_iter_rev_reverses() {
    let r: Vec<char> = Vec::from_iter_rev(vec!['a', 'b', 'c']);
    assert_eq!(r, vec!['c', 'b', 'a']);
}
