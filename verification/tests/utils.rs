use monotree::utils::bit;
use monotree::utils::bits_to_bytes;
use monotree::utils::bits_to_usize;
use monotree::utils::bytes_to_bits;
use monotree::utils::bytes_to_int;
use monotree::utils::bytes_to_slicebit;
use monotree::utils::get_sorted_indices;
use monotree::utils::hash_eq;
use monotree::utils::int_to_bytes;
use monotree::utils::len_lcp;
use monotree::utils::nbytes_across;
use monotree::utils::offsets;
use monotree::utils::random_bytes;
use monotree::utils::random_hash;
use monotree::utils::random_hashes;
use monotree::utils::shuffle;
use monotree::utils::slice_to_hash;

#[test]
fn test_bit() {
    let bytes = [0x73, 0x6f, 0x66, 0x69, 0x61];
    assert_eq!(bit(&bytes, 10), true);
    assert_eq!(bit(&bytes, 20), false);
    assert_eq!(bit(&bytes, 30), false);
}

#[test]
fn test_nbyte_across() {
    assert_eq!(nbytes_across(0, 8), 1);
    assert_eq!(nbytes_across(1, 7), 1);
    assert_eq!(nbytes_across(5, 9), 2);
    assert_eq!(nbytes_across(9, 16), 1);
    assert_eq!(nbytes_across(7, 19), 3);
}

#[test]
fn test_offsets() {
    assert_eq!(offsets(&(0..8), 1, false), (0, 1..8));
    assert_eq!(offsets(&(0..8), 1, true), (1, 0..1));
    assert_eq!(offsets(&(3..20), 10, false), (1, 5..12));
    assert_eq!(offsets(&(3..20), 10, true), (2, 3..13));
    assert_eq!(offsets(&(9..16), 5, false), (1, 6..8));
    assert_eq!(offsets(&(9..16), 5, true), (1, 9..14));
}

#[test]
fn test_bytes_to_int() {
    let number: u64 = bytes_to_int(&[0x73, 0x6f, 0x66, 0x69, 0x61]);
    assert_eq!(number, 495790221665u64);
}

#[test]
fn test_usize_to_bytes() {
    assert_eq!(int_to_bytes(495790221665u64), [0x73, 0x6f, 0x66, 0x69, 0x61]);
}

#[test]
fn test_bytes_to_bits() {
    assert_eq!(
        bytes_to_bits(&[0x33, 0x33]),
        [
            false, false, true, true, false, false, true, true, false, false, true, true, false,
            false, true, true,
        ]
    );
}

#[test]
fn test_bits_to_bytes() {
    let bits = [
        false, false, true, true, false, false, true, true, false, false, true, true, false, false,
        true, true,
    ];
    assert_eq!(bits_to_bytes(&bits), [0x33, 0x33]);
}

#[test]
fn test_bits_to_usize() {
    assert_eq!(
        bits_to_usize(&[
            false, false, true, true, false, false, true, true, false, false, true, true, false,
            false, true, true,
        ]),
        13107usize
    );
}

#[test]
fn test_len_lcp() {
    let sofia = [0x73, 0x6f, 0x66, 0x69, 0x61];
    let maria = [0x6d, 0x61, 0x72, 0x69, 0x61];
    assert_eq!(len_lcp(&sofia, &(0..3), &maria, &(0..3)), 3);
    assert_eq!(len_lcp(&sofia, &(0..3), &maria, &(5..9)), 0);
    assert_eq!(len_lcp(&sofia, &(2..9), &maria, &(18..30)), 5);
    assert_eq!(len_lcp(&sofia, &(20..30), &maria, &(3..15)), 4);
}

#[test]
fn test_bytes_to_slicebit_window() {
    assert_eq!(bytes_to_slicebit(&[0xf0], &(0..4)), vec![true, true, true, true]);
    assert_eq!(bytes_to_slicebit(&[0xf0], &(4..8)), vec![false, false, false, false]);
    assert_eq!(bytes_to_slicebit(&[0x0f, 0x80], &(6..9)), vec![true, true, true]);
}

#[test]
fn test_int_to_bytes_zero() {
    assert_eq!(int_to_bytes(0), [0x00]);
    assert_eq!(int_to_bytes(1), [0x01]);
    assert_eq!(int_to_bytes(256), [0x01, 0x00]);
}

#[test]
fn test_slice_to_hash_roundtrip() {
    let mut raw = [0u8; 32];
    for (i, b) in raw.iter_mut().enumerate() {
        *b = i as u8;
    }
    let hash = slice_to_hash(&raw[..]);
    assert_eq!(hash, raw);
    assert!(hash_eq(&hash, &raw));
    let other = [1u8; 32];
    assert!(!hash_eq(&hash, &other));
}

#[test]
fn test_get_sorted_indices_orders_keys() {
    let mut a = [0u8; 32];
    let mut b = [0u8; 32];
    let mut c = [0u8; 32];
    a[0] = 3;
    b[0] = 1;
    c[0] = 2;
    let keys = vec![a, b, c];
    assert_eq!(get_sorted_indices(&keys, false), [1, 2, 0]);
    assert_eq!(get_sorted_indices(&keys, true), [0, 2, 1]);
    // ties on a prefix are decided by the next byte
    let mut d = [0u8; 32];
    d[0] = 1;
    d[1] = 9;
    let keys2 = vec![d, b];
    assert_eq!(get_sorted_indices(&keys2, false), [1, 0]);
}

#[test]
fn test_random_helpers() {
    assert_eq!(random_bytes(7).len(), 7);
    assert_eq!(random_hashes(5).len(), 5);
    let a = random_hash();
    let b = random_hash();
    assert_ne!(a, b);
}

#[test]
fn test_shuffle_keeps_elements() {
    let mut values = random_hashes(50);
    let before = values.clone();
    shuffle(&mut values);
    assert_eq!(values.len(), before.len());
    let idx_b = get_sorted_indices(&before, false);
    let idx_a = get_sorted_indices(&values, false);
    let sorted_b: Vec<_> = idx_b.iter().map(|&i| before[i]).collect();
    let sorted_a: Vec<_> = idx_a.iter().map(|&i| values[i]).collect();
    assert_eq!(sorted_a, sorted_b);
}
