use lib::features::{byte_counts, is_zero, xor_into, xor_is_zero};

#[test]
fn xor_zero_detects_parity_row() {
    let a = [1u8, 2, 3];
    let b = [4u8, 5, 6];
    let p = [1 ^ 4, 2 ^ 5, 3 ^ 6];
    assert!(xor_is_zero(&[&a, &b, &p]));
}

#[test]
fn xor_is_zero_rejects_non_parity_rows() {
    let a = [1u8, 2, 3];
    let b = [4u8, 5, 6];
    let q = [0u8, 0, 0];
    assert!(!xor_is_zero(&[&a, &b, &q]));
}

#[test]
fn xor_is_zero_needs_a_block() {
    let empty: [&[u8]; 0] = [];
    assert!(!xor_is_zero(&empty));
}

#[test]
fn xor_is_zero_needs_equal_lengths() {
    let a = [1u8, 2];
    let b = [1u8, 2, 0];
    assert!(!xor_is_zero(&[&a, &b]));
}

#[test]
fn xor_is_zero_of_single_zero_block() {
    let z = [0u8; 4];
    assert!(xor_is_zero(&[&z]));
}

#[test]
fn is_zero_checks_every_byte() {
    assert!(is_zero(&[0u8; 512]));
    assert!(is_zero(&[]));
    assert!(!is_zero(&[0u8, 0, 1]));
}

#[test]
fn xor_into_stops_at_shorter_block() {
    let mut dst = [0xffu8, 0x0f, 0xaa];
    xor_into(&mut dst, &[0x0f, 0xff]);
    assert_eq!(dst, [0xf0, 0xf0, 0xaa]);
    let mut short = [1u8];
    xor_into(&mut short, &[3, 5, 7]);
    assert_eq!(short, [2]);
}

#[test]
fn byte_counts_is_a_histogram() {
    let counts = byte_counts(&[0u8, 7, 7, 255, 7]);
    assert_eq!(counts.len(), 256);
    assert_eq!(counts[0], 1);
    assert_eq!(counts[7], 3);
    assert_eq!(counts[255], 1);
    assert_eq!(counts.iter().sum::<usize>(), 5);
}

#[test]
fn parity_block_completes_a_row() {
    let data: Vec<Vec<u8>> = vec![vec![9, 8, 7, 6], vec![1, 2, 3, 4], vec![0xf0, 0x0f, 0x55, 0xaa]];
    let mut parity = vec![0u8; 4];
    for block in &data {
        xor_into(&mut parity, block);
    }
    let mut row: Vec<&[u8]> = data.iter().map(|b| b.as_slice()).collect();
    row.push(&parity);
    assert!(xor_is_zero(&row));
}

#[test]
fn xor_into_twice_restores_buffer() {
    let original = [0x11u8, 0x22, 0x33, 0x44];
    let mut buf = original;
    let key = [0xdeu8, 0xad, 0xbe];
    xor_into(&mut buf, &key);
    assert_ne!(buf, original);
    xor_into(&mut buf, &key);
    assert_eq!(buf, original);
}

#[test]
fn one_block_is_a_parity_row_when_zero() {
    let zero = [0u8; 8];
    let nonzero = [0u8, 0, 1, 0];
    assert_eq!(xor_is_zero(&[&zero]), is_zero(&zero));
    assert_eq!(xor_is_zero(&[&nonzero]), is_zero(&nonzero));
    assert!(!xor_is_zero(&[&nonzero]));
}

#[test]
fn block_order_does_not_change_parity() {
    let a = [1u8, 2, 3];
    let b = [4u8, 5, 6];
    let p = [1 ^ 4, 2 ^ 5, 3 ^ 6];
    let q = [9u8, 9, 9];
    assert!(xor_is_zero(&[&p, &a, &b]));
    assert!(xor_is_zero(&[&b, &p, &a]));
    assert!(!xor_is_zero(&[&q, &a, &b]));
    assert!(!xor_is_zero(&[&b, &a, &q]));
}
