//! The merkle tree over payload blocks.

use motatool::merkle::{combine, join, leaf, leaf_hashes, root, split_words};

#[test]
fn empty_and_single() {
    assert_eq!(root(&[]), [0; 4]);
    assert_eq!(root(&[[1, 2, 3, 4]]), [1, 2, 3, 4]);
}

#[test]
fn two_leaves_is_a_single_combine() {
    let a = [0xAA; 4];
    let b = [0xBB; 4];
    assert_eq!(root(&[a, b]), combine(&a, &b));
}

#[test]
fn three_leaves_bags_right_to_left() {
    let (a, b, c) = ([1; 4], [2; 4], [3; 4]);
    assert_eq!(root(&[a, b, c]), combine(&combine(&a, &b), &c));
}

#[test]
fn four_leaves_is_balanced() {
    let (a, b, c, d) = ([1; 4], [2; 4], [3; 4], [4; 4]);
    assert_eq!(
        root(&[a, b, c, d]),
        combine(&combine(&a, &b), &combine(&c, &d))
    );
}

#[test]
fn leaf_hashes_last_block_is_short() {
    let payload = vec![0u8; 1024 + 10];
    let leaves = leaf_hashes(&payload, 1024);
    assert_eq!(leaves.len(), 2);
    assert_eq!(leaves[0], leaf(&payload[..1024]));
    assert_eq!(leaves[1], leaf(&payload[1024..])); // 10 bytes, no padding
}

#[test]
fn seven_leaves_bag_three_peaks() {
    let l: Vec<[u8; 4]> = (1..=7u8).map(|i| [i; 4]).collect();
    let four = combine(&combine(&l[0], &l[1]), &combine(&l[2], &l[3]));
    let two = combine(&l[4], &l[5]);
    assert_eq!(root(&l), combine(&four, &combine(&two, &l[6])));
}

#[test]
fn leaf_is_the_head_of_sha256() {
    // SHA-256 of "abc" begins ba7816bf.
    assert_eq!(leaf(b"abc"), [0xba, 0x78, 0x16, 0xbf]);
    assert_eq!(leaf(b""), [0xe3, 0xb0, 0xc4, 0x42]);
    assert_eq!(combine(&[1, 2, 3, 4], &[5, 6, 7, 8]), leaf(&[1, 2, 3, 4, 5, 6, 7, 8]));
}

#[test]
fn no_payload_has_no_leaves() {
    assert!(leaf_hashes(&[], 16).is_empty());
    assert_eq!(leaf_hashes(&[1; 32], 16).len(), 2);
}

#[test]
fn stored_leaves_read_back() {
    let leaves = leaf_hashes(&[7; 100], 16);
    let stored = join(&leaves);
    assert_eq!(stored.len(), 28);
    assert_eq!(split_words(&stored), leaves);
    assert_eq!(split_words(&[1, 2, 3]), Vec::<[u8; 4]>::new());
}
