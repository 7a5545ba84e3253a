use std::collections::HashMap;
use xdelta::digest::digest_eq;
use xdelta::error::XDeltaError;
use xdelta::matching::{find_match, find_strong};
use xdelta::rolling::Rolling;
use xdelta::signature::{build_signatures, insert_signature, SigEntry};

const SHA256_ABC: [u8; 32] = [
    0xba, 0x78, 0x16, 0xbf, 0x8f, 0x01, 0xcf, 0xea, 0x41, 0x41, 0x40, 0xde, 0x5d, 0xae, 0x22, 0x23,
    0xb0, 0x03, 0x61, 0xa3, 0x96, 0x17, 0x7a, 0x9c, 0xb4, 0x10, 0xff, 0x61, 0xf2, 0x00, 0x15, 0xad,
];

#[test]
fn build_with_zero_block_size_is_refused() {
    match build_signatures(b"abc", 0) {
        Err(XDeltaError::InvalidArg(m)) => assert_eq!(m, "block_size must be > 0"),
        Ok(_) => panic!("a block size of zero was accepted"),
    }
    assert!(build_signatures(b"", 0).is_err());
}

#[test]
fn empty_buffer_has_an_empty_index() {
    let index = build_signatures(b"", 4).unwrap();
    assert!(index.is_empty());
}

#[test]
fn strong_hash_is_the_sha256_digest() {
    let index = build_signatures(b"abc", 3).unwrap();
    assert_eq!(index.len(), 1);
    let list = &index[&Rolling::from_slice(b"abc").chksum()];
    assert_eq!(list.len(), 1);
    assert_eq!(list[0].block_index, 0);
    assert_eq!(list[0].strong_hash, SHA256_ABC);
}

#[test]
fn one_entry_for_each_block_with_a_short_last_one() {
    let index = build_signatures(b"abcdefghij", 4).unwrap();
    assert_eq!(index.len(), 3);
    let blocks: [(&[u8], u64); 3] = [(b"abcd", 0), (b"efgh", 1), (b"ij", 2)];
    for (bytes, at) in blocks {
        let list = &index[&Rolling::from_slice(bytes).chksum()];
        assert_eq!(list.len(), 1);
        assert_eq!(list[0].block_index, at);
    }
}

#[test]
fn block_larger_than_the_buffer() {
    let index = build_signatures(b"abc", 100).unwrap();
    assert_eq!(index.len(), 1);
    let list = &index[&Rolling::from_slice(b"abc").chksum()];
    assert_eq!(list[0].block_index, 0);
    assert_eq!(list[0].strong_hash, SHA256_ABC);
    let index = build_signatures(b"abc", usize::MAX).unwrap();
    assert_eq!(index.len(), 1);
}

#[test]
fn equal_blocks_are_listed_in_block_order() {
    let index = build_signatures(b"ababxyab", 2).unwrap();
    assert_eq!(index.len(), 2);
    let list = &index[&Rolling::from_slice(b"ab").chksum()];
    let at: Vec<u64> = list.iter().map(|e| e.block_index).collect();
    assert_eq!(at, vec![0, 1, 3]);
    assert_eq!(list[0].strong_hash, list[1].strong_hash);
    assert_eq!(list[0].strong_hash, list[2].strong_hash);
    let list = &index[&Rolling::from_slice(b"xy").chksum()];
    assert_eq!(list.len(), 1);
    assert_eq!(list[0].block_index, 2);
}

#[test]
fn blocks_with_one_weak_checksum_and_different_bytes() {
    // [1, 0, 1] and [0, 2, 0] both have a = 2 and b = 4.
    assert_eq!(
        Rolling::from_slice(&[1, 0, 1]).chksum(),
        Rolling::from_slice(&[0, 2, 0]).chksum()
    );
    let old = [1u8, 0, 1, 0, 2, 0];
    let index = build_signatures(&old, 3).unwrap();
    assert_eq!(index.len(), 1);
    let list = &index[&Rolling::from_slice(&[1, 0, 1]).chksum()];
    assert_eq!(list.len(), 2);
    assert_eq!((list[0].block_index, list[1].block_index), (0, 1));
    assert_ne!(list[0].strong_hash, list[1].strong_hash);
    assert_eq!(find_match(&index, &[0, 2, 0]), Some(1));
    assert_eq!(find_match(&index, &[1, 0, 1]), Some(0));
    // [2, 0, 0] has a = 2 and b = 6: another weak checksum.
    assert_eq!(find_match(&index, &[2, 0, 0]), None);
}

#[test]
fn find_match_gives_the_lowest_block() {
    let index = build_signatures(b"xyababab", 2).unwrap();
    assert_eq!(find_match(&index, b"ab"), Some(1));
    assert_eq!(find_match(&index, b"xy"), Some(0));
    assert_eq!(find_match(&index, b"ba"), None);
    assert_eq!(find_match(&index, b"a"), None);
    assert_eq!(find_match(&index, b""), None);
}

#[test]
fn find_match_with_a_weak_checksum_that_another_window_shares() {
    // [0, 3, 0] has a = 3, b = 6; [1, 1, 1] has a = 3, b = 6.
    let index = build_signatures(&[0, 3, 0], 3).unwrap();
    assert_eq!(
        Rolling::from_slice(&[0, 3, 0]).chksum(),
        Rolling::from_slice(&[1, 1, 1]).chksum()
    );
    assert_eq!(find_match(&index, &[1, 1, 1]), None);
    assert_eq!(find_match(&index, &[0, 3, 0]), Some(0));
}

#[test]
fn find_match_in_an_empty_index() {
    let index = build_signatures(b"", 8).unwrap();
    assert_eq!(find_match(&index, b"anything"), None);
}

#[test]
fn insert_signature_lists_behind_what_is_there() {
    let mut index = HashMap::new();
    insert_signature(&mut index, 7, SigEntry { block_index: 0, strong_hash: [1; 32] });
    insert_signature(&mut index, 9, SigEntry { block_index: 1, strong_hash: [2; 32] });
    insert_signature(&mut index, 7, SigEntry { block_index: 2, strong_hash: [3; 32] });
    assert_eq!(index.len(), 2);
    let at: Vec<(u64, u8)> = index[&7].iter().map(|e| (e.block_index, e.strong_hash[31])).collect();
    assert_eq!(at, vec![(0, 1), (2, 3)]);
    let at: Vec<(u64, u8)> = index[&9].iter().map(|e| (e.block_index, e.strong_hash[0])).collect();
    assert_eq!(at, vec![(1, 2)]);
}

#[test]
fn find_strong_gives_the_first_entry_with_the_hash() {
    let list = [
        SigEntry { block_index: 4, strong_hash: [1; 32] },
        SigEntry { block_index: 6, strong_hash: [2; 32] },
        SigEntry { block_index: 9, strong_hash: [2; 32] },
        SigEntry { block_index: 11, strong_hash: [1; 32] },
    ];
    assert_eq!(find_strong(&list, &[1; 32]), Some(4));
    assert_eq!(find_strong(&list, &[2; 32]), Some(6));
    assert_eq!(find_strong(&list, &[3; 32]), None);
    assert_eq!(find_strong(&list[1..], &[1; 32]), Some(11));
    assert_eq!(find_strong(&[], &[1; 32]), None);
}

#[test]
fn find_strong_compares_every_byte() {
    let mut almost = [5u8; 32];
    almost[31] = 6;
    let list = [
        SigEntry { block_index: 0, strong_hash: almost },
        SigEntry { block_index: 1, strong_hash: [5; 32] },
    ];
    assert_eq!(find_strong(&list, &[5; 32]), Some(1));
    assert_eq!(find_strong(&list, &almost), Some(0));
    assert!(digest_eq(&almost, &almost));
    assert!(!digest_eq(&almost, &[5; 32]));
}
