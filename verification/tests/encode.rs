use xdelta::decode::apply_patch_bytes;
use xdelta::encode::{create_patch_bytes, flush_add, put_copy};
use xdelta::error::XDeltaError;

fn literal(bytes: &[u8]) -> Vec<u8> {
    let mut record = vec![0x00];
    record.extend_from_slice(&(bytes.len() as u32).to_le_bytes());
    record.extend_from_slice(bytes);
    record
}

fn copy(offset: u64, length: u32) -> Vec<u8> {
    let mut record = vec![0x01];
    record.extend_from_slice(&offset.to_le_bytes());
    record.extend_from_slice(&length.to_le_bytes());
    record
}

fn join(records: &[Vec<u8>]) -> Vec<u8> {
    records.concat()
}

fn scrambled(len: usize, seed: u32) -> Vec<u8> {
    let mut state = seed;
    (0..len)
        .map(|_| {
            state = state.wrapping_mul(1_664_525).wrapping_add(1_013_904_223);
            (state >> 24) as u8
        })
        .collect()
}

#[test]
fn create_with_zero_block_size_is_refused() {
    for (old, new) in [(&b""[..], &b""[..]), (b"abc", b""), (b"", b"abc"), (b"abc", b"abd")] {
        match create_patch_bytes(old, new, 0) {
            Err(XDeltaError::InvalidArg(m)) => assert_eq!(m, "block_size must be > 0"),
            Ok(_) => panic!("a block size of zero was accepted"),
        }
    }
}

#[test]
fn empty_inputs_give_an_empty_patch() {
    assert_eq!(create_patch_bytes(b"", b"", 4).unwrap(), Vec::<u8>::new());
    assert_eq!(create_patch_bytes(b"", b"", 1).unwrap(), Vec::<u8>::new());
    assert_eq!(create_patch_bytes(b"", b"", usize::MAX).unwrap(), Vec::<u8>::new());
}

#[test]
fn empty_new_gives_an_empty_patch() {
    assert_eq!(create_patch_bytes(b"abcdefgh", b"", 4).unwrap(), Vec::<u8>::new());
}

#[test]
fn insertion_between_two_blocks() {
    let old = b"abcdefgh";
    let new = b"abcdXYZefgh";
    let patch = create_patch_bytes(old, new, 4).unwrap();
    assert_eq!(patch, join(&[copy(0, 4), literal(b"XYZ"), copy(4, 4)]));
    assert_eq!(
        patch,
        vec![
            0x01, 0, 0, 0, 0, 0, 0, 0, 0, 4, 0, 0, 0, // copy "abcd"
            0x00, 3, 0, 0, 0, b'X', b'Y', b'Z', // literal "XYZ"
            0x01, 4, 0, 0, 0, 0, 0, 0, 0, 4, 0, 0, 0, // copy "efgh"
        ]
    );
    assert_eq!(apply_patch_bytes(old, &patch).unwrap(), new);
}

#[test]
fn identity_is_one_copy_for_each_block() {
    let x = b"hello world!";
    let patch = create_patch_bytes(x, x, 5).unwrap();
    assert_eq!(patch, join(&[copy(0, 5), copy(5, 5), copy(10, 2)]));
    assert_eq!(apply_patch_bytes(x, &patch).unwrap(), x);
}

#[test]
fn identity_with_a_block_as_long_as_the_buffer() {
    let x = b"hello world!";
    let patch = create_patch_bytes(x, x, 12).unwrap();
    assert_eq!(patch, copy(0, 12));
    let patch = create_patch_bytes(x, x, 500).unwrap();
    assert_eq!(patch, copy(0, 12));
}

#[test]
fn identity_with_equal_blocks_copies_the_lowest() {
    let x = b"ababab";
    let patch = create_patch_bytes(x, x, 2).unwrap();
    assert_eq!(patch, join(&[copy(0, 2), copy(0, 2), copy(0, 2)]));
    assert_eq!(apply_patch_bytes(x, &patch).unwrap(), x);
}

#[test]
fn nothing_in_common_is_all_literals_of_a_block_each() {
    let patch = create_patch_bytes(b"", b"abcdefg", 3).unwrap();
    assert_eq!(patch, join(&[literal(b"abc"), literal(b"def"), literal(b"g")]));
    let patch = create_patch_bytes(b"zzzz", b"abcdef", 3).unwrap();
    assert_eq!(patch, join(&[literal(b"abc"), literal(b"def")]));
}

#[test]
fn block_of_one_byte() {
    let patch = create_patch_bytes(b"ab", b"bxa", 1).unwrap();
    assert_eq!(patch, join(&[copy(1, 1), literal(b"x"), copy(0, 1)]));
    assert_eq!(apply_patch_bytes(b"ab", &patch).unwrap(), b"bxa");
}

#[test]
fn matches_are_found_at_any_offset_of_new() {
    let patch = create_patch_bytes(b"abcdefgh", b"xefghabcd", 4).unwrap();
    assert_eq!(patch, join(&[literal(b"x"), copy(4, 4), copy(0, 4)]));
}

#[test]
fn blocks_of_old_are_matched_only_where_they_start() {
    // "cdef" lies in old, but at no block boundary.
    let patch = create_patch_bytes(b"abcdefgh", b"cdef", 4).unwrap();
    assert_eq!(patch, literal(b"cdef"));
}

#[test]
fn short_last_window_matches_a_short_last_block() {
    let patch = create_patch_bytes(b"abcdef", b"xxef", 4).unwrap();
    // At 0 the window "xxef" and at 1 the window "xef" match nothing; at 2 the
    // window "ef" is the last block of old.
    assert_eq!(patch, join(&[literal(b"xx"), copy(4, 2)]));
    assert_eq!(apply_patch_bytes(b"abcdef", &patch).unwrap(), b"xxef");
}

#[test]
fn short_last_window_does_not_match_the_start_of_a_block() {
    let patch = create_patch_bytes(b"abcdefgh", b"ab", 4).unwrap();
    assert_eq!(patch, literal(b"ab"));
}

#[test]
fn pending_literal_is_written_before_a_copy() {
    let patch = create_patch_bytes(b"abcd", b"12abcd34abcd", 4).unwrap();
    assert_eq!(
        patch,
        join(&[literal(b"12"), copy(0, 4), literal(b"34"), copy(0, 4)])
    );
}

#[test]
fn pending_literal_is_written_once_a_block_long() {
    let patch = create_patch_bytes(b"abcd", b"123456abcd7", 4).unwrap();
    assert_eq!(
        patch,
        join(&[literal(b"1234"), literal(b"56"), copy(0, 4), literal(b"7")])
    );
}

#[test]
fn flush_add_writes_one_literal_record() {
    let mut out = vec![9u8];
    let mut pending = b"xyz".to_vec();
    flush_add(&mut out, &mut pending);
    assert_eq!(out, vec![9, 0x00, 3, 0, 0, 0, b'x', b'y', b'z']);
    assert!(pending.is_empty());
}

#[test]
fn flush_add_of_nothing_writes_nothing() {
    let mut out = vec![9u8];
    let mut pending = Vec::new();
    flush_add(&mut out, &mut pending);
    assert_eq!(out, vec![9]);
    assert!(pending.is_empty());
}

#[test]
fn put_copy_writes_offset_and_length() {
    let mut out = vec![9u8];
    put_copy(&mut out, 3, 4, 2);
    assert_eq!(out, vec![9, 0x01, 12, 0, 0, 0, 0, 0, 0, 0, 2, 0, 0, 0]);
    let mut out = Vec::new();
    put_copy(&mut out, 0x0102, 0x1_0000, 0x0a0b_0c0d);
    assert_eq!(out, vec![0x01, 0, 0, 2, 1, 0, 0, 0, 0, 0x0d, 0x0c, 0x0b, 0x0a]);
}

#[test]
fn round_trip_on_small_inputs() {
    let inputs: [&[u8]; 8] = [
        b"",
        b"a",
        b"abcdefgh",
        b"abcdXYZefgh",
        b"the quick brown fox jumps over the lazy dog",
        b"the quick red fox jumped over the lazy dogs",
        b"aaaaaaaaaaaaaaaaaaaaaaaaaaaaaaaa",
        b"aaaaaaaaaaaaaaaabaaaaaaaaaaaaaaa",
    ];
    for old in inputs {
        for new in inputs {
            for block_size in [1usize, 2, 3, 4, 7, 8, 16, 64] {
                let patch = create_patch_bytes(old, new, block_size).unwrap();
                assert_eq!(apply_patch_bytes(old, &patch).unwrap(), new);
            }
        }
    }
}

#[test]
fn round_trip_on_scrambled_inputs() {
    let old = scrambled(5000, 1);
    let mut new = old.clone();
    new.splice(1000..1000, scrambled(37, 2));
    new.drain(3000..3100);
    new[4000] ^= 0x55;
    for block_size in [1usize, 16, 64, 100, 4096, 5000, 10_000] {
        let patch = create_patch_bytes(&old, &new, block_size).unwrap();
        assert_eq!(apply_patch_bytes(&old, &patch).unwrap(), new);
    }
}

#[test]
fn appended_bytes_keep_the_copies() {
    let old = scrambled(1024, 3);
    let mut new = old.clone();
    new.extend_from_slice(b"tail");
    let patch = create_patch_bytes(&old, &new, 256).unwrap();
    assert_eq!(
        patch,
        join(&[copy(0, 256), copy(256, 256), copy(512, 256), copy(768, 256), literal(b"tail")])
    );
}

#[test]
fn identity_on_a_large_buffer_is_smaller_than_the_buffer() {
    let x = scrambled(100_000, 4);
    let patch = create_patch_bytes(&x, &x, 1024).unwrap();
    assert_eq!(patch.len(), 98 * 13);
    assert!(patch.chunks(13).all(|record| record[0] == 0x01));
    assert_eq!(apply_patch_bytes(&x, &patch).unwrap(), x);
}
