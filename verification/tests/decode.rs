use xdelta::decode::apply_patch_bytes;
use xdelta::error::XDeltaError;

fn refused(old: &[u8], patch: &[u8]) -> String {
    match apply_patch_bytes(old, patch) {
        Err(XDeltaError::InvalidArg(m)) => m,
        Ok(out) => panic!("the patch was applied and gave {:?}", out),
    }
}

fn literal(bytes: &[u8]) -> Vec<u8> {
    let mut record = vec![0x00];
    record.extend_from_slice(&(bytes.len() as u32).to_le_bytes());
    record.extend_from_slice(bytes);
    record
}

fn copy(offset: u64, length: u32) -> Vec<u8> {
    let mut record = vec![0x01];
    record.extend_from_slice(&offset.to_le_bytes());
    record.extend_from_slice(&length.to_le_bytes());
    record
}

#[test]
fn empty_patch_gives_empty_output() {
    assert_eq!(apply_patch_bytes(b"anything", b"").unwrap(), Vec::<u8>::new());
    assert_eq!(apply_patch_bytes(b"", b"").unwrap(), Vec::<u8>::new());
}

#[test]
fn literal_is_copied_out() {
    let patch = [0x00, 3, 0, 0, 0, b'X', b'Y', b'Z'];
    assert_eq!(apply_patch_bytes(b"", &patch).unwrap(), b"XYZ");
}

#[test]
fn literal_of_no_bytes() {
    assert_eq!(apply_patch_bytes(b"old", &[0, 0, 0, 0, 0]).unwrap(), Vec::<u8>::new());
}

#[test]
fn copy_takes_a_range_of_old() {
    let patch = [0x01, 2, 0, 0, 0, 0, 0, 0, 0, 3, 0, 0, 0];
    assert_eq!(apply_patch_bytes(b"abcdefgh", &patch).unwrap(), b"cde");
}

#[test]
fn copy_of_no_bytes_at_the_end_of_old() {
    assert_eq!(apply_patch_bytes(b"abc", &copy(3, 0)).unwrap(), Vec::<u8>::new());
    assert_eq!(apply_patch_bytes(b"", &copy(0, 0)).unwrap(), Vec::<u8>::new());
}

#[test]
fn copy_of_all_of_old() {
    assert_eq!(apply_patch_bytes(b"abc", &copy(0, 3)).unwrap(), b"abc");
}

#[test]
fn records_are_replayed_in_order() {
    let mut patch = copy(4, 4);
    patch.extend(literal(b"--"));
    patch.extend(copy(0, 4));
    patch.extend(literal(b"!"));
    assert_eq!(apply_patch_bytes(b"abcdefgh", &patch).unwrap(), b"efgh--abcd!");
}

#[test]
fn literal_length_uses_all_four_bytes() {
    let bytes = vec![7u8; 0x0001_0203];
    let mut patch = vec![0x00, 0x03, 0x02, 0x01, 0x00];
    patch.extend_from_slice(&bytes);
    assert_eq!(apply_patch_bytes(b"", &patch).unwrap(), bytes);
}

#[test]
fn truncated_literal_length() {
    for cut in 1..5 {
        assert_eq!(refused(b"old", &literal(b"XYZ")[..cut]), "truncated ADD length");
    }
    assert_eq!(refused(b"old", &[0x00]), "truncated ADD length");
    assert_eq!(refused(b"old", &[0x00, 1, 0, 0]), "truncated ADD length");
}

#[test]
fn truncated_literal_data() {
    for cut in 5..8 {
        assert_eq!(refused(b"old", &literal(b"XYZ")[..cut]), "truncated ADD data");
    }
    assert_eq!(refused(b"", &[0x00, 255, 255, 255, 255, 1, 2, 3]), "truncated ADD data");
}

#[test]
fn truncated_copy() {
    for cut in 1..13 {
        assert_eq!(refused(b"abcdefgh", &copy(0, 4)[..cut]), "truncated COPY entry");
    }
}

#[test]
fn truncation_after_good_records() {
    let mut patch = copy(0, 2);
    patch.extend(literal(b"xy"));
    let whole = patch.len();
    patch.extend(literal(b"tail"));
    for cut in (whole + 1)..patch.len() {
        assert!(apply_patch_bytes(b"abcd", &patch[..cut]).is_err());
    }
    assert_eq!(apply_patch_bytes(b"abcd", &patch[..whole]).unwrap(), b"abxy");
    assert_eq!(apply_patch_bytes(b"abcd", &patch).unwrap(), b"abxytail");
}

#[test]
fn copy_out_of_range() {
    assert_eq!(refused(b"abcdefgh", &copy(5, 4)), "COPY out of range");
    assert_eq!(refused(b"abcdefgh", &copy(8, 1)), "COPY out of range");
    assert_eq!(refused(b"abcdefgh", &copy(9, 0)), "COPY out of range");
    assert_eq!(refused(b"", &copy(0, 1)), "COPY out of range");
}

#[test]
fn copy_with_an_offset_near_the_largest() {
    assert_eq!(refused(b"abcdefgh", &copy(u64::MAX, 1)), "COPY out of range");
    assert_eq!(refused(b"abcdefgh", &copy(u64::MAX, u32::MAX)), "COPY out of range");
    assert_eq!(refused(b"abcdefgh", &copy(u64::MAX - 3, 8)), "COPY out of range");
    assert_eq!(refused(b"abcdefgh", &copy(1 << 32, 0)), "COPY out of range");
    assert_eq!(refused(b"abcdefgh", &copy(0, u32::MAX)), "COPY out of range");
}

#[test]
fn unknown_opcode() {
    assert_eq!(refused(b"old", &[0x02]), "unknown opcode 0x2");
    assert_eq!(refused(b"old", &[0xff, 0, 0, 0, 0]), "unknown opcode 0xff");
    assert_eq!(refused(b"old", &[0x10]), "unknown opcode 0x10");
    let mut patch = literal(b"ok");
    patch.push(0x7f);
    assert_eq!(refused(b"old", &patch), "unknown opcode 0x7f");
}

#[test]
fn the_first_fault_is_reported() {
    let mut patch = copy(100, 1);
    patch.push(0x09);
    assert_eq!(refused(b"abc", &patch), "COPY out of range");
    let mut patch = vec![0x09];
    patch.extend(copy(100, 1));
    assert_eq!(refused(b"abc", &patch), "unknown opcode 0x9");
    let mut patch = literal(b"fine");
    patch.extend(copy(0, 4));
    patch.extend_from_slice(&[0x00, 1]);
    assert_eq!(refused(b"abc", &patch), "COPY out of range");
}
