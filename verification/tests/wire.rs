use xdelta::wire::{get_u32_le, get_u64_le, put_u32_le, put_u64_le, OP_COPY, OP_LITERAL};

#[test]
fn tags_of_the_two_records() {
    assert_eq!(OP_LITERAL, 0x00);
    assert_eq!(OP_COPY, 0x01);
}

#[test]
fn put_u32_le_lowest_byte_first() {
    let mut out = vec![9u8];
    put_u32_le(&mut out, 0x0403_0201);
    assert_eq!(out, vec![9, 1, 2, 3, 4]);
    assert_eq!(out[1..], 0x0403_0201u32.to_le_bytes());
}

#[test]
fn put_u64_le_lowest_byte_first() {
    let mut out = Vec::new();
    put_u64_le(&mut out, 0x0807_0605_0403_0201);
    assert_eq!(out, vec![1, 2, 3, 4, 5, 6, 7, 8]);
    let mut out = Vec::new();
    put_u64_le(&mut out, u64::MAX);
    assert_eq!(out, vec![255; 8]);
}

#[test]
fn get_u32_le_at_an_offset() {
    let buf = [7u8, 0x78, 0x56, 0x34, 0x12, 7];
    assert_eq!(get_u32_le(&buf, 1), 0x1234_5678);
    assert_eq!(get_u32_le(&[255, 255, 255, 255], 0), u32::MAX);
}

#[test]
fn get_u64_le_at_an_offset() {
    let buf = [7u8, 7, 1, 0, 0, 0, 0, 0, 0, 0x80];
    assert_eq!(get_u64_le(&buf, 2), 0x8000_0000_0000_0001);
}

#[test]
fn numbers_survive_writing_and_reading() {
    for x in [0u32, 1, 255, 256, 65_535, 65_536, 0x00FF_FF00, u32::MAX] {
        let mut out = Vec::new();
        put_u32_le(&mut out, x);
        assert_eq!(out, x.to_le_bytes());
        assert_eq!(get_u32_le(&out, 0), x);
    }
    for x in [0u64, 1, 1 << 32, (1 << 40) + 5, u64::MAX - 1, u64::MAX] {
        let mut out = Vec::new();
        put_u64_le(&mut out, x);
        assert_eq!(out, x.to_le_bytes());
        assert_eq!(get_u64_le(&out, 0), x);
    }
}
