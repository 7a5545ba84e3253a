use xdelta::error::{Fault, XDeltaError};

fn message(e: XDeltaError) -> String {
    match e {
        XDeltaError::InvalidArg(m) => m,
    }
}

#[test]
fn messages_of_the_faults() {
    assert_eq!(message(XDeltaError::new(Fault::ZeroBlockSize)), "block_size must be > 0");
    assert_eq!(message(XDeltaError::new(Fault::TruncatedLiteralLength)), "truncated ADD length");
    assert_eq!(message(XDeltaError::new(Fault::TruncatedLiteralData)), "truncated ADD data");
    assert_eq!(message(XDeltaError::new(Fault::TruncatedCopy)), "truncated COPY entry");
    assert_eq!(message(XDeltaError::new(Fault::CopyOutOfRange)), "COPY out of range");
}

#[test]
fn unknown_opcode_in_hexadecimal() {
    assert_eq!(message(XDeltaError::new(Fault::UnknownOpcode(2))), "unknown opcode 0x2");
    assert_eq!(message(XDeltaError::new(Fault::UnknownOpcode(0x0f))), "unknown opcode 0xf");
    assert_eq!(message(XDeltaError::new(Fault::UnknownOpcode(0x10))), "unknown opcode 0x10");
    assert_eq!(message(XDeltaError::new(Fault::UnknownOpcode(0xab))), "unknown opcode 0xab");
    assert_eq!(message(XDeltaError::new(Fault::UnknownOpcode(0xff))), "unknown opcode 0xff");
}

#[test]
fn unknown_opcode_as_the_formatter_writes_it() {
    for byte in 0..=255u8 {
        assert_eq!(
            message(XDeltaError::new(Fault::UnknownOpcode(byte))),
            format!("unknown opcode {:#x}", byte)
        );
    }
}
