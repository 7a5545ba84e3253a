//! Errors and their messages.

use vstd::prelude::*;
use vstd::string::*;

verus! {

/// The reasons for which an operation refuses its input.
#[derive(Clone, Copy, Debug, PartialEq, Eq)]
pub enum Fault {
    /// The encoder was given a block size of zero.
    ZeroBlockSize,
    /// A literal record ends before its four-byte length.
    TruncatedLiteralLength,
    /// A literal record ends before the bytes that its length announces.
    TruncatedLiteralData,
    /// A copy record ends before its offset and length.
    TruncatedCopy,
    /// A copy record names a range that does not lie within the old buffer.
    CopyOutOfRange,
    /// A record starts with a byte that is neither the literal nor the copy tag.
    UnknownOpcode(u8),
}

/// The sixteen digits of lower-case hexadecimal, in order.
pub open spec fn hex_digits() -> Seq<char> {
    "0123456789abcdef"@
}

/// The digit that stands for `value`, as a text of one character.
pub open spec fn hex_digit_text(value: int) -> Seq<char> {
    hex_digits().subrange(value, value + 1)
}

/// A byte in lower-case hexadecimal, without leading zero.
pub open spec fn lower_hex(byte: u8) -> Seq<char> {
    if byte < 16 {
        hex_digit_text(byte as int)
    } else {
        hex_digit_text(byte as int / 16) + hex_digit_text(byte as int % 16)
    }
}

impl Fault {
    /// The message that reports this fault.
    pub open spec fn message(self) -> Seq<char> {
        match self {
            Fault::ZeroBlockSize => "block_size must be > 0"@,
            Fault::TruncatedLiteralLength => "truncated ADD length"@,
            Fault::TruncatedLiteralData => "truncated ADD data"@,
            Fault::TruncatedCopy => "truncated COPY entry"@,
            Fault::CopyOutOfRange => "COPY out of range"@,
            Fault::UnknownOpcode(byte) => "unknown opcode 0x"@ + lower_hex(byte),
        }
    }
}

/// The error of every operation of this library: an argument was not
/// acceptable, and the message says why.
#[derive(Debug)]
pub enum XDeltaError {
    InvalidArg(String),
}

impl View for XDeltaError {
    type V = Seq<char>;

    /// The message of the error.
    open spec fn view(&self) -> Seq<char> {
        match self {
            XDeltaError::InvalidArg(message) => message@,
        }
    }
}

/// One digit of lower-case hexadecimal.
fn hex_digit(value: u8) -> (digit: &'static str)
    requires
        value < 16,
    ensures
        digit@ == hex_digit_text(value as int),
{
    let digits: &'static str = "0123456789abcdef";
    proof {
        reveal_strlit("0123456789abcdef");
    }
    digits.substring_ascii(value as usize, value as usize + 1)
}

impl XDeltaError {
    /// The error that reports `fault`.
    pub fn new(fault: Fault) -> (e: XDeltaError)
        ensures
            e@ == fault.message(),
    {
        match fault {
            Fault::ZeroBlockSize => XDeltaError::InvalidArg("block_size must be > 0".to_owned()),
            Fault::TruncatedLiteralLength => XDeltaError::InvalidArg(
                "truncated ADD length".to_owned(),
            ),
            Fault::TruncatedLiteralData => XDeltaError::InvalidArg("truncated ADD data".to_owned()),
            Fault::TruncatedCopy => XDeltaError::InvalidArg("truncated COPY entry".to_owned()),
            Fault::CopyOutOfRange => XDeltaError::InvalidArg("COPY out of range".to_owned()),
            Fault::UnknownOpcode(byte) => {
                let mut message: String = "unknown opcode 0x".to_owned();
                if byte >= 16 {
                    message.append(hex_digit(byte / 16));
                }
                message.append(hex_digit(byte % 16));
                XDeltaError::InvalidArg(message)
            },
        }
    }
}

} // verus!
