//! The flat byte format of a patch: a sequence of records without header.
//!
//! A literal record is the tag `0x00`, a four-byte little-endian length and
//! that many bytes. A copy record is the tag `0x01`, an eight-byte
//! little-endian offset into the old buffer and a four-byte little-endian
//! length.

use vstd::prelude::*;

verus! {

/// Tag of a literal record.
pub const OP_LITERAL: u8 = 0x00;

/// Tag of a copy record.
pub const OP_COPY: u8 = 0x01;

/// Bytes that a literal record holds before its payload.
pub const LITERAL_HEADER: usize = 5;

/// Bytes of a copy record.
pub const COPY_RECORD: usize = 13;

/// One instruction of a patch.
pub enum Instruction {
    /// Append these bytes to the output.
    Literal { bytes: Seq<u8> },
    /// Append `length` bytes of the old buffer, starting at `offset`.
    Copy { offset: u64, length: u32 },
}

impl Instruction {
    /// A literal can be written down only if its length fits the four bytes
    /// of the length field.
    pub open spec fn well_formed(self) -> bool {
        match self {
            Instruction::Literal { bytes } => bytes.len() <= u32::MAX,
            Instruction::Copy { .. } => true,
        }
    }

    /// Number of bytes that the instruction adds to the output.
    pub open spec fn output_len(self) -> nat {
        match self {
            Instruction::Literal { bytes } => bytes.len(),
            Instruction::Copy { length, .. } => length as nat,
        }
    }
}

/// Number of bytes that the instructions of a patch add to the output.
pub open spec fn total_output_len(instructions: Seq<Instruction>) -> nat
    decreases instructions.len(),
{
    if instructions.len() == 0 {
        0
    } else {
        total_output_len(instructions.drop_last()) + instructions.last().output_len()
    }
}

/// Whether every instruction of a patch can be written down.
pub open spec fn all_well_formed(instructions: Seq<Instruction>) -> bool {
    forall|j: int| 0 <= j < instructions.len() ==> (#[trigger] instructions[j]).well_formed()
}

/// The four bytes of `x`, lowest first.
pub open spec fn le_bytes_u32(x: u32) -> Seq<u8> {
    seq![
        (x % 256) as u8,
        (x / 0x100 % 256) as u8,
        (x / 0x1_0000 % 256) as u8,
        (x / 0x100_0000 % 256) as u8,
    ]
}

/// The eight bytes of `x`, lowest first.
pub open spec fn le_bytes_u64(x: u64) -> Seq<u8> {
    seq![
        (x % 256) as u8,
        (x / 0x100 % 256) as u8,
        (x / 0x1_0000 % 256) as u8,
        (x / 0x100_0000 % 256) as u8,
        (x / 0x1_0000_0000 % 256) as u8,
        (x / 0x100_0000_0000 % 256) as u8,
        (x / 0x1_0000_0000_0000 % 256) as u8,
        (x / 0x100_0000_0000_0000 % 256) as u8,
    ]
}

/// The number that the first four bytes of `s` spell, lowest byte first.
pub open spec fn le_u32(s: Seq<u8>) -> u32
    recommends
        s.len() >= 4,
{
    (s[0] + s[1] * 0x100 + s[2] * 0x1_0000 + s[3] * 0x100_0000) as u32
}

/// The number that the first eight bytes of `s` spell, lowest byte first.
pub open spec fn le_u64(s: Seq<u8>) -> u64
    recommends
        s.len() >= 8,
{
    (s[0] + s[1] * 0x100 + s[2] * 0x1_0000 + s[3] * 0x100_0000 + s[4] * 0x1_0000_0000 + s[5]
        * 0x100_0000_0000 + s[6] * 0x1_0000_0000_0000 + s[7] * 0x100_0000_0000_0000) as u64
}

/// The length field of a literal of `len` bytes: `len` cut to 32 bits.
pub open spec fn length_field(len: nat) -> u32 {
    (len % 0x1_0000_0000) as u32
}

/// The bytes of one record.
pub open spec fn record(instruction: Instruction) -> Seq<u8> {
    match instruction {
        Instruction::Literal { bytes } => seq![OP_LITERAL] + le_bytes_u32(
            length_field(bytes.len()),
        ) + bytes,
        Instruction::Copy { offset, length } => seq![OP_COPY] + le_bytes_u64(offset)
            + le_bytes_u32(length),
    }
}

/// The bytes of a patch: its records one after the other.
pub open spec fn serialize(instructions: Seq<Instruction>) -> Seq<u8>
    decreases instructions.len(),
{
    if instructions.len() == 0 {
        Seq::empty()
    } else {
        serialize(instructions.drop_last()) + record(instructions.last())
    }
}

/// Reading back what was written gives the number that was written.
pub proof fn lemma_le_u32_round_trip(x: u32)
    ensures
        le_bytes_u32(x).len() == 4,
        le_u32(le_bytes_u32(x)) == x,
{
}

/// Reading back what was written gives the number that was written.
pub proof fn lemma_le_u64_round_trip(x: u64)
    ensures
        le_bytes_u64(x).len() == 8,
        le_u64(le_bytes_u64(x)) == x,
{
    let q1: int = x as int / 0x100;
    let q2: int = x as int / 0x1_0000;
    let q3: int = x as int / 0x100_0000;
    let q4: int = x as int / 0x1_0000_0000;
    let q5: int = x as int / 0x100_0000_0000;
    let q6: int = x as int / 0x1_0000_0000_0000;
    let q7: int = x as int / 0x100_0000_0000_0000;
    assert(q2 == q1 / 0x100);
    assert(q3 == q2 / 0x100);
    assert(q4 == q3 / 0x100);
    assert(q5 == q4 / 0x100);
    assert(q6 == q5 / 0x100);
    assert(q7 == q6 / 0x100);
    assert(q7 < 0x100);
    let s = le_bytes_u64(x);
    assert(s[0] == x as int % 256 && s[1] == q1 % 256 && s[2] == q2 % 256 && s[3] == q3 % 256);
    assert(s[4] == q4 % 256 && s[5] == q5 % 256 && s[6] == q6 % 256 && s[7] == q7);
    assert(q6 == s[6] + 0x100 * s[7]);
    assert(q5 == s[5] + 0x100 * q6);
    assert(q4 == s[4] + 0x100 * q5);
    assert(q3 == s[3] + 0x100 * q4);
    assert(q2 == s[2] + 0x100 * q3);
    assert(q1 == s[1] + 0x100 * q2);
    assert(x == s[0] + 0x100 * q1);
}

/// Writing down what was read gives the bytes that were read.
pub proof fn lemma_le_bytes_u32_round_trip(s: Seq<u8>)
    requires
        s.len() == 4,
    ensures
        le_bytes_u32(le_u32(s)) == s,
{
    let x: int = s[0] + s[1] * 0x100 + s[2] * 0x1_0000 + s[3] * 0x100_0000;
    let q1: int = s[1] + s[2] * 0x100 + s[3] * 0x1_0000;
    let q2: int = s[2] + s[3] * 0x100;
    assert(x == s[0] + 0x100 * q1);
    assert(q1 == s[1] + 0x100 * q2);
    assert(x / 0x100 == q1);
    assert(q1 / 0x100 == q2);
    assert(x / 0x1_0000 == q2);
    assert(x / 0x100_0000 == s[3]);
    assert(le_bytes_u32(le_u32(s)) =~= s);
}

/// Writing down what was read gives the bytes that were read.
pub proof fn lemma_le_bytes_u64_round_trip(s: Seq<u8>)
    requires
        s.len() == 8,
    ensures
        le_bytes_u64(le_u64(s)) == s,
{
    let q7: int = s[7] as int;
    let q6: int = s[6] + 0x100 * q7;
    let q5: int = s[5] + 0x100 * q6;
    let q4: int = s[4] + 0x100 * q5;
    let q3: int = s[3] + 0x100 * q4;
    let q2: int = s[2] + 0x100 * q3;
    let q1: int = s[1] + 0x100 * q2;
    let x: int = s[0] + 0x100 * q1;
    assert(x == le_u64(s));
    assert(x / 0x100 == q1);
    assert(q1 / 0x100 == q2);
    assert(q2 / 0x100 == q3);
    assert(q3 / 0x100 == q4);
    assert(q4 / 0x100 == q5);
    assert(q5 / 0x100 == q6);
    assert(q6 / 0x100 == q7);
    assert(x / 0x1_0000 == q2);
    assert(x / 0x100_0000 == q3);
    assert(x / 0x1_0000_0000 == q4);
    assert(x / 0x100_0000_0000 == q5);
    assert(x / 0x1_0000_0000_0000 == q6);
    assert(x / 0x100_0000_0000_0000 == q7);
    assert(le_bytes_u64(le_u64(s)) =~= s);
}

/// The records of two patches in a row are the bytes of the first patch
/// followed by those of the second.
pub proof fn lemma_serialize_concat(first: Seq<Instruction>, second: Seq<Instruction>)
    ensures
        serialize(first + second) == serialize(first) + serialize(second),
    decreases second.len(),
{
    if second.len() == 0 {
        assert(first + second =~= first);
    } else {
        lemma_serialize_concat(first, second.drop_last());
        assert((first + second).drop_last() =~= first + second.drop_last());
        assert((first + second).last() == second.last());
    }
}

/// The bytes of a patch of one instruction are its record.
pub proof fn lemma_serialize_one(instruction: Instruction)
    ensures
        serialize(seq![instruction]) == record(instruction),
{
    reveal_with_fuel(serialize, 2);
    assert(seq![instruction].drop_last() =~= Seq::<Instruction>::empty());
    assert(Seq::<u8>::empty() + record(instruction) =~= record(instruction));
}

/// Appends the four bytes of `x`, lowest first.
pub fn put_u32_le(out: &mut Vec<u8>, x: u32)
    ensures
        final(out)@ == old(out)@ + le_bytes_u32(x),
{
    out.push((x % 256) as u8);
    out.push((x / 0x100 % 256) as u8);
    out.push((x / 0x1_0000 % 256) as u8);
    out.push((x / 0x100_0000 % 256) as u8);
}

/// Appends the eight bytes of `x`, lowest first.
pub fn put_u64_le(out: &mut Vec<u8>, x: u64)
    ensures
        final(out)@ == old(out)@ + le_bytes_u64(x),
{
    out.push((x % 256) as u8);
    out.push((x / 0x100 % 256) as u8);
    out.push((x / 0x1_0000 % 256) as u8);
    out.push((x / 0x100_0000 % 256) as u8);
    out.push((x / 0x1_0000_0000 % 256) as u8);
    out.push((x / 0x100_0000_0000 % 256) as u8);
    out.push((x / 0x1_0000_0000_0000 % 256) as u8);
    out.push((x / 0x100_0000_0000_0000 % 256) as u8);
}

/// Reads the four bytes at `pos`, lowest first.
pub fn get_u32_le(buf: &[u8], pos: usize) -> (x: u32)
    requires
        pos + 4 <= buf@.len(),
    ensures
        x == le_u32(buf@.subrange(pos as int, pos + 4)),
{
    let b0: u32 = buf[pos] as u32;
    let b1: u32 = buf[pos + 1] as u32;
    let b2: u32 = buf[pos + 2] as u32;
    let b3: u32 = buf[pos + 3] as u32;
    b0 + b1 * 0x100 + b2 * 0x1_0000 + b3 * 0x100_0000
}

/// Reads the eight bytes at `pos`, lowest first.
pub fn get_u64_le(buf: &[u8], pos: usize) -> (x: u64)
    requires
        pos + 8 <= buf@.len(),
    ensures
        x == le_u64(buf@.subrange(pos as int, pos + 8)),
{
    let b0: u64 = buf[pos] as u64;
    let b1: u64 = buf[pos + 1] as u64;
    let b2: u64 = buf[pos + 2] as u64;
    let b3: u64 = buf[pos + 3] as u64;
    let b4: u64 = buf[pos + 4] as u64;
    let b5: u64 = buf[pos + 5] as u64;
    let b6: u64 = buf[pos + 6] as u64;
    let b7: u64 = buf[pos + 7] as u64;
    b0 + b1 * 0x100 + b2 * 0x1_0000 + b3 * 0x100_0000 + b4 * 0x1_0000_0000 + b5 * 0x100_0000_0000
        + b6 * 0x1_0000_0000_0000 + b7 * 0x100_0000_0000_0000
}

} // verus!
