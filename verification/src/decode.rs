//! The decoder: replays the records of a patch against the old buffer.

use crate::error::{Fault, XDeltaError};
use crate::wire::{
    all_well_formed, get_u32_le, get_u64_le, le_bytes_u32, le_bytes_u64, le_u32, le_u64,
    lemma_le_bytes_u32_round_trip, lemma_le_bytes_u64_round_trip, lemma_le_u32_round_trip,
    lemma_le_u64_round_trip, lemma_serialize_concat, lemma_serialize_one, length_field, record,
    serialize, total_output_len, Instruction, COPY_RECORD, LITERAL_HEADER, OP_COPY, OP_LITERAL,
};
use vstd::prelude::*;

verus! {

/// The first record of a nonempty patch and the number of bytes that it
/// takes, or the reason for which it cannot be read.
pub open spec fn decode_first(patch: Seq<u8>) -> Result<(Instruction, nat), Fault>
    recommends
        patch.len() > 0,
{
    if patch[0] == OP_LITERAL {
        if patch.len() < 5 {
            Err(Fault::TruncatedLiteralLength)
        } else {
            let length = le_u32(patch.subrange(1, 5));
            if patch.len() - 5 < length {
                Err(Fault::TruncatedLiteralData)
            } else {
                Ok(
                    (
                        Instruction::Literal { bytes: patch.subrange(5, 5 + length) },
                        (5 + length) as nat,
                    ),
                )
            }
        }
    } else if patch[0] == OP_COPY {
        if patch.len() < 13 {
            Err(Fault::TruncatedCopy)
        } else {
            Ok(
                (
                    Instruction::Copy {
                        offset: le_u64(patch.subrange(1, 9)),
                        length: le_u32(patch.subrange(9, 13)),
                    },
                    13,
                ),
            )
        }
    } else {
        Err(Fault::UnknownOpcode(patch[0]))
    }
}

/// The bytes that one instruction appends to the output, or the reason for
/// which it cannot be carried out on `old`.
pub open spec fn produce(old: Seq<u8>, instruction: Instruction) -> Result<Seq<u8>, Fault> {
    match instruction {
        Instruction::Literal { bytes } => Ok(bytes),
        Instruction::Copy { offset, length } => if offset + length > old.len() {
            Err(Fault::CopyOutOfRange)
        } else {
            Ok(old.subrange(offset as int, offset + length))
        },
    }
}

/// `done` followed by what the rest of a patch gives, if the rest gives
/// anything.
pub open spec fn prepend(done: Seq<u8>, rest: Result<Seq<u8>, Fault>) -> Result<Seq<u8>, Fault> {
    match rest {
        Ok(bytes) => Ok(done + bytes),
        Err(fault) => Err(fault),
    }
}

/// What applying `patch` to `old` gives: the outputs of its records in
/// order, or the fault of the first record that cannot be read or carried
/// out.
pub open spec fn apply_spec(old: Seq<u8>, patch: Seq<u8>) -> Result<Seq<u8>, Fault>
    decreases patch.len(),
{
    if patch.len() == 0 {
        Ok(Seq::empty())
    } else {
        match decode_first(patch) {
            Err(fault) => Err(fault),
            Ok((instruction, used)) => match produce(old, instruction) {
                Err(fault) => Err(fault),
                Ok(bytes) => prepend(bytes, apply_spec(old, patch.skip(used as int))),
            },
        }
    }
}

/// What carrying out `instructions` on `old` gives: their outputs in order,
/// or the fault of the first that cannot be carried out.
pub open spec fn run(old: Seq<u8>, instructions: Seq<Instruction>) -> Result<Seq<u8>, Fault>
    decreases instructions.len(),
{
    if instructions.len() == 0 {
        Ok(Seq::empty())
    } else {
        match run(old, instructions.drop_last()) {
            Err(fault) => Err(fault),
            Ok(bytes) => prepend(bytes, produce(old, instructions.last())),
        }
    }
}

/// What applying a patch gives when the part of it from `pos` on starts
/// with a whole literal record of `len` bytes.
proof fn lemma_apply_literal_at(old: Seq<u8>, patch: Seq<u8>, pos: int, len: u32)
    requires
        0 <= pos,
        pos + 5 + len <= patch.len(),
        patch[pos] == OP_LITERAL,
        len == le_u32(patch.subrange(pos + 1, pos + 5)),
    ensures
        apply_spec(old, patch.skip(pos)) == prepend(
            patch.subrange(pos + 5, pos + 5 + len),
            apply_spec(old, patch.skip(pos + 5 + len)),
        ),
{
    let rest = patch.skip(pos);
    assert(rest[0] == patch[pos]);
    assert(rest.subrange(1, 5) =~= patch.subrange(pos + 1, pos + 5));
    assert(rest.subrange(5, 5 + len) =~= patch.subrange(pos + 5, pos + 5 + len));
    assert(rest.skip(5 + len) =~= patch.skip(pos + 5 + len));
}

/// What applying a patch gives when the part of it from `pos` on starts
/// with a whole copy record.
proof fn lemma_apply_copy_at(old: Seq<u8>, patch: Seq<u8>, pos: int, offset: u64, len: u32)
    requires
        0 <= pos,
        pos + 13 <= patch.len(),
        patch[pos] == OP_COPY,
        offset == le_u64(patch.subrange(pos + 1, pos + 9)),
        len == le_u32(patch.subrange(pos + 9, pos + 13)),
    ensures
        apply_spec(old, patch.skip(pos)) == if offset + len > old.len() {
            Err::<Seq<u8>, Fault>(Fault::CopyOutOfRange)
        } else {
            prepend(
                old.subrange(offset as int, offset + len),
                apply_spec(old, patch.skip(pos + 13)),
            )
        },
{
    let rest = patch.skip(pos);
    assert(rest[0] == patch[pos]);
    assert(rest.subrange(1, 9) =~= patch.subrange(pos + 1, pos + 9));
    assert(rest.subrange(9, 13) =~= patch.subrange(pos + 9, pos + 13));
    assert(rest.skip(13) =~= patch.skip(pos + 13));
}

/// What applying a patch gives when the part of it from `pos` on cannot be
/// read as a record.
proof fn lemma_apply_fault_at(old: Seq<u8>, patch: Seq<u8>, pos: int)
    requires
        0 <= pos < patch.len(),
    ensures
        patch[pos] == OP_LITERAL && patch.len() - pos < 5 ==> apply_spec(old, patch.skip(pos))
            == Err::<Seq<u8>, Fault>(Fault::TruncatedLiteralLength),
        patch[pos] == OP_LITERAL && patch.len() - pos >= 5 && patch.len() - pos - 5 < le_u32(
            patch.subrange(pos + 1, pos + 5),
        ) ==> apply_spec(old, patch.skip(pos)) == Err::<Seq<u8>, Fault>(
            Fault::TruncatedLiteralData,
        ),
        patch[pos] == OP_COPY && patch.len() - pos < 13 ==> apply_spec(old, patch.skip(pos))
            == Err::<Seq<u8>, Fault>(Fault::TruncatedCopy),
        patch[pos] != OP_LITERAL && patch[pos] != OP_COPY ==> apply_spec(old, patch.skip(pos))
            == Err::<Seq<u8>, Fault>(Fault::UnknownOpcode(patch[pos])),
{
    let rest = patch.skip(pos);
    assert(rest[0] == patch[pos]);
    if patch.len() - pos >= 5 {
        assert(rest.subrange(1, 5) =~= patch.subrange(pos + 1, pos + 5));
    }
}

/// Applies `patch` to `old`.
///
/// Returns the bytes that the records of the patch give, one after the
/// other. Fails on the first record that is cut short, starts with an
/// unknown tag, or copies from beyond the end of `old`; the message of the
/// error names the fault.
pub fn apply_patch_bytes(old: &[u8], patch: &[u8]) -> (result: Result<Vec<u8>, XDeltaError>)
    ensures
        match apply_spec(old@, patch@) {
            Ok(bytes) => result matches Ok(out) && out@ == bytes,
            Err(fault) => result matches Err(e) && e@ == fault.message(),
        },
{
    let mut pos: usize = 0;
    let mut out: Vec<u8> = Vec::new();
    assert(patch@.skip(0) =~= patch@);
    while pos < patch.len()
        invariant
            pos <= patch@.len(),
            apply_spec(old@, patch@) == prepend(out@, apply_spec(old@, patch@.skip(pos as int))),
        decreases patch@.len() - pos,
    {
        let ghost done = out@;
        let opcode: u8 = patch[pos];
        let left: usize = patch.len() - pos;
        proof {
            lemma_apply_fault_at(old@, patch@, pos as int);
        }
        if opcode == OP_LITERAL {
            if left < LITERAL_HEADER {
                return Err(XDeltaError::new(Fault::TruncatedLiteralLength));
            }
            let len: u32 = get_u32_le(patch, pos + 1);
            if left - LITERAL_HEADER < len as usize {
                return Err(XDeltaError::new(Fault::TruncatedLiteralData));
            }
            let start: usize = pos + LITERAL_HEADER;
            let end: usize = start + len as usize;
            out.extend_from_slice(&patch[start..end]);
            proof {
                let chunk = patch@.subrange(start as int, end as int);
                assert(out@ =~= done + chunk);
                lemma_apply_literal_at(old@, patch@, pos as int, len);
                lemma_prepend_twice(done, chunk, apply_spec(old@, patch@.skip(end as int)));
            }
            pos = end;
        } else if opcode == OP_COPY {
            if left < COPY_RECORD {
                return Err(XDeltaError::new(Fault::TruncatedCopy));
            }
            let offset: u64 = get_u64_le(patch, pos + 1);
            let len: u32 = get_u32_le(patch, pos + 9);
            proof {
                lemma_apply_copy_at(old@, patch@, pos as int, offset, len);
            }
            let old_len: u64 = old.len() as u64;
            if offset > old_len || old_len - offset < len as u64 {
                return Err(XDeltaError::new(Fault::CopyOutOfRange));
            }
            let start: usize = offset as usize;
            let end: usize = start + len as usize;
            out.extend_from_slice(&old[start..end]);
            proof {
                let chunk = old@.subrange(start as int, end as int);
                assert(out@ =~= done + chunk);
                lemma_prepend_twice(done, chunk, apply_spec(old@, patch@.skip(pos + 13)));
            }
            pos = pos + COPY_RECORD;
        } else {
            return Err(XDeltaError::new(Fault::UnknownOpcode(opcode)));
        }
    }
    assert(out@ + Seq::<u8>::empty() =~= out@);
    Ok(out)
}

/// Prepending in two steps is prepending the two parts joined.
proof fn lemma_prepend_twice(done: Seq<u8>, chunk: Seq<u8>, rest: Result<Seq<u8>, Fault>)
    ensures
        prepend(done, prepend(chunk, rest)) == prepend(done + chunk, rest),
{
    if let Ok(bytes) = rest {
        assert(done + (chunk + bytes) =~= (done + chunk) + bytes);
    }
}

/// The first record of a patch that starts with a literal record.
proof fn lemma_decode_literal(bytes: Seq<u8>, tail: Seq<u8>)
    requires
        bytes.len() <= u32::MAX,
    ensures
        decode_first(record(Instruction::Literal { bytes }) + tail) == Ok::<
            (Instruction, nat),
            Fault,
        >((Instruction::Literal { bytes }, 5 + bytes.len())),
        record(Instruction::Literal { bytes }).len() == 5 + bytes.len(),
        (record(Instruction::Literal { bytes }) + tail).skip(5 + bytes.len() as int) == tail,
{
    let patch = record(Instruction::Literal { bytes }) + tail;
    let field = length_field(bytes.len());
    assert(field == bytes.len());
    lemma_le_u32_round_trip(field);
    assert(patch[0] == 0);
    assert(patch.subrange(1, 5) =~= le_bytes_u32(field));
    assert(patch.subrange(5, 5 + bytes.len() as int) =~= bytes);
    assert(patch.skip(5 + bytes.len() as int) =~= tail);
}

/// The first record of a patch that starts with a copy record.
proof fn lemma_decode_copy(offset: u64, length: u32, tail: Seq<u8>)
    ensures
        decode_first(record(Instruction::Copy { offset, length }) + tail) == Ok::<
            (Instruction, nat),
            Fault,
        >((Instruction::Copy { offset, length }, 13)),
        record(Instruction::Copy { offset, length }).len() == 13,
        (record(Instruction::Copy { offset, length }) + tail).skip(13) == tail,
{
    let patch = record(Instruction::Copy { offset, length }) + tail;
    lemma_le_u64_round_trip(offset);
    lemma_le_u32_round_trip(length);
    assert(patch[0] == 1);
    assert(patch.subrange(1, 9) =~= le_bytes_u64(offset));
    assert(patch.subrange(9, 13) =~= le_bytes_u32(length));
    assert(patch.skip(13) =~= tail);
}

/// The decoder reads a record back as the instruction that was written, and
/// goes on with what follows the record.
pub proof fn lemma_apply_record(old: Seq<u8>, instruction: Instruction, tail: Seq<u8>)
    requires
        instruction.well_formed(),
    ensures
        decode_first(record(instruction) + tail) == Ok::<(Instruction, nat), Fault>(
            (instruction, record(instruction).len()),
        ),
        apply_spec(old, record(instruction) + tail) == match produce(old, instruction) {
            Err(fault) => Err(fault),
            Ok(bytes) => prepend(bytes, apply_spec(old, tail)),
        },
{
    match instruction {
        Instruction::Literal { bytes } => {
            lemma_decode_literal(bytes, tail);
        },
        Instruction::Copy { offset, length } => {
            lemma_decode_copy(offset, length, tail);
        },
    }
}

/// Applying the bytes of a patch is carrying out its instructions: the
/// decoder gives what the instructions give, then goes on with what follows
/// the patch.
pub proof fn lemma_apply_serialized(old: Seq<u8>, instructions: Seq<Instruction>, tail: Seq<u8>)
    requires
        all_well_formed(instructions),
    ensures
        apply_spec(old, serialize(instructions) + tail) == match run(old, instructions) {
            Err(fault) => Err(fault),
            Ok(bytes) => prepend(bytes, apply_spec(old, tail)),
        },
    decreases instructions.len(),
{
    if instructions.len() == 0 {
        assert(serialize(instructions) + tail =~= tail);
        if let Ok(bytes) = apply_spec(old, tail) {
            assert(Seq::<u8>::empty() + bytes =~= bytes);
        }
    } else {
        let init = instructions.drop_last();
        let last = instructions.last();
        assert(all_well_formed(init)) by {
            assert forall|j: int| 0 <= j < init.len() implies (
            #[trigger] init[j]).well_formed() by {
                assert(init[j] == instructions[j]);
            }
        }
        assert(serialize(instructions) + tail =~= serialize(init) + (record(last) + tail));
        lemma_apply_serialized(old, init, record(last) + tail);
        lemma_apply_record(old, last, tail);
        if let Ok(done) = run(old, init) {
            if let Ok(bytes) = produce(old, last) {
                if let Ok(rest) = apply_spec(old, tail) {
                    assert(done + (bytes + rest) =~= (done + bytes) + rest);
                }
            }
        }
    }
}

/// Applying the bytes of a whole patch gives what its instructions give.
pub proof fn lemma_apply_is_run(old: Seq<u8>, instructions: Seq<Instruction>)
    requires
        all_well_formed(instructions),
    ensures
        apply_spec(old, serialize(instructions)) == run(old, instructions),
{
    lemma_apply_serialized(old, instructions, Seq::empty());
    assert(serialize(instructions) + Seq::<u8>::empty() =~= serialize(instructions));
    if let Ok(bytes) = run(old, instructions) {
        assert(bytes + Seq::<u8>::empty() =~= bytes);
    }
}

/// Carrying out two patches in a row: the first fault of either, or the
/// output of the first followed by that of the second.
pub proof fn lemma_run_concat(old: Seq<u8>, first: Seq<Instruction>, second: Seq<Instruction>)
    ensures
        run(old, first + second) == match run(old, first) {
            Err(fault) => Err(fault),
            Ok(bytes) => prepend(bytes, run(old, second)),
        },
    decreases second.len(),
{
    if second.len() == 0 {
        assert(first + second =~= first);
        if let Ok(bytes) = run(old, first) {
            assert(bytes + Seq::<u8>::empty() =~= bytes);
        }
    } else {
        lemma_run_concat(old, first, second.drop_last());
        assert((first + second).drop_last() =~= first + second.drop_last());
        assert((first + second).last() == second.last());
        if let Ok(a) = run(old, first) {
            if let Ok(b) = run(old, second.drop_last()) {
                if let Ok(c) = produce(old, second.last()) {
                    assert(a + (b + c) =~= (a + b) + c);
                }
            }
        }
    }
}

/// Carrying out one instruction gives what the instruction gives.
pub proof fn lemma_run_one(old: Seq<u8>, instruction: Instruction)
    ensures
        run(old, seq![instruction]) == produce(old, instruction),
{
    reveal_with_fuel(run, 2);
    assert(seq![instruction].drop_last() =~= Seq::<Instruction>::empty());
    if let Ok(bytes) = produce(old, instruction) {
        assert(Seq::<u8>::empty() + bytes =~= bytes);
    }
}

/// The output of a patch is as long as its instructions say: the lengths of
/// its literals and copies, added up.
pub proof fn lemma_run_len(old: Seq<u8>, instructions: Seq<Instruction>)
    ensures
        run(old, instructions) matches Ok(bytes) ==> bytes.len() == total_output_len(
            instructions,
        ),
    decreases instructions.len(),
{
    if instructions.len() > 0 {
        lemma_run_len(old, instructions.drop_last());
    }
}

/// The instructions of a patch: its records, as far as they can be read.
pub open spec fn records(patch: Seq<u8>) -> Seq<Instruction>
    decreases patch.len(),
{
    if patch.len() == 0 {
        Seq::empty()
    } else {
        match decode_first(patch) {
            Err(_) => Seq::empty(),
            Ok((instruction, used)) => seq![instruction] + records(patch.skip(used as int)),
        }
    }
}

/// A record that can be read is the record of the instruction that it is
/// read as.
proof fn lemma_record_read_back(patch: Seq<u8>)
    requires
        patch.len() > 0,
        decode_first(patch) is Ok,
    ensures
        ({
            let (instruction, used) = decode_first(patch)->Ok_0;
            &&& instruction.well_formed()
            &&& 0 < used <= patch.len()
            &&& record(instruction) == patch.take(used as int)
        }),
{
    let (instruction, used) = decode_first(patch)->Ok_0;
    match instruction {
        Instruction::Literal { bytes } => {
            let field = patch.subrange(1, 5);
            lemma_le_bytes_u32_round_trip(field);
            assert(length_field(bytes.len()) == le_u32(field));
            assert(record(instruction) =~= patch.take(used as int));
        },
        Instruction::Copy { offset, length } => {
            lemma_le_bytes_u64_round_trip(patch.subrange(1, 9));
            lemma_le_bytes_u32_round_trip(patch.subrange(9, 13));
            assert(record(instruction) =~= patch.take(used as int));
        },
    }
}

/// A patch that can be applied is made of whole records: it is the bytes
/// of its instructions, and applying it is carrying them out.
pub proof fn lemma_applied_patch(old: Seq<u8>, patch: Seq<u8>)
    requires
        apply_spec(old, patch) is Ok,
    ensures
        all_well_formed(records(patch)),
        serialize(records(patch)) == patch,
        run(old, records(patch)) == apply_spec(old, patch),
        apply_spec(old, patch)->Ok_0.len() == total_output_len(records(patch)),
    decreases patch.len(),
{
    if patch.len() > 0 {
        let (instruction, used) = decode_first(patch)->Ok_0;
        let rest = patch.skip(used as int);
        let here = records(patch);
        lemma_record_read_back(patch);
        lemma_applied_patch(old, rest);
        assert(here == seq![instruction] + records(rest));
        assert forall|j: int| 0 <= j < here.len() implies (#[trigger] here[j]).well_formed() by {
            if j > 0 {
                assert(here[j] == records(rest)[j - 1]);
            }
        }
        lemma_serialize_concat(seq![instruction], records(rest));
        lemma_serialize_one(instruction);
        assert(patch.take(used as int) + rest =~= patch);
        lemma_run_concat(old, seq![instruction], records(rest));
        lemma_run_one(old, instruction);
    }
    lemma_run_len(old, records(patch));
}

} // verus!
