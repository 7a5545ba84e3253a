//! What holds of the encoder and the decoder together.

use crate::decode::{
    apply_spec, decode_first, lemma_apply_is_run, lemma_apply_serialized, lemma_run_concat,
    lemma_run_one, prepend, produce, run,
};
use crate::encode::{copy_of, encode_spec, flush, patch_bytes, scan, window_at};
use crate::error::Fault;
use crate::matching::{first_match, lemma_first_match, lemma_least_match, matches_block};
use crate::signature::{block, block_count, lemma_block_exists, lemma_block_len};
use crate::wire::{
    all_well_formed, le_bytes_u32, lemma_le_u32_round_trip, length_field, record, serialize,
    Instruction,
};
use vstd::prelude::*;

verus! {

/// Whether the records that the encoder writes from `pos` on say what the
/// encoder means by them: each copy gives the bytes of the window that it
/// stands for, and each literal is short enough for its length field.
pub open spec fn faithful_from(
    old: Seq<u8>,
    new: Seq<u8>,
    block_size: nat,
    pos: nat,
    pending: Seq<u8>,
) -> bool
    decreases new.len() - pos,
{
    if pos >= new.len() || block_size == 0 {
        pending.len() <= u32::MAX
    } else {
        let window = window_at(new, block_size, pos);
        match first_match(old, block_size, window) {
            Some(i) => {
                &&& pending.len() <= u32::MAX
                &&& produce(old, copy_of(block_size, i, window.len())) == Ok::<Seq<u8>, Fault>(
                    window,
                )
                &&& faithful_from(old, new, block_size, pos + window.len(), Seq::empty())
            },
            None => {
                let grown = pending.push(new[pos as int]);
                if grown.len() >= block_size {
                    &&& grown.len() <= u32::MAX
                    &&& faithful_from(old, new, block_size, pos + 1, Seq::empty())
                } else {
                    faithful_from(old, new, block_size, pos + 1, grown)
                }
            },
        }
    }
}

/// Whether the patch that the encoder writes for `old` and `new` says what
/// the encoder means by it.
///
/// This fails where a window of `new` has the SHA-256 digest and the weak
/// checksum of a block of `old` whose bytes are not those of the window, and
/// where a window or a run of literal bytes is longer than 32 bits can say.
pub open spec fn faithful(old: Seq<u8>, new: Seq<u8>, block_size: nat) -> bool {
    faithful_from(old, new, block_size, 0, Seq::empty())
}

/// Two patches that can be written down and carried out can be written
/// down and carried out in a row, and give their outputs in a row.
proof fn lemma_run_parts(
    old: Seq<u8>,
    first: Seq<Instruction>,
    second: Seq<Instruction>,
    first_out: Seq<u8>,
    second_out: Seq<u8>,
)
    requires
        all_well_formed(first),
        all_well_formed(second),
        run(old, first) == Ok::<Seq<u8>, Fault>(first_out),
        run(old, second) == Ok::<Seq<u8>, Fault>(second_out),
    ensures
        all_well_formed(first + second),
        run(old, first + second) == Ok::<Seq<u8>, Fault>(first_out + second_out),
{
    lemma_run_concat(old, first, second);
    let both = first + second;
    assert forall|j: int| 0 <= j < both.len() implies (#[trigger] both[j]).well_formed() by {
        if j < first.len() {
            assert(both[j] == first[j]);
        } else {
            assert(both[j] == second[j - first.len()]);
        }
    }
}

/// Carrying out what the encoder writes from `pos` on gives the pending
/// bytes and the rest of `new`, if the encoder's records are faithful.
pub proof fn lemma_scan_rebuilds(
    old: Seq<u8>,
    new: Seq<u8>,
    block_size: nat,
    pos: nat,
    pending: Seq<u8>,
)
    requires
        block_size > 0,
        pos <= new.len(),
        faithful_from(old, new, block_size, pos, pending),
    ensures
        all_well_formed(scan(old, new, block_size, pos, pending)),
        run(old, scan(old, new, block_size, pos, pending)) == Ok::<Seq<u8>, Fault>(
            pending + new.skip(pos as int),
        ),
    decreases new.len() - pos,
{
    let here = scan(old, new, block_size, pos, pending);
    if pos >= new.len() {
        lemma_flush_runs(old, pending);
        assert(pending + new.skip(pos as int) =~= pending);
    } else {
        let window = window_at(new, block_size, pos);
        match first_match(old, block_size, window) {
            Some(i) => {
                let copy = copy_of(block_size, i, window.len());
                let next = pos + window.len();
                let rest = scan(old, new, block_size, next, Seq::empty());
                let tail = new.skip(next as int);
                assert(here == flush(pending) + seq![copy] + rest);
                lemma_scan_rebuilds(old, new, block_size, next, Seq::empty());
                assert(Seq::<u8>::empty() + tail =~= tail);
                lemma_flush_runs(old, pending);
                lemma_run_one(old, copy);
                assert(all_well_formed(seq![copy]));
                lemma_run_parts(old, flush(pending), seq![copy], pending, window);
                lemma_run_parts(old, flush(pending) + seq![copy], rest, pending + window, tail);
                assert((pending + window) + tail =~= pending + new.skip(pos as int));
            },
            None => {
                let grown = pending.push(new[pos as int]);
                let tail = new.skip(pos as int + 1);
                assert(grown + tail =~= pending + new.skip(pos as int));
                if grown.len() >= block_size {
                    let rest = scan(old, new, block_size, pos + 1, Seq::empty());
                    assert(here == flush(grown) + rest);
                    lemma_scan_rebuilds(old, new, block_size, pos + 1, Seq::empty());
                    assert(Seq::<u8>::empty() + tail =~= tail);
                    lemma_flush_runs(old, grown);
                    lemma_run_parts(old, flush(grown), rest, grown, tail);
                } else {
                    assert(here == scan(old, new, block_size, pos + 1, grown));
                    lemma_scan_rebuilds(old, new, block_size, pos + 1, grown);
                }
            },
        }
    }
}

/// Writing out pending bytes that fit the length field gives those bytes
/// back.
proof fn lemma_flush_runs(old: Seq<u8>, pending: Seq<u8>)
    requires
        pending.len() <= u32::MAX,
    ensures
        all_well_formed(flush(pending)),
        run(old, flush(pending)) == Ok::<Seq<u8>, Fault>(pending),
{
    if pending.len() > 0 {
        lemma_run_one(old, Instruction::Literal { bytes: pending });
    } else {
        assert(pending =~= Seq::<u8>::empty());
    }
}

/// Round trip: applying to `old` the patch that the encoder writes for `old`
/// and `new` gives `new`, whenever the records of that patch are faithful.
pub proof fn lemma_round_trip(old: Seq<u8>, new: Seq<u8>, block_size: nat)
    requires
        block_size > 0,
        faithful(old, new, block_size),
    ensures
        apply_spec(old, patch_bytes(old, new, block_size)) == Ok::<Seq<u8>, Fault>(new),
{
    lemma_scan_rebuilds(old, new, block_size, 0, Seq::empty());
    lemma_apply_is_run(old, encode_spec(old, new, block_size));
    assert(Seq::<u8>::empty() + new.skip(0) =~= new);
}

/// Where a block or the new buffer is no longer than 32 bits can say, every
/// literal that the encoder writes fits its length field.
proof fn lemma_scan_well_formed(
    old: Seq<u8>,
    new: Seq<u8>,
    block_size: nat,
    pos: nat,
    pending: Seq<u8>,
)
    requires
        block_size > 0,
        block_size <= u32::MAX || new.len() <= u32::MAX,
        pos <= new.len(),
        pending.len() <= pos,
        pending.len() < block_size,
    ensures
        all_well_formed(scan(old, new, block_size, pos, pending)),
    decreases new.len() - pos,
{
    let here = scan(old, new, block_size, pos, pending);
    if pos < new.len() {
        let window = window_at(new, block_size, pos);
        match first_match(old, block_size, window) {
            Some(i) => {
                let copy = copy_of(block_size, i, window.len());
                let rest = scan(old, new, block_size, pos + window.len(), Seq::empty());
                lemma_scan_well_formed(old, new, block_size, pos + window.len(), Seq::empty());
                assert(here == flush(pending) + seq![copy] + rest);
                assert forall|j: int| 0 <= j < here.len() implies (
                #[trigger] here[j]).well_formed() by {
                    if j >= flush(pending).len() + 1 {
                        assert(here[j] == rest[j - flush(pending).len() - 1]);
                    }
                }
            },
            None => {
                let grown = pending.push(new[pos as int]);
                if grown.len() >= block_size {
                    let rest = scan(old, new, block_size, pos + 1, Seq::empty());
                    lemma_scan_well_formed(old, new, block_size, pos + 1, Seq::empty());
                    assert(here == flush(grown) + rest);
                    assert forall|j: int| 0 <= j < here.len() implies (
                    #[trigger] here[j]).well_formed() by {
                        if j >= 1 {
                            assert(here[j] == rest[j - 1]);
                        }
                    }
                } else {
                    lemma_scan_well_formed(old, new, block_size, pos + 1, grown);
                }
            },
        }
    }
}

/// Outputs that start alike and go on differently are different, and so are
/// an output and a fault.
proof fn lemma_prepend_differs(done: Seq<u8>, rest: Result<Seq<u8>, Fault>, wanted: Seq<u8>)
    requires
        rest != Ok::<Seq<u8>, Fault>(wanted),
    ensures
        prepend(done, rest) != Ok::<Seq<u8>, Fault>(done + wanted),
{
    if let Ok(bytes) = rest {
        if done + bytes == done + wanted {
            assert((done + bytes).skip(done.len() as int) =~= bytes);
            assert((done + wanted).skip(done.len() as int) =~= wanted);
        }
    }
}

/// A copy that does not give its window, or a rest that does not give the
/// rest of `new`, do not give the window and the rest of `new` together.
proof fn lemma_copy_differs(
    copied: Result<Seq<u8>, Fault>,
    rest: Result<Seq<u8>, Fault>,
    window: Seq<u8>,
    tail: Seq<u8>,
)
    requires
        copied matches Ok(chunk) ==> chunk.len() == window.len(),
        copied != Ok::<Seq<u8>, Fault>(window) || rest != Ok::<Seq<u8>, Fault>(tail),
    ensures
        (match copied {
            Err(fault) => Err::<Seq<u8>, Fault>(fault),
            Ok(chunk) => prepend(chunk, rest),
        }) != Ok::<Seq<u8>, Fault>(window + tail),
{
    if let Ok(chunk) = copied {
        if let Ok(more) = rest {
            if chunk + more == window + tail {
                assert((chunk + more).take(chunk.len() as int) =~= chunk);
                assert((window + tail).take(window.len() as int) =~= window);
                assert((chunk + more).skip(chunk.len() as int) =~= more);
                assert((window + tail).skip(window.len() as int) =~= tail);
            }
        }
    }
}

/// What carrying out the pending bytes, a copy and the rest gives.
proof fn lemma_run_copy_step(
    old: Seq<u8>,
    pending: Seq<u8>,
    copy: Instruction,
    rest: Seq<Instruction>,
)
    requires
        pending.len() <= u32::MAX,
    ensures
        run(old, flush(pending) + seq![copy] + rest) == prepend(
            pending,
            match produce(old, copy) {
                Err(fault) => Err::<Seq<u8>, Fault>(fault),
                Ok(chunk) => prepend(chunk, run(old, rest)),
            },
        ),
{
    assert(flush(pending) + seq![copy] + rest =~= flush(pending) + (seq![copy] + rest));
    lemma_flush_runs(old, pending);
    lemma_run_concat(old, flush(pending), seq![copy] + rest);
    lemma_run_concat(old, seq![copy], rest);
    lemma_run_one(old, copy);
}

/// Carrying out what the encoder writes from `pos` on does not give the
/// pending bytes and the rest of `new`, if a record of the encoder is not
/// faithful and the lengths fit 32 bits.
proof fn lemma_unfaithful_scan_differs(
    old: Seq<u8>,
    new: Seq<u8>,
    block_size: nat,
    pos: nat,
    pending: Seq<u8>,
)
    requires
        block_size > 0,
        block_size <= u32::MAX || new.len() <= u32::MAX,
        pos <= new.len(),
        pending.len() <= pos,
        pending.len() < block_size,
        !faithful_from(old, new, block_size, pos, pending),
    ensures
        run(old, scan(old, new, block_size, pos, pending)) != Ok::<Seq<u8>, Fault>(
            pending + new.skip(pos as int),
        ),
    decreases new.len() - pos,
{
    let here = scan(old, new, block_size, pos, pending);
    if pos < new.len() {
        let window = window_at(new, block_size, pos);
        match first_match(old, block_size, window) {
            Some(i) => {
                let copy = copy_of(block_size, i, window.len());
                let next = pos + window.len();
                let rest = scan(old, new, block_size, next, Seq::empty());
                let tail = new.skip(next as int);
                assert(here == flush(pending) + seq![copy] + rest);
                assert(pending + (window + tail) =~= pending + new.skip(pos as int));
                assert(Seq::<u8>::empty() + tail =~= tail);
                if produce(old, copy) == Ok::<Seq<u8>, Fault>(window) {
                    lemma_unfaithful_scan_differs(old, new, block_size, next, Seq::empty());
                }
                lemma_run_copy_step(old, pending, copy, rest);
                lemma_copy_differs(produce(old, copy), run(old, rest), window, tail);
                lemma_prepend_differs(
                    pending,
                    match produce(old, copy) {
                        Err(fault) => Err::<Seq<u8>, Fault>(fault),
                        Ok(chunk) => prepend(chunk, run(old, rest)),
                    },
                    window + tail,
                );
            },
            None => {
                let grown = pending.push(new[pos as int]);
                let tail = new.skip(pos as int + 1);
                assert(grown + tail =~= pending + new.skip(pos as int));
                if grown.len() >= block_size {
                    let rest = scan(old, new, block_size, pos + 1, Seq::empty());
                    assert(here == flush(grown) + rest);
                    lemma_unfaithful_scan_differs(old, new, block_size, pos + 1, Seq::empty());
                    assert(Seq::<u8>::empty() + tail =~= tail);
                    lemma_flush_runs(old, grown);
                    lemma_run_concat(old, flush(grown), rest);
                    lemma_prepend_differs(grown, run(old, rest), tail);
                } else {
                    lemma_unfaithful_scan_differs(old, new, block_size, pos + 1, grown);
                }
            },
        }
    }
}

/// Round trip, both ways: where a block or the new buffer is no longer than
/// 32 bits can say, applying the encoder's patch to `old` gives `new` if the
/// records of the patch are faithful, and only then.
pub proof fn lemma_round_trip_exact(old: Seq<u8>, new: Seq<u8>, block_size: nat)
    requires
        block_size > 0,
        block_size <= u32::MAX || new.len() <= u32::MAX,
    ensures
        faithful(old, new, block_size) <==> apply_spec(old, patch_bytes(old, new, block_size))
            == Ok::<Seq<u8>, Fault>(new),
{
    if faithful(old, new, block_size) {
        lemma_round_trip(old, new, block_size);
    } else {
        lemma_scan_well_formed(old, new, block_size, 0, Seq::empty());
        lemma_apply_is_run(old, encode_spec(old, new, block_size));
        lemma_unfaithful_scan_differs(old, new, block_size, 0, Seq::empty());
        assert(Seq::<u8>::empty() + new.skip(0) =~= new);
    }
}

/// Without collisions the encoder is faithful: where every block of `old`
/// that has both checksums of a window of `new` also has its bytes, and the
/// windows are short enough for the length field, every record says what the
/// encoder means by it.
pub proof fn lemma_faithful_without_collisions(
    old: Seq<u8>,
    new: Seq<u8>,
    block_size: nat,
    pos: nat,
    pending: Seq<u8>,
)
    requires
        block_size > 0,
        old.len() <= u64::MAX,
        block_size <= u32::MAX || new.len() <= u32::MAX,
        forall|at: nat, i: nat|
            at < new.len() && #[trigger] matches_block(
                old,
                block_size,
                window_at(new, block_size, at),
                i,
            ) ==> block(old, block_size, i) == window_at(new, block_size, at),
        pos <= new.len(),
        pending.len() <= pos,
        pending.len() < block_size,
    ensures
        faithful_from(old, new, block_size, pos, pending),
    decreases new.len() - pos,
{
    if pos < new.len() {
        let window = window_at(new, block_size, pos);
        lemma_first_match(old, block_size, window);
        match first_match(old, block_size, window) {
            Some(i) => {
                assert(matches_block(old, block_size, window, i));
                lemma_block_exists(old.len(), block_size, i);
                lemma_block_len(old, block_size, i);
                let copy = copy_of(block_size, i, window.len());
                assert(old.subrange((i * block_size) as int, (i * block_size + window.len()) as int)
                    == block(old, block_size, i));
                assert(produce(old, copy) == Ok::<Seq<u8>, Fault>(window));
                lemma_faithful_without_collisions(
                    old,
                    new,
                    block_size,
                    pos + window.len(),
                    Seq::empty(),
                );
            },
            None => {
                let grown = pending.push(new[pos as int]);
                if grown.len() >= block_size {
                    lemma_faithful_without_collisions(old, new, block_size, pos + 1, Seq::empty());
                } else {
                    lemma_faithful_without_collisions(old, new, block_size, pos + 1, grown);
                }
            },
        }
    }
}

/// Round trip without collisions: where every block of `old` that has both
/// checksums of a window of `new` also has its bytes, and a block or `new`
/// is no longer than 32 bits can say, applying the encoder's patch to `old`
/// gives `new`.
pub proof fn lemma_round_trip_without_collisions(old: Seq<u8>, new: Seq<u8>, block_size: nat)
    requires
        block_size > 0,
        old.len() <= u64::MAX,
        block_size <= u32::MAX || new.len() <= u32::MAX,
        forall|at: nat, i: nat|
            at < new.len() && #[trigger] matches_block(
                old,
                block_size,
                window_at(new, block_size, at),
                i,
            ) ==> block(old, block_size, i) == window_at(new, block_size, at),
    ensures
        apply_spec(old, patch_bytes(old, new, block_size)) == Ok::<Seq<u8>, Fault>(new),
{
    lemma_faithful_without_collisions(old, new, block_size, 0, Seq::empty());
    lemma_round_trip(old, new, block_size);
}

/// Where the scan of a buffer against itself stands after `k` blocks.
pub open spec fn block_start(len: nat, block_size: nat, k: nat) -> nat {
    if k * block_size <= len {
        k * block_size
    } else {
        len
    }
}

/// Scanning a buffer against itself from the start of block `k` gives one
/// copy for each block that is left, and nothing else.
proof fn lemma_identity_scan(x: Seq<u8>, block_size: nat, k: nat)
    requires
        block_size > 0,
        k <= block_count(x.len(), block_size),
    ensures
        ({
            let rest = scan(x, x, block_size, block_start(x.len(), block_size, k), Seq::empty());
            &&& rest.len() == block_count(x.len(), block_size) - k
            &&& forall|j: int| 0 <= j < rest.len() ==> (#[trigger] rest[j]) is Copy
        }),
    decreases block_count(x.len(), block_size) - k,
{
    let count = block_count(x.len(), block_size);
    let pos = block_start(x.len(), block_size, k);
    lemma_block_exists(x.len(), block_size, k);
    if k < count {
        lemma_block_len(x, block_size, k);
        lemma_block_exists(x.len(), block_size, k + 1);
        assert((k + 1) * block_size == k * block_size + block_size) by (nonlinear_arith);
        let window = window_at(x, block_size, pos);
        assert(window == block(x, block_size, k));
        assert(matches_block(x, block_size, window, k));
        lemma_least_match(x, block_size, window, k);
        lemma_first_match(x, block_size, window);
        let i = first_match(x, block_size, window)->Some_0;
        assert(pos + window.len() == block_start(x.len(), block_size, k + 1));
        lemma_identity_scan(x, block_size, k + 1);
        let rest = scan(x, x, block_size, pos + window.len(), Seq::empty());
        let here = scan(x, x, block_size, pos, Seq::empty());
        assert(here =~= seq![copy_of(block_size, i, window.len())] + rest);
    } else {
        assert(k * block_size >= x.len()) by {
            lemma_block_exists(x.len(), block_size, k);
        }
    }
}

/// Identity: the patch from a buffer to itself holds one copy for each block
/// of the buffer and no literal, so at least one copy if the buffer is not
/// empty; and applying it gives the buffer back, whenever its records are
/// faithful.
pub proof fn lemma_identity(x: Seq<u8>, block_size: nat)
    requires
        block_size > 0,
    ensures
        encode_spec(x, x, block_size).len() == block_count(x.len(), block_size),
        x.len() > 0 ==> encode_spec(x, x, block_size).len() > 0,
        forall|j: int|
            0 <= j < encode_spec(x, x, block_size).len() ==> (#[trigger] encode_spec(
                x,
                x,
                block_size,
            )[j]) is Copy,
        faithful(x, x, block_size) ==> apply_spec(x, patch_bytes(x, x, block_size)) == Ok::<
            Seq<u8>,
            Fault,
        >(x),
{
    lemma_identity_scan(x, block_size, 0);
    assert(0 * block_size == 0) by (nonlinear_arith);
    lemma_block_exists(x.len(), block_size, 0);
    if faithful(x, x, block_size) {
        lemma_round_trip(x, x, block_size);
    }
}

/// Empty inputs: the patch from the empty buffer to the empty buffer is
/// empty, and applying the empty patch to any buffer gives the empty buffer.
pub proof fn lemma_empty_inputs(old: Seq<u8>, block_size: nat)
    ensures
        patch_bytes(Seq::empty(), Seq::empty(), block_size) == Seq::<u8>::empty(),
        apply_spec(old, Seq::empty()) == Ok::<Seq<u8>, Fault>(Seq::empty()),
{
}

/// The fault that the decoder reports for a record of `instruction` of which
/// only the first `cut` bytes are there.
pub open spec fn truncation_fault(instruction: Instruction, cut: nat) -> Fault {
    match instruction {
        Instruction::Literal { .. } => if cut < 5 {
            Fault::TruncatedLiteralLength
        } else {
            Fault::TruncatedLiteralData
        },
        Instruction::Copy { .. } => Fault::TruncatedCopy,
    }
}

/// A patch that is the start of one record, cut within the record, is
/// refused for the truncation.
proof fn lemma_partial_record(old: Seq<u8>, last: Instruction, cut: nat)
    requires
        last.well_formed(),
        0 < cut < record(last).len(),
    ensures
        apply_spec(old, record(last).take(cut as int)) == Err::<Seq<u8>, Fault>(
            truncation_fault(last, cut),
        ),
{
    let part = record(last).take(cut as int);
    assert(part.len() == cut);
    match last {
        Instruction::Literal { bytes } => {
            let field = length_field(bytes.len());
            assert(field == bytes.len());
            assert(part[0] == 0);
            if cut >= 5 {
                lemma_le_u32_round_trip(field);
                assert(part.subrange(1, 5) =~= le_bytes_u32(field));
                assert(decode_first(part) == Err::<(Instruction, nat), Fault>(
                    Fault::TruncatedLiteralData,
                ));
            } else {
                assert(decode_first(part) == Err::<(Instruction, nat), Fault>(
                    Fault::TruncatedLiteralLength,
                ));
            }
        },
        Instruction::Copy { .. } => {
            assert(part[0] == 1);
            assert(decode_first(part) == Err::<(Instruction, nat), Fault>(Fault::TruncatedCopy));
        },
    }
}

/// Truncation is rejected: a patch that ends within a record is never
/// applied. The decoder reports the fault of an earlier record if there is
/// one, and else the truncation.
pub proof fn lemma_truncated_patch_rejected(
    old: Seq<u8>,
    instructions: Seq<Instruction>,
    last: Instruction,
    cut: nat,
)
    requires
        all_well_formed(instructions),
        last.well_formed(),
        0 < cut < record(last).len(),
    ensures
        apply_spec(old, serialize(instructions) + record(last).take(cut as int)) is Err,
        apply_spec(old, serialize(instructions) + record(last).take(cut as int)) == match run(
            old,
            instructions,
        ) {
            Err(fault) => Err::<Seq<u8>, Fault>(fault),
            Ok(_) => Err(truncation_fault(last, cut)),
        },
{
    lemma_apply_serialized(old, instructions, record(last).take(cut as int));
    lemma_partial_record(old, last, cut);
}

/// Copies beyond the old buffer are rejected: a patch with a copy whose
/// range ends behind the end of `old` is never applied. The decoder reports
/// the fault of an earlier record if there is one, and else that the copy is
/// out of range.
pub proof fn lemma_copy_out_of_range_rejected(
    old: Seq<u8>,
    instructions: Seq<Instruction>,
    k: int,
)
    requires
        all_well_formed(instructions),
        0 <= k < instructions.len(),
        instructions[k] matches Instruction::Copy { offset, length } && offset + length
            > old.len(),
    ensures
        apply_spec(old, serialize(instructions)) is Err,
        apply_spec(old, serialize(instructions)) == match run(old, instructions.take(k)) {
            Err(fault) => Err::<Seq<u8>, Fault>(fault),
            Ok(_) => Err(Fault::CopyOutOfRange),
        },
{
    let before = instructions.take(k);
    let after = instructions.skip(k + 1);
    assert(instructions =~= before + seq![instructions[k]] + after);
    lemma_apply_is_run(old, instructions);
    lemma_run_concat(old, before + seq![instructions[k]], after);
    lemma_run_concat(old, before, seq![instructions[k]]);
    lemma_run_one(old, instructions[k]);
}

} // verus!
