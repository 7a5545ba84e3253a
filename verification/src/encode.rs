//! The encoder: scans the new buffer window by window and writes a copy
//! record where a window matches a block of the old buffer, literal records
//! for the bytes in between.

use crate::error::{Fault, XDeltaError};
use crate::matching::{find_match, first_match, lemma_lookup_finds_first_match, matches_block};
use crate::signature::{
    build_signatures, index_view, lemma_block_exists, signature_index, SigEntry,
};
use crate::wire::{
    lemma_serialize_concat, lemma_serialize_one, length_field, put_u32_le, put_u64_le, record,
    serialize, Instruction, OP_COPY, OP_LITERAL,
};
use std::collections::HashMap;
use vstd::prelude::*;

verus! {

/// The window of `new` that the encoder looks up at `pos`: a block's length
/// of bytes, or what is left of `new` if that is less.
pub open spec fn window_at(new: Seq<u8>, block_size: nat, pos: nat) -> Seq<u8> {
    if pos + block_size <= new.len() {
        new.subrange(pos as int, (pos + block_size) as int)
    } else {
        new.subrange(pos as int, new.len() as int)
    }
}

/// The instruction that writes out the pending literal bytes: none if there
/// are none.
pub open spec fn flush(pending: Seq<u8>) -> Seq<Instruction> {
    if pending.len() == 0 {
        Seq::empty()
    } else {
        seq![Instruction::Literal { bytes: pending }]
    }
}

/// The copy of `length` bytes of block `i` of the old buffer.
pub open spec fn copy_of(block_size: nat, i: nat, length: nat) -> Instruction {
    Instruction::Copy { offset: (i * block_size) as u64, length: length_field(length) }
}

/// The instructions that the encoder gives from `pos` on, when `pending`
/// holds the literal bytes that it has not written out yet.
///
/// Where the window at `pos` matches a block of `old`, the pending bytes are
/// written out, the lowest such block is copied, and the scan goes on behind
/// the window. Otherwise the byte at `pos` becomes pending and the scan goes
/// on one byte further; once a block's length of bytes is pending, they are
/// written out.
pub open spec fn scan(
    old: Seq<u8>,
    new: Seq<u8>,
    block_size: nat,
    pos: nat,
    pending: Seq<u8>,
) -> Seq<Instruction>
    decreases new.len() - pos,
{
    if pos >= new.len() || block_size == 0 {
        flush(pending)
    } else {
        let window = window_at(new, block_size, pos);
        match first_match(old, block_size, window) {
            Some(i) => flush(pending) + seq![copy_of(block_size, i, window.len())] + scan(
                old,
                new,
                block_size,
                pos + window.len(),
                Seq::empty(),
            ),
            None => {
                let grown = pending.push(new[pos as int]);
                if grown.len() >= block_size {
                    flush(grown) + scan(old, new, block_size, pos + 1, Seq::empty())
                } else {
                    scan(old, new, block_size, pos + 1, grown)
                }
            },
        }
    }
}

/// The instructions of the patch that turns `old` into `new`.
pub open spec fn encode_spec(old: Seq<u8>, new: Seq<u8>, block_size: nat) -> Seq<Instruction> {
    scan(old, new, block_size, 0, Seq::empty())
}

/// The bytes of the patch that turns `old` into `new`.
pub open spec fn patch_bytes(old: Seq<u8>, new: Seq<u8>, block_size: nat) -> Seq<u8> {
    serialize(encode_spec(old, new, block_size))
}

/// Writes the pending literal bytes to `out` as one literal record and
/// empties `pending`. Writes nothing if nothing is pending.
pub fn flush_add(out: &mut Vec<u8>, pending: &mut Vec<u8>)
    ensures
        final(out)@ == old(out)@ + serialize(flush(old(pending)@)),
        final(pending)@ == Seq::<u8>::empty(),
{
    if pending.len() > 0 {
        let ghost before = out@;
        let ghost instruction = Instruction::Literal { bytes: pending@ };
        out.push(OP_LITERAL);
        let len: u32 = ((pending.len() as u64) % 0x1_0000_0000) as u32;
        put_u32_le(out, len);
        out.extend_from_slice(pending.as_slice());
        proof {
            lemma_serialize_one(instruction);
            assert(out@ =~= before + record(instruction));
        }
        pending.clear();
    } else {
        assert(out@ + Seq::<u8>::empty() =~= out@);
    }
}

/// Writes the record that copies `length` bytes of block `block_index`.
pub fn put_copy(out: &mut Vec<u8>, block_index: u64, block_size: usize, length: usize)
    requires
        block_index * block_size <= u64::MAX,
    ensures
        final(out)@ == old(out)@ + record(
            copy_of(block_size as nat, block_index as nat, length as nat),
        ),
{
    let ghost before = out@;
    out.push(OP_COPY);
    let offset_in_old: u64 = block_index * (block_size as u64);
    put_u64_le(out, offset_in_old);
    let copy_len: u32 = ((length as u64) % 0x1_0000_0000) as u32;
    put_u32_le(out, copy_len);
    assert(out@ =~= before + record(
        copy_of(block_size as nat, block_index as nat, length as nat),
    ));
}

/// The bytes of the instructions that the scan gives from `pos` on.
#[verifier::opaque]
spec fn tail_bytes(
    old: Seq<u8>,
    new: Seq<u8>,
    block_size: nat,
    pos: nat,
    pending: Seq<u8>,
) -> Seq<u8> {
    serialize(scan(old, new, block_size, pos, pending))
}

/// The scan from the start, with nothing pending, gives the whole patch.
proof fn lemma_scan_start(old: Seq<u8>, new: Seq<u8>, block_size: nat)
    ensures
        tail_bytes(old, new, block_size, 0, Seq::empty()) == patch_bytes(old, new, block_size),
{
    reveal(tail_bytes);
}

/// At the end of `new` the scan writes out what is pending.
proof fn lemma_scan_end(old: Seq<u8>, new: Seq<u8>, block_size: nat, pos: nat, pending: Seq<u8>)
    requires
        pos >= new.len(),
    ensures
        tail_bytes(old, new, block_size, pos, pending) == serialize(flush(pending)),
{
    reveal(tail_bytes);
}

/// The bytes of the scan from a position whose window matches block `i`.
proof fn lemma_scan_copy(
    old: Seq<u8>,
    new: Seq<u8>,
    block_size: nat,
    pos: nat,
    pending: Seq<u8>,
    i: nat,
)
    requires
        block_size > 0,
        pos < new.len(),
        first_match(old, block_size, window_at(new, block_size, pos)) == Some(i),
    ensures
        tail_bytes(old, new, block_size, pos, pending) == serialize(flush(pending)) + record(
            copy_of(block_size, i, window_at(new, block_size, pos).len()),
        ) + tail_bytes(
            old,
            new,
            block_size,
            pos + window_at(new, block_size, pos).len(),
            Seq::empty(),
        ),
{
    reveal(tail_bytes);
    let window = window_at(new, block_size, pos);
    let copy = copy_of(block_size, i, window.len());
    let rest = scan(old, new, block_size, pos + window.len(), Seq::empty());
    assert(scan(old, new, block_size, pos, pending) == flush(pending) + seq![copy] + rest);
    lemma_serialize_concat(flush(pending) + seq![copy], rest);
    lemma_serialize_concat(flush(pending), seq![copy]);
    lemma_serialize_one(copy);
}

/// The bytes of the scan from a position whose window matches no block.
proof fn lemma_scan_literal(
    old: Seq<u8>,
    new: Seq<u8>,
    block_size: nat,
    pos: nat,
    pending: Seq<u8>,
)
    requires
        block_size > 0,
        pos < new.len(),
        first_match(old, block_size, window_at(new, block_size, pos)) is None,
    ensures
        ({
            let grown = pending.push(new[pos as int]);
            tail_bytes(old, new, block_size, pos, pending) == if grown.len() >= block_size {
                serialize(flush(grown)) + tail_bytes(old, new, block_size, pos + 1, Seq::empty())
            } else {
                tail_bytes(old, new, block_size, pos + 1, grown)
            }
        }),
{
    reveal(tail_bytes);
    let grown = pending.push(new[pos as int]);
    if grown.len() >= block_size {
        lemma_serialize_concat(flush(grown), scan(old, new, block_size, pos + 1, Seq::empty()));
    }
}

/// Joining four sequences does not depend on where the brackets stand.
proof fn lemma_append_assoc(a: Seq<u8>, b: Seq<u8>, c: Seq<u8>, d: Seq<u8>)
    ensures
        ((a + b) + c) + d == a + ((b + c) + d),
{
    assert(((a + b) + c) + d =~= a + ((b + c) + d));
}

/// Computes the patch that turns `old` into `new`, matching blocks of
/// `block_size` bytes.
///
/// Fails if `block_size` is zero. Otherwise the patch holds, for each window
/// of `new` that has the weak checksum and the strong hash of a block of
/// `old`, a copy of the lowest such block, and literal records of at most
/// `block_size` bytes for what lies between.
pub fn create_patch_bytes(old: &[u8], new: &[u8], block_size: usize) -> (result: Result<
    Vec<u8>,
    XDeltaError,
>)
    ensures
        match result {
            Ok(patch) => block_size > 0 && patch@ == patch_bytes(old@, new@, block_size as nat),
            Err(e) => block_size == 0 && e@ == Fault::ZeroBlockSize.message(),
        },
{
    if block_size == 0 {
        return Err(XDeltaError::new(Fault::ZeroBlockSize));
    }
    let sigs: HashMap<u32, Vec<SigEntry>> = match build_signatures(old, block_size) {
        Ok(sigs) => sigs,
        Err(e) => {
            return Err(e);
        },
    };
    let ghost bs: nat = block_size as nat;
    let ghost whole = patch_bytes(old@, new@, bs);
    let mut out: Vec<u8> = Vec::with_capacity(new.len() / 4);
    let mut pos: usize = 0;
    let mut pending_add: Vec<u8> = Vec::new();
    proof {
        assert(old@.len() == old.len());
        lemma_scan_start(old@, new@, bs);
        assert(out@ + whole =~= whole);
    }
    while pos < new.len()
        invariant
            bs == block_size,
            block_size > 0,
            pos <= new@.len(),
            old@.len() <= usize::MAX,
            pending_add@.len() < bs,
            index_view(sigs) == signature_index(old@, bs),
            whole == out@ + tail_bytes(old@, new@, bs, pos as nat, pending_add@),
        decreases new@.len() - pos,
    {
        let remaining: usize = new.len() - pos;
        let try_len: usize = if block_size < remaining {
            block_size
        } else {
            remaining
        };
        let window: &[u8] = &new[pos..pos + try_len];
        assert(window@ == window_at(new@, bs, pos as nat));
        let ghost done = out@;
        let ghost held = pending_add@;
        let ghost start = pos as nat;
        match find_match(&sigs, window) {
            Some(block_index) => {
                proof {
                    let i = block_index as nat;
                    lemma_lookup_finds_first_match(old@, bs, window@);
                    assert(matches_block(old@, bs, window@, i));
                    lemma_block_exists(old@.len(), bs, i);
                    lemma_scan_copy(old@, new@, bs, start, held, i);
                }
                // Found a match: what is pending goes out first.
                flush_add(&mut out, &mut pending_add);
                put_copy(&mut out, block_index, block_size, try_len);
                pos = pos + try_len;
                proof {
                    lemma_append_assoc(
                        done,
                        serialize(flush(held)),
                        record(copy_of(bs, block_index as nat, try_len as nat)),
                        tail_bytes(old@, new@, bs, pos as nat, Seq::empty()),
                    );
                }
            },
            None => {
                proof {
                    lemma_lookup_finds_first_match(old@, bs, window@);
                    lemma_scan_literal(old@, new@, bs, start, held);
                }
                // No match: the byte becomes pending and the window moves on by one.
                pending_add.push(new[pos]);
                pos = pos + 1;
                if pending_add.len() >= block_size {
                    let ghost grown = pending_add@;
                    flush_add(&mut out, &mut pending_add);
                    proof {
                        let rest = tail_bytes(old@, new@, bs, pos as nat, Seq::empty());
                        assert((done + serialize(flush(grown))) + rest =~= done + (serialize(
                            flush(grown),
                        ) + rest));
                    }
                }
            },
        }
    }
    proof {
        lemma_scan_end(old@, new@, bs, pos as nat, pending_add@);
    }
    flush_add(&mut out, &mut pending_add);
    Ok(out)
}

} // verus!
