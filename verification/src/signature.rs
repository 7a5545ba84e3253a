//! The signature index of the old buffer: for each weak checksum, the
//! blocks that have it, in block order, each with its strong hash.

use crate::digest::{sha256, sha256_digest};
use crate::error::{Fault, XDeltaError};
use crate::rolling::{weak_checksum, Rolling};
use std::collections::HashMap;
use vstd::prelude::*;
use vstd::std_specs::hash::*;

verus! {

broadcast use vstd::std_specs::hash::group_hash_axioms;

/// Signature of one block of the old buffer.
pub struct SigEntry {
    /// Position of the block among the blocks of the old buffer.
    pub block_index: u64,
    /// SHA-256 digest of the block's bytes.
    pub strong_hash: [u8; 32],
}

/// What a `SigEntry` stands for.
pub struct Signature {
    pub block_index: nat,
    pub strong_hash: Seq<u8>,
}

impl View for SigEntry {
    type V = Signature;

    open spec fn view(&self) -> Signature {
        Signature { block_index: self.block_index as nat, strong_hash: self.strong_hash@ }
    }
}

/// Number of blocks of `block_size` bytes that a buffer of `len` bytes is cut
/// into, the last of which may be shorter.
pub open spec fn block_count(len: nat, block_size: nat) -> nat
    recommends
        block_size > 0,
{
    ((len + block_size - 1) / block_size as int) as nat
}

/// Where block `i` ends: a block's length after its start, or the end of the
/// buffer if that comes first.
pub open spec fn block_end(len: nat, block_size: nat, i: nat) -> nat {
    if (i + 1) * block_size <= len {
        (i + 1) * block_size
    } else {
        len
    }
}

/// The bytes of block `i` of `old`.
pub open spec fn block(old: Seq<u8>, block_size: nat, i: nat) -> Seq<u8> {
    old.subrange((i * block_size) as int, block_end(old.len(), block_size, i) as int)
}

/// The signature of block `i` of `old`.
pub open spec fn signature_of(old: Seq<u8>, block_size: nat, i: nat) -> Signature {
    Signature { block_index: i, strong_hash: sha256(block(old, block_size, i)) }
}

/// The signatures of all blocks of `old`, in block order.
pub open spec fn signatures(old: Seq<u8>, block_size: nat) -> Seq<Signature> {
    Seq::new(block_count(old.len(), block_size), |i: int| signature_of(old, block_size, i as nat))
}

/// Whether a signature is that of a block with the weak checksum `weak`.
pub open spec fn has_weak(old: Seq<u8>, block_size: nat, weak: u32) -> spec_fn(Signature) -> bool {
    |s: Signature| weak_checksum(block(old, block_size, s.block_index)) == weak
}

/// Among the first `k` blocks of `old`, the signatures of those with the
/// weak checksum `weak`, in block order.
pub open spec fn candidates_among(old: Seq<u8>, block_size: nat, weak: u32, k: nat) -> Seq<
    Signature,
> {
    signatures(old, block_size).take(k as int).filter(has_weak(old, block_size, weak))
}

/// The signatures of the blocks of `old` with the weak checksum `weak`, in
/// block order.
pub open spec fn candidates(old: Seq<u8>, block_size: nat, weak: u32) -> Seq<Signature> {
    candidates_among(old, block_size, weak, block_count(old.len(), block_size))
}

/// The index over the first `k` blocks of `old`: it holds the weak checksums
/// that occur among them, each with its candidates.
pub open spec fn index_among(old: Seq<u8>, block_size: nat, k: nat) -> Map<u32, Seq<Signature>> {
    Map::new(
        |weak: u32| candidates_among(old, block_size, weak, k).len() > 0,
        |weak: u32| candidates_among(old, block_size, weak, k),
    )
}

/// The signature index of `old`.
pub open spec fn signature_index(old: Seq<u8>, block_size: nat) -> Map<u32, Seq<Signature>> {
    index_among(old, block_size, block_count(old.len(), block_size))
}

/// What a list of entries stands for.
pub open spec fn entries_view(entries: Seq<SigEntry>) -> Seq<Signature> {
    entries.map_values(|e: SigEntry| e@)
}

/// What an index in memory stands for.
pub open spec fn index_view(index: HashMap<u32, Vec<SigEntry>>) -> Map<u32, Seq<Signature>> {
    Map::new(|weak: u32| index@.contains_key(weak), |weak: u32| entries_view(index@[weak]@))
}

/// Block `i` exists exactly if it starts before the end of the buffer.
pub proof fn lemma_block_exists(len: nat, block_size: nat, i: nat)
    requires
        block_size > 0,
    ensures
        i < block_count(len, block_size) <==> i * block_size < len,
{
    let b: int = block_size as int;
    let c: int = (len + b - 1) / b;
    assert(c * b <= len + b - 1 < c * b + b) by (nonlinear_arith)
        requires
            b > 0,
            c == (len + b - 1) / b,
    ;
    if (i as int) < c {
        assert(i * b <= (c - 1) * b) by (nonlinear_arith)
            requires
                i <= c - 1,
                b > 0,
        ;
        assert((c - 1) * b == c * b - b) by (nonlinear_arith);
    } else {
        assert(i * b >= c * b) by (nonlinear_arith)
            requires
                i >= c,
                b > 0,
        ;
    }
}

/// A block that exists is not empty and lies within the buffer. Every block
/// but the last has `block_size` bytes, and the last has no more.
pub proof fn lemma_block_len(old: Seq<u8>, block_size: nat, i: nat)
    requires
        block_size > 0,
        i < block_count(old.len(), block_size),
    ensures
        0 < block(old, block_size, i).len() <= block_size,
        i + 1 < block_count(old.len(), block_size) ==> block(old, block_size, i).len()
            == block_size,
        i * block_size + block(old, block_size, i).len() <= old.len(),
        block(old, block_size, i).len() == block_end(old.len(), block_size, i) - i * block_size,
{
    lemma_block_exists(old.len(), block_size, i);
    lemma_block_exists(old.len(), block_size, i + 1);
    assert((i + 1) * block_size == i * block_size + block_size) by (nonlinear_arith);
}

/// Taking one block more adds its signature to the candidates of its weak
/// checksum and to no others.
pub proof fn lemma_candidates_step(old: Seq<u8>, block_size: nat, weak: u32, k: nat)
    requires
        k < block_count(old.len(), block_size),
    ensures
        candidates_among(old, block_size, weak, k + 1) == if weak_checksum(
            block(old, block_size, k),
        ) == weak {
            candidates_among(old, block_size, weak, k).push(signature_of(old, block_size, k))
        } else {
            candidates_among(old, block_size, weak, k)
        },
{
    let all = signatures(old, block_size);
    reveal(Seq::filter);
    assert(all.take(k as int + 1).drop_last() =~= all.take(k as int));
    assert(all.take(k as int + 1).last() == signature_of(old, block_size, k));
}

/// What `index` lists under `weak`: nothing if it does not hold `weak`.
pub open spec fn listed(index: Map<u32, Seq<Signature>>, weak: u32) -> Seq<Signature> {
    if index.contains_key(weak) {
        index[weak]
    } else {
        Seq::empty()
    }
}

/// Lists `entry` under `weak`, behind the entries that are listed there
/// already.
pub fn insert_signature(index: &mut HashMap<u32, Vec<SigEntry>>, weak: u32, entry: SigEntry)
    ensures
        index_view(*final(index)) == index_view(*old(index)).insert(
            weak,
            listed(index_view(*old(index)), weak).push(entry@),
        ),
{
    let ghost before = index@;
    let ghost signature = entry@;
    let list: &mut Vec<SigEntry> = index.entry(weak).or_insert(Vec::new());
    let ghost had = entries_view(list@);
    list.push(entry);
    assert(entries_view(list@) =~= had.push(signature));
    proof {
        let after = index_view(*index);
        let wanted = index_view(*old(index)).insert(
            weak,
            listed(index_view(*old(index)), weak).push(signature),
        );
        assert(had =~= listed(index_view(*old(index)), weak));
        assert forall|w: u32| after.contains_key(w) == wanted.contains_key(w) by {
            if w != weak {
                assert(index@.contains_key(w) == before.contains_key(w));
            }
        }
        assert forall|w: u32| after.contains_key(w) implies after[w] == wanted[w] by {
            if w != weak {
                assert(index@[w] == before[w]);
            }
        }
        assert(after =~= wanted);
    }
}

/// Builds the signature index of `old` for blocks of `block_size` bytes.
///
/// Fails if `block_size` is zero. Otherwise the index holds the weak
/// checksums of the blocks of `old`, and under each the signatures of the
/// blocks that have it, lowest block first.
pub fn build_signatures(old: &[u8], block_size: usize) -> (result: Result<
    HashMap<u32, Vec<SigEntry>>,
    XDeltaError,
>)
    ensures
        match result {
            Ok(index) => block_size > 0 && index_view(index) == signature_index(
                old@,
                block_size as nat,
            ),
            Err(e) => block_size == 0 && e@ == Fault::ZeroBlockSize.message(),
        },
{
    if block_size == 0 {
        return Err(XDeltaError::new(Fault::ZeroBlockSize));
    }
    let mut map: HashMap<u32, Vec<SigEntry>> = HashMap::new();
    let mut idx: u64 = 0;
    let mut offset: usize = 0;
    let ghost bs: nat = block_size as nat;
    proof {
        reveal(Seq::filter);
        assert(index_view(map) =~= index_among(old@, bs, 0));
        lemma_block_exists(old@.len(), bs, 0);
    }
    while offset < old.len()
        invariant
            block_size > 0,
            bs == block_size,
            offset <= old@.len(),
            idx <= block_count(old@.len(), bs),
            idx <= offset,
            offset < old@.len() ==> offset == idx * bs,
            offset == old@.len() ==> idx == block_count(old@.len(), bs),
            index_view(map) == index_among(old@, bs, idx as nat),
        decreases old@.len() - offset,
    {
        let ghost k: nat = idx as nat;
        proof {
            lemma_block_exists(old@.len(), bs, k);
            lemma_block_len(old@, bs, k);
            lemma_block_exists(old@.len(), bs, k + 1);
            assert((k + 1) * bs == k * bs + bs) by (nonlinear_arith);
        }
        let end: usize = if block_size <= old.len() - offset {
            offset + block_size
        } else {
            old.len()
        };
        let slice: &[u8] = &old[offset..end];
        assert(slice@ == block(old@, bs, k));
        let weak: u32 = Rolling::from_slice(slice).chksum();
        let strong: [u8; 32] = sha256_digest(slice);
        let entry = SigEntry { block_index: idx, strong_hash: strong };
        assert(entry@ == signature_of(old@, bs, k));
        insert_signature(&mut map, weak, entry);
        proof {
            lemma_index_step(old@, bs, k);
        }
        idx = idx + 1;
        offset = end;
    }
    Ok(map)
}

/// Taking one block more lists its signature under its weak checksum, behind
/// what is listed there, and leaves the rest of the index as it is.
pub proof fn lemma_index_step(old: Seq<u8>, block_size: nat, k: nat)
    requires
        k < block_count(old.len(), block_size),
    ensures
        ({
            let index = index_among(old, block_size, k);
            let weak = weak_checksum(block(old, block_size, k));
            index_among(old, block_size, k + 1) == index.insert(
                weak,
                listed(index, weak).push(signature_of(old, block_size, k)),
            )
        }),
{
    let index = index_among(old, block_size, k);
    let weak = weak_checksum(block(old, block_size, k));
    let next = index_among(old, block_size, k + 1);
    let wanted = index.insert(weak, listed(index, weak).push(signature_of(old, block_size, k)));
    assert(listed(index, weak) =~= candidates_among(old, block_size, weak, k));
    assert forall|w: u32| next.contains_key(w) == wanted.contains_key(w) by {
        lemma_candidates_step(old, block_size, w, k);
    }
    assert forall|w: u32| next.contains_key(w) implies next[w] == wanted[w] by {
        lemma_candidates_step(old, block_size, w, k);
    }
    assert(next =~= wanted);
}

} // verus!
