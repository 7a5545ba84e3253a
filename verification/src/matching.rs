//! Looking a window of the new buffer up in the signature index of the old
//! one.

use crate::digest::{digest_eq, sha256, sha256_digest};
use crate::rolling::{weak_checksum, Rolling};
use crate::signature::{
    block, block_count, candidates, candidates_among, entries_view, index_view,
    lemma_candidates_step, signature_index, signature_of, SigEntry, Signature,
};
use std::collections::HashMap;
use vstd::prelude::*;
use vstd::std_specs::hash::*;

verus! {

broadcast use vstd::std_specs::hash::group_hash_axioms;

/// Whether block `i` of `old` exists and has both the weak checksum and the
/// strong hash of `window`.
pub open spec fn matches_block(old: Seq<u8>, block_size: nat, window: Seq<u8>, i: nat) -> bool {
    &&& i < block_count(old.len(), block_size)
    &&& weak_checksum(block(old, block_size, i)) == weak_checksum(window)
    &&& sha256(block(old, block_size, i)) == sha256(window)
}

/// Whether block `i` matches `window` and no block before it does.
pub open spec fn is_first_match(old: Seq<u8>, block_size: nat, window: Seq<u8>, i: nat) -> bool {
    &&& matches_block(old, block_size, window, i)
    &&& forall|j: nat| j < i ==> !matches_block(old, block_size, window, j)
}

/// The lowest block of `old` that matches `window`, if any does.
pub open spec fn first_match(old: Seq<u8>, block_size: nat, window: Seq<u8>) -> Option<nat> {
    if exists|i: nat| is_first_match(old, block_size, window, i) {
        Some(choose|i: nat| is_first_match(old, block_size, window, i))
    } else {
        None
    }
}

/// The block of the first signature in `list` with the strong hash `strong`.
pub open spec fn first_with_strong(list: Seq<Signature>, strong: Seq<u8>) -> Option<nat>
    decreases list.len(),
{
    if list.len() == 0 {
        None
    } else if list[0].strong_hash == strong {
        Some(list[0].block_index)
    } else {
        first_with_strong(list.drop_first(), strong)
    }
}

/// What a lookup in `index` gives for a window with the checksums `weak` and
/// `strong`: the first block listed under `weak` whose strong hash is
/// `strong`.
pub open spec fn lookup(index: Map<u32, Seq<Signature>>, weak: u32, strong: Seq<u8>) -> Option<
    nat,
> {
    if index.contains_key(weak) {
        first_with_strong(index[weak], strong)
    } else {
        None
    }
}

/// The block of the first entry of `list` whose strong hash is `strong`.
pub fn find_strong(list: &[SigEntry], strong: &[u8; 32]) -> (found: Option<u64>)
    ensures
        match found {
            Some(i) => first_with_strong(entries_view(list@), strong@) == Some(i as nat),
            None => first_with_strong(entries_view(list@), strong@) is None,
        },
{
    let ghost all = entries_view(list@);
    let mut j: usize = 0;
    assert(all.skip(0) =~= all);
    while j < list.len()
        invariant
            j <= list@.len(),
            all == entries_view(list@),
            first_with_strong(all, strong@) == first_with_strong(all.skip(j as int), strong@),
        decreases list@.len() - j,
    {
        let e: &SigEntry = &list[j];
        assert(all.skip(j as int)[0] == e@);
        if digest_eq(&e.strong_hash, strong) {
            return Some(e.block_index);
        }
        assert(all.skip(j as int).drop_first() =~= all.skip(j + 1));
        j = j + 1;
    }
    None
}

/// Looks `window` up in `index`: among the blocks listed under the weak
/// checksum of `window`, the first whose strong hash is that of `window`.
pub fn find_match(index: &HashMap<u32, Vec<SigEntry>>, window: &[u8]) -> (found: Option<u64>)
    ensures
        match found {
            Some(i) => lookup(index_view(*index), weak_checksum(window@), sha256(window@)) == Some(
                i as nat,
            ),
            None => lookup(index_view(*index), weak_checksum(window@), sha256(window@)) is None,
        },
{
    let weak: u32 = Rolling::from_slice(window).chksum();
    match index.get(&weak) {
        None => None,
        Some(list) => {
            let strong: [u8; 32] = sha256_digest(window);
            find_strong(list.as_slice(), &strong)
        },
    }
}

/// What the candidates among the first `k` blocks hold: signatures of
/// blocks below `k` with the weak checksum `weak`, each such block once, in
/// rising block order.
pub proof fn lemma_candidates_listed(old: Seq<u8>, block_size: nat, weak: u32, k: nat)
    requires
        k <= block_count(old.len(), block_size),
    ensures
        ({
            let list = candidates_among(old, block_size, weak, k);
            &&& forall|j: int|
                0 <= j < list.len() ==> {
                    &&& (#[trigger] list[j]).block_index < k
                    &&& list[j] == signature_of(old, block_size, list[j].block_index)
                    &&& weak_checksum(block(old, block_size, list[j].block_index)) == weak
                }
            &&& forall|j1: int, j2: int|
                0 <= j1 < j2 < list.len() ==> (#[trigger] list[j1]).block_index < (
                #[trigger] list[j2]).block_index
            &&& forall|i: nat|
                i < k && weak_checksum(#[trigger] block(old, block_size, i)) == weak ==> exists|
                    j: int,
                | 0 <= j < list.len() && (#[trigger] list[j]).block_index == i
        }),
    decreases k,
{
    let list = candidates_among(old, block_size, weak, k);
    if k == 0 {
        reveal(Seq::filter);
        assert(list =~= Seq::<Signature>::empty());
    } else {
        let below = candidates_among(old, block_size, weak, (k - 1) as nat);
        lemma_candidates_listed(old, block_size, weak, (k - 1) as nat);
        lemma_candidates_step(old, block_size, weak, (k - 1) as nat);
        assert forall|i: nat|
            i < k && weak_checksum(#[trigger] block(old, block_size, i)) == weak implies exists|
            j: int,
        | 0 <= j < list.len() && (#[trigger] list[j]).block_index == i by {
            if i == k - 1 {
                assert(list[list.len() - 1].block_index == i);
            } else {
                let j = choose|j: int|
                    0 <= j < below.len() && (#[trigger] below[j]).block_index == i;
                assert(list[j].block_index == i);
            }
        }
    }
}

/// What `first_with_strong` gives: the block of the first entry with the
/// strong hash, or nothing if no entry has it.
pub proof fn lemma_first_with_strong(list: Seq<Signature>, strong: Seq<u8>)
    ensures
        match first_with_strong(list, strong) {
            Some(i) => exists|j: int|
                0 <= j < list.len() && (#[trigger] list[j]).block_index == i && list[j].strong_hash
                    == strong && forall|h: int|
                    0 <= h < j ==> (#[trigger] list[h]).strong_hash != strong,
            None => forall|j: int|
                0 <= j < list.len() ==> (#[trigger] list[j]).strong_hash != strong,
        },
    decreases list.len(),
{
    if list.len() > 0 && list[0].strong_hash != strong {
        let rest = list.drop_first();
        lemma_first_with_strong(rest, strong);
        match first_with_strong(rest, strong) {
            Some(i) => {
                let j = choose|j: int|
                    0 <= j < rest.len() && (#[trigger] rest[j]).block_index == i
                        && rest[j].strong_hash == strong && forall|h: int|
                        0 <= h < j ==> (#[trigger] rest[h]).strong_hash != strong;
                assert(list[j + 1] == rest[j]);
                assert forall|h: int| 0 <= h < j + 1 implies (#[trigger] list[h]).strong_hash
                    != strong by {
                    if h > 0 {
                        assert(list[h] == rest[h - 1]);
                    }
                }
            },
            None => {
                assert forall|j: int| 0 <= j < list.len() implies (#[trigger] list[j]).strong_hash
                    != strong by {
                    if j > 0 {
                        assert(list[j] == rest[j - 1]);
                    }
                }
            },
        }
    } else if list.len() > 0 {
        assert(list[0].block_index == list[0].block_index);
    }
}

/// A lookup in the signature index of `old` finds the lowest block of `old`
/// that has both checksums of the window, or nothing if there is none.
pub proof fn lemma_lookup_finds_first_match(old: Seq<u8>, block_size: nat, window: Seq<u8>)
    requires
        block_size > 0,
    ensures
        lookup(signature_index(old, block_size), weak_checksum(window), sha256(window))
            == first_match(old, block_size, window),
{
    let weak = weak_checksum(window);
    let strong = sha256(window);
    let count = block_count(old.len(), block_size);
    let list = candidates(old, block_size, weak);
    let found = lookup(signature_index(old, block_size), weak, strong);
    lemma_candidates_listed(old, block_size, weak, count);
    lemma_first_with_strong(list, strong);
    assert(found == first_with_strong(list, strong));
    match found {
        Some(i) => {
            let j = choose|j: int|
                0 <= j < list.len() && (#[trigger] list[j]).block_index == i && list[j].strong_hash
                    == strong && forall|h: int|
                    0 <= h < j ==> (#[trigger] list[h]).strong_hash != strong;
            assert(matches_block(old, block_size, window, i));
            assert forall|lower: nat| lower < i implies !matches_block(
                old,
                block_size,
                window,
                lower,
            ) by {
                if matches_block(old, block_size, window, lower) {
                    let _ = block(old, block_size, lower);
                    let h = choose|h: int|
                        0 <= h < list.len() && (#[trigger] list[h]).block_index == lower;
                    assert(list[h].strong_hash == strong);
                    if h < j {
                    } else {
                        assert(list[j].block_index <= list[h].block_index);
                    }
                }
            }
            assert(is_first_match(old, block_size, window, i));
            let chosen = choose|c: nat| is_first_match(old, block_size, window, c);
            assert(chosen == i);
        },
        None => {
            assert forall|i: nat| !is_first_match(old, block_size, window, i) by {
                if matches_block(old, block_size, window, i) {
                    let _ = block(old, block_size, i);
                    let h = choose|h: int|
                        0 <= h < list.len() && (#[trigger] list[h]).block_index == i;
                    assert(list[h].strong_hash == strong);
                }
            }
        },
    }
}

/// Below a block that matches there is a first block that matches.
pub proof fn lemma_least_match(old: Seq<u8>, block_size: nat, window: Seq<u8>, i: nat)
    requires
        matches_block(old, block_size, window, i),
    ensures
        exists|j: nat| j <= i && is_first_match(old, block_size, window, j),
    decreases i,
{
    if exists|j: nat| j < i && matches_block(old, block_size, window, j) {
        let j = choose|j: nat| j < i && matches_block(old, block_size, window, j);
        lemma_least_match(old, block_size, window, j);
        let least = choose|least: nat| least <= j && is_first_match(old, block_size, window, least);
        assert(least <= i && is_first_match(old, block_size, window, least));
    } else {
        assert(is_first_match(old, block_size, window, i));
    }
}

/// What `first_match` gives: a block that matches the window and is the
/// lowest to do so, or nothing if no block matches.
pub proof fn lemma_first_match(old: Seq<u8>, block_size: nat, window: Seq<u8>)
    ensures
        match first_match(old, block_size, window) {
            Some(i) => is_first_match(old, block_size, window, i),
            None => forall|i: nat| !matches_block(old, block_size, window, i),
        },
{
    if first_match(old, block_size, window) is None {
        assert forall|i: nat| !matches_block(old, block_size, window, i) by {
            if matches_block(old, block_size, window, i) {
                lemma_least_match(old, block_size, window, i);
            }
        }
    }
}

} // verus!
