//! Payload layouts of the two synthetic linker members: the alphabetically
//! sorted symbol index and the positional member index.

use vstd::prelude::*;
use crate::bytes::{be32, le32, le16};
use crate::lex::SymPair;

verus! {

/// Names concatenated, each closed by a null byte.
pub open spec fn names_block(names: Seq<Seq<u8>>) -> Seq<u8>
    decreases names.len(),
{
    if names.len() == 0 {
        Seq::empty()
    } else {
        names_block(names.drop_last()) + names.last() + seq![0u8]
    }
}

/// Total size of a names block: each name's length plus its null byte.
pub open spec fn names_len(names: Seq<Seq<u8>>) -> nat
    decreases names.len(),
{
    if names.len() == 0 {
        0
    } else {
        names_len(names.drop_last()) + names.last().len() + 1
    }
}

/// The names block is exactly `names_len` bytes.
pub proof fn lemma_names_block_len(names: Seq<Seq<u8>>)
    ensures
        names_block(names).len() == names_len(names),
    decreases names.len(),
{
    if names.len() > 0 {
        lemma_names_block_len(names.drop_last());
    }
}

/// A prefix of the names needs no more block space than all of them.
pub proof fn lemma_names_len_prefix_le(names: Seq<Seq<u8>>, j: int)
    requires
        0 <= j <= names.len(),
    ensures
        names_len(names.take(j)) <= names_len(names),
    decreases names.len() - j,
{
    if j == names.len() {
        assert(names.take(j) =~= names);
    } else {
        lemma_names_len_prefix_le(names, j + 1);
        assert(names.take(j + 1).drop_last() =~= names.take(j));
        assert(names_len(names.take(j + 1)) == names_len(names.take(j)) + names.take(
            j + 1,
        ).last().len() + 1);
    }
}

/// A block holds at least one byte per name.
pub proof fn lemma_names_len_ge_count(names: Seq<Seq<u8>>)
    ensures
        names_len(names) >= names.len(),
    decreases names.len(),
{
    if names.len() > 0 {
        lemma_names_len_ge_count(names.drop_last());
    }
}

/// The name of each entry of `s`, in order.
pub open spec fn pair_names(s: Seq<SymPair>) -> Seq<Seq<u8>> {
    Seq::new(s.len(), |i: int| s[i].name)
}

/// Big-endian member offsets, one per symbol entry, in entry order.
pub open spec fn offsets_block(s: Seq<SymPair>, moffs: Seq<u32>) -> Seq<u8>
    decreases s.len(),
{
    if s.len() == 0 {
        Seq::empty()
    } else {
        offsets_block(s.drop_last(), moffs) + be32(moffs[s.last().owner])
    }
}

/// The offsets block is four bytes per entry.
pub proof fn lemma_offsets_block_len(s: Seq<SymPair>, moffs: Seq<u32>)
    ensures
        offsets_block(s, moffs).len() == 4 * s.len(),
    decreases s.len(),
{
    if s.len() > 0 {
        lemma_offsets_block_len(s.drop_last(), moffs);
    }
}

/// Little-endian member offsets in reservation order.
pub open spec fn moffs_block(moffs: Seq<u32>) -> Seq<u8>
    decreases moffs.len(),
{
    if moffs.len() == 0 {
        Seq::empty()
    } else {
        moffs_block(moffs.drop_last()) + le32(moffs.last())
    }
}

/// The member-offset block is four bytes per member.
pub proof fn lemma_moffs_block_len(moffs: Seq<u32>)
    ensures
        moffs_block(moffs).len() == 4 * moffs.len(),
    decreases moffs.len(),
{
    if moffs.len() > 0 {
        lemma_moffs_block_len(moffs.drop_last());
    }
}

/// Two-byte little-endian 1-based member indices, in discovery order.
pub open spec fn indices_block(owners: Seq<int>) -> Seq<u8>
    decreases owners.len(),
{
    if owners.len() == 0 {
        Seq::empty()
    } else {
        indices_block(owners.drop_last()) + le16((owners.last() + 1) as u16)
    }
}

/// The index block is two bytes per symbol.
pub proof fn lemma_indices_block_len(owners: Seq<int>)
    ensures
        indices_block(owners).len() == 2 * owners.len(),
    decreases owners.len(),
{
    if owners.len() > 0 {
        lemma_indices_block_len(owners.drop_last());
    }
}

/// Payload of the symbol-index member: big-endian entry count, the sorted
/// entries' member offsets, then their null-terminated names in the same
/// sorted order.
pub open spec fn p1_payload(sorted: Seq<SymPair>, moffs: Seq<u32>) -> Seq<u8>
    recommends
        sorted.len() <= u32::MAX,
{
    be32(sorted.len() as u32) + offsets_block(sorted, moffs) + names_block(pair_names(sorted))
}

/// Payload of the member-index member: member count and offsets in
/// reservation order, then symbol count, 1-based member indices and
/// null-terminated names in discovery order.
pub open spec fn p2_payload(
    names: Seq<Seq<u8>>,
    owners: Seq<int>,
    moffs: Seq<u32>,
) -> Seq<u8>
    recommends
        names.len() <= u32::MAX,
        moffs.len() <= u32::MAX,
{
    le32(moffs.len() as u32) + moffs_block(moffs) + le32(names.len() as u32) + indices_block(
        owners,
    ) + names_block(names)
}

} // verus!
