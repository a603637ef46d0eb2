//! Entity index sets, kept in hibitset's hierarchical bit set.
use vstd::prelude::*;

use hibitset::BitSet;

use crate::change::ENTITY_LIMIT;

verus! {

/// hibitset's BitSet, known to the proofs only through `bitset_members`.
#[verifier::external_type_specification]
#[verifier::external_body]
pub struct ExBitSet(BitSet);

/// The entity indices that a bit set holds.
pub uninterp spec fn bitset_members(b: BitSet) -> Set<u32>;

/// Relies on hibitset::BitSet::new: the new set holds no index.
#[verifier::external_body]
pub(crate) fn bitset_new() -> (r: BitSet)
    ensures
        bitset_members(r) == Set::<u32>::empty(),
{
    BitSet::new()
}

/// Relies on hibitset::BitSet::add: the index is in the set afterwards and
/// nothing else changes; the result tells whether it was there before. The
/// set panics on an index above its capacity, which depends on the pointer
/// width: 2^24 on 64-bit targets and 2^20 on 32-bit ones. `ENTITY_LIMIT` is
/// 2^20, so the requirement keeps below the capacity on both.
#[verifier::external_body]
pub(crate) fn bitset_add(b: &mut BitSet, id: u32) -> (r: bool)
    requires
        id < ENTITY_LIMIT,
    ensures
        bitset_members(*final(b)) == bitset_members(*old(b)).insert(id),
        r == bitset_members(*old(b)).contains(id),
{
    b.add(id)
}

/// Relies on hibitset::BitSet::contains: whether the index is in the set.
#[verifier::external_body]
pub(crate) fn bitset_contains(b: &BitSet, id: u32) -> (r: bool)
    ensures
        r == bitset_members(*b).contains(id),
{
    b.contains(id)
}

} // verus!
