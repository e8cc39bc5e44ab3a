//! Trusted boundary around `fixedbitset::FixedBitSet`.
//!
//! The packed bit-set is the backing store for adjacency matrices, matcher
//! blacklists and trie rows.  Verus sees the type as opaque; its contents are
//! modelled by [`bit_set`] (the set of enabled positions) and [`bit_capacity`]
//! (the fixed number of bits it was created with).  Every mutating method of
//! the crate panics on positions at or beyond the capacity, so the wrappers
//! exclude those by precondition; enabled positions therefore always lie
//! below the capacity.

use vstd::prelude::*;

use fixedbitset::FixedBitSet;

verus! {

#[verifier::external_type_specification]
#[verifier::external_body]
pub struct ExFixedBitSet(FixedBitSet);

/// The set of bit positions currently enabled in `b`.
pub uninterp spec fn bit_set(b: FixedBitSet) -> Set<usize>;

/// The fixed number of bits `b` was created with.
pub uninterp spec fn bit_capacity(b: FixedBitSet) -> nat;

/// Relies on `FixedBitSet::with_capacity`: a fresh set of `bits` bits, all
/// disabled.
#[verifier::external_body]
pub fn bits_with_capacity(bits: usize) -> (r: FixedBitSet)
    ensures
        bit_capacity(r) == bits,
        bit_set(r) == Set::<usize>::empty(),
{
    FixedBitSet::with_capacity(bits)
}

/// Relies on `FixedBitSet::contains`: whether `bit` is enabled.  Positions at
/// or beyond the capacity are never enabled, so no bound on `bit` is needed.
#[verifier::external_body]
pub fn bits_contains(b: &FixedBitSet, bit: usize) -> (r: bool)
    ensures
        r == bit_set(*b).contains(bit),
{
    b.contains(bit)
}

/// Relies on `FixedBitSet::insert`: enables `bit`.  The method panics at or
/// beyond the capacity, so that case is excluded here.
#[verifier::external_body]
pub fn bits_insert(b: &mut FixedBitSet, bit: usize)
    requires
        bit < bit_capacity(*old(b)),
    ensures
        bit_set(*final(b)) == bit_set(*old(b)).insert(bit),
        bit_capacity(*final(b)) == bit_capacity(*old(b)),
{
    b.insert(bit)
}

/// Relies on `FixedBitSet::set` with `enabled == false`: disables `bit`.  The
/// method panics at or beyond the capacity, so that case is excluded here.
#[verifier::external_body]
pub fn bits_remove(b: &mut FixedBitSet, bit: usize)
    requires
        bit < bit_capacity(*old(b)),
    ensures
        bit_set(*final(b)) == bit_set(*old(b)).remove(bit),
        bit_capacity(*final(b)) == bit_capacity(*old(b)),
{
    b.set(bit, false)
}

/// Relies on `FixedBitSet::clear`: disables every bit, keeping the capacity.
#[verifier::external_body]
pub fn bits_clear(b: &mut FixedBitSet)
    ensures
        bit_set(*final(b)) == Set::<usize>::empty(),
        bit_capacity(*final(b)) == bit_capacity(*old(b)),
{
    b.clear()
}

/// Relies on `FixedBitSet`'s `Clone` implementation: an identical copy, with
/// the same capacity and the same enabled positions.
#[verifier::external_body]
pub fn bits_clone(b: &FixedBitSet) -> (r: FixedBitSet)
    ensures
        bit_set(r) == bit_set(*b),
        bit_capacity(r) == bit_capacity(*b),
{
    b.clone()
}

} // verus!
