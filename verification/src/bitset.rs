//! Dense bitsets of absolute line indices, behind trusted wrappers around the
//! `bit-set` crate. The contents are named as a mathematical set that every
//! wrapper's contract is stated over.

use vstd::prelude::*;

verus! {

#[verifier::external_type_specification]
#[verifier::external_body]
#[verifier::reject_recursive_types(B)]
pub struct ExBitSet<B>(bit_set::BitSet<B>);

/// The set of indices whose bits are set.
pub uninterp spec fn bits_elems(b: bit_set::BitSet) -> Set<int>;

/// Relies on `bit_set::BitSet::new`: a fresh set holds nothing.
#[verifier::external_body]
pub(crate) fn bits_new() -> (r: bit_set::BitSet)
    ensures
        bits_elems(r) == Set::<int>::empty(),
{
    bit_set::BitSet::new()
}

/// Relies on `bit_set::BitSet::insert`: sets the one bit.
#[verifier::external_body]
pub(crate) fn bits_insert(b: &mut bit_set::BitSet, i: usize)
    ensures
        bits_elems(*final(b)) == bits_elems(*old(b)).insert(i as int),
{
    b.insert(i);
}

/// Relies on `bit_set::BitSet::contains`: reads the one bit.
#[verifier::external_body]
pub(crate) fn bits_contains(b: &bit_set::BitSet, i: usize) -> (r: bool)
    ensures
        r == bits_elems(*b).contains(i as int),
{
    b.contains(i)
}

/// Relies on `bit_set::BitSet::union_with`: ors the other set's bits in.
#[verifier::external_body]
pub(crate) fn bits_union(b: &mut bit_set::BitSet, other: &bit_set::BitSet)
    ensures
        bits_elems(*final(b)) == bits_elems(*old(b)) + bits_elems(*other),
{
    b.union_with(other);
}

/// Relies on `bit_set::BitSet::intersect_with`: ands the other set's bits in.
#[verifier::external_body]
pub(crate) fn bits_intersect(b: &mut bit_set::BitSet, other: &bit_set::BitSet)
    ensures
        bits_elems(*final(b)) == bits_elems(*old(b)).intersect(bits_elems(*other)),
{
    b.intersect_with(other);
}

/// Relies on `bit_set::BitSet::len`: counts the set bits.
#[verifier::external_body]
pub(crate) fn bits_count(b: &bit_set::BitSet) -> (r: usize)
    requires
        bits_elems(*b).finite(),
    ensures
        r as nat == bits_elems(*b).len(),
{
    b.len()
}

/// Relies on `bit_set::BitSet::clone`: copies every bit.
#[verifier::external_body]
pub(crate) fn bits_clone(b: &bit_set::BitSet) -> (r: bit_set::BitSet)
    ensures
        bits_elems(r) == bits_elems(*b),
{
    b.clone()
}

} // verus!
