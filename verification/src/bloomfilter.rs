//! The fixed-width bloom filter a distinct node remembers seen values with,
//! behind trusted wrappers around the `ethbloom` crate. Membership tests may
//! answer `true` spuriously, so the wrappers promise only what every bloom
//! filter gives: a deterministic test, no false negatives, and monotonicity.

use vstd::prelude::*;

verus! {

#[verifier::external_type_specification]
#[verifier::external_body]
pub struct ExBloom(ethbloom::Bloom);

/// Whether a membership test for the value's bytes answers `true` on this
/// filter state. Deterministic in the state and the value.
pub uninterp spec fn bloom_covers(b: ethbloom::Bloom, v: Seq<char>) -> bool;

/// The values accrued into the filter so far. The filter's bits are the
/// union of each accrued value's three hash-derived bits, so this set
/// determines every test's answer.
pub uninterp spec fn bloom_elems(b: ethbloom::Bloom) -> Set<Seq<char>>;

/// What a membership test for `v` answers on a filter holding exactly the
/// accrued values `accrued`: a pure function of the two, since the filter's
/// bits are the union of the accrued values' bit masks.
pub uninterp spec fn bloom_hits(accrued: Set<Seq<char>>, v: Seq<char>) -> bool;

/// Relies on `ethbloom::Bloom::zero`: a filter with no bits set answers no
/// membership test, since every test checks three bits derived from the
/// value's hash and an all-zero filter holds none of them.
#[verifier::external_body]
pub(crate) fn bloom_zero() -> (r: ethbloom::Bloom)
    ensures
        forall|v: Seq<char>| !bloom_covers(r, v),
        bloom_elems(r) == Set::<Seq<char>>::empty(),
{
    ethbloom::Bloom::zero()
}

/// Relies on `ethbloom::Bloom::contains_input`: checks the three bits derived
/// from the keccak hash of the bytes, a pure function of filter and value.
#[verifier::external_body]
pub(crate) fn bloom_test(b: &ethbloom::Bloom, v: &str) -> (r: bool)
    ensures
        r == bloom_covers(*b, v@),
        r == bloom_hits(bloom_elems(*b), v@),
{
    b.contains_input(ethbloom::Input::Raw(v.as_bytes()))
}

/// Relies on `ethbloom::Bloom::accrue`: ors in the three bits the test for the
/// same bytes checks, so the accrued value tests `true` afterwards, and no
/// value that tested `true` before can test `false` after.
#[verifier::external_body]
pub(crate) fn bloom_accrue(b: &mut ethbloom::Bloom, v: &str)
    ensures
        bloom_covers(*final(b), v@),
        forall|u: Seq<char>| bloom_covers(*old(b), u) ==> bloom_covers(*final(b), u),
        bloom_elems(*final(b)) == bloom_elems(*old(b)).insert(v@),
{
    b.accrue(ethbloom::Input::Raw(v.as_bytes()));
}

} // verus!
