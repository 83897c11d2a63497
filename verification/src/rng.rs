//! The boundary to the `rand` crate: the generator type and the three calls
//! the library makes into it.

use rand::rngs::SmallRng;
use vstd::prelude::*;

verus! {

#[verifier::external_type_specification]
#[verifier::external_body]
pub struct ExSmallRng(SmallRng);

/// Relies on rand's `SeedableRng::from_entropy`: a fresh generator seeded
/// from the system entropy source.  Nothing is promised of its output; it
/// panics only when the entropy source itself fails.
#[verifier::external_body]
pub(crate) fn rng_from_entropy() -> (r: SmallRng) {
    <SmallRng as rand::SeedableRng>::from_entropy()
}

/// Relies on rand's `Rng::gen_range` on the half-open range `0..n`: the
/// drawn value lies strictly below `n`; the call panics on an empty range,
/// so `n` must be positive.
#[verifier::external_body]
pub(crate) fn rng_below(rng: &mut SmallRng, n: usize) -> (r: usize)
    requires
        n >= 1,
    ensures
        r < n,
{
    rand::Rng::gen_range(rng, 0..n)
}

/// Relies on rand's `SliceRandom::shuffle`: the slice is permuted in place
/// by swaps, so the elements as a multiset, and hence the length, do not
/// change.
#[verifier::external_body]
pub(crate) fn shuffle_vec<T>(rng: &mut SmallRng, v: &mut Vec<T>)
    ensures
        final(v)@.to_multiset() == old(v)@.to_multiset(),
        final(v)@.len() == old(v)@.len(),
{
    rand::seq::SliceRandom::shuffle(v.as_mut_slice(), rng)
}

} // verus!
