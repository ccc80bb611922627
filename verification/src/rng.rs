//! The source of randomness threaded through seeding and ignition.
//!
//! Every random choice the simulation makes goes through the wrappers
//! below, so a trial is reproducible from the seed its generator was
//! built from.

use vstd::prelude::*;
use crate::tree::TreeState;

verus! {

#[verifier::external_type_specification]
#[verifier::external_body]
pub struct ExStdRng(rand::rngs::StdRng);

/// Relies on rand's `RngExt::random_range` over `0..n`: the sample lies in
/// the range. The call panics on an empty range, which `n >= 1` rules out.
#[verifier::external_body]
pub(crate) fn random_below(rng: &mut rand::rngs::StdRng, n: usize) -> (r: usize)
    requires
        n >= 1,
    ensures
        r < n,
{
    rand::RngExt::random_range(rng, 0..n)
}

/// Relies on rand's `SliceRandom::shuffle`: permutes the slice in place,
/// so the entries afterwards are the old entries rearranged.
#[verifier::external_body]
pub(crate) fn shuffle_trees(rng: &mut rand::rngs::StdRng, data: &mut Vec<TreeState>)
    ensures
        final(data)@.to_multiset() == old(data)@.to_multiset(),
        final(data)@.len() == old(data)@.len(),
{
    rand::seq::SliceRandom::shuffle(data.as_mut_slice(), rng)
}

} // verus!
