//! Trusted boundary to the `rand` crate.
//!
//! Nothing can be promised about which value a random draw yields, so the
//! contracts here state only what holds of every outcome: a drawn index is
//! in bounds, and a shuffle keeps the elements of the vector.

use vstd::prelude::*;

verus! {

/// Relies on `rand::Rng::gen_range`: a value sampled from `0..n` is below
/// `n`; the call panics only on an empty range, which the precondition
/// rules out.
#[verifier::external_body]
pub fn random_below(n: usize) -> (r: usize)
    requires
        n >= 1,
    ensures
        r < n,
{
    rand::Rng::gen_range(&mut rand::thread_rng(), 0..n)
}

/// Relies on `rand::seq::SliceRandom::shuffle`: it permutes the slice in
/// place, so the multiset of elements (and hence the length) is unchanged.
#[verifier::external_body]
pub fn shuffle_values(values: &mut Vec<i32>)
    ensures
        final(values)@.to_multiset() == old(values)@.to_multiset(),
        final(values)@.len() == old(values)@.len(),
{
    rand::seq::SliceRandom::shuffle(values.as_mut_slice(), &mut rand::thread_rng())
}

} // verus!
