//! Trusted wrappers around the rand crate's weighted index sampling, the
//! only randomness the generator draws on.

use vstd::prelude::*;

use rand::distributions::{Distribution, WeightedIndex};
use rand::rngs::ThreadRng;

verus! {

#[verifier::external_type_specification]
#[verifier::external_body]
pub struct ExThreadRng(ThreadRng);

/// A weighted-index distribution of the rand crate over i32 weights;
/// sampling yields each index with probability proportional to its weight.
#[verifier::external_body]
pub struct WeightedDist {
    dist: WeightedIndex<i32>,
}

/// The weights a weighted-index distribution was built over.
pub uninterp spec fn dist_weights(d: WeightedDist) -> Seq<i32>;

/// Relies on rand's WeightedIndex::new: building a distribution succeeds
/// when the weights are non-empty, non-negative, and not all zero; the
/// bounds keep the running totals that it computes from overflowing.
#[verifier::external_body]
pub(crate) fn new_weighted_index(weights: &Vec<i32>) -> (d: WeightedDist)
    requires
        1 <= weights@.len() <= 16,
        forall|k: int| 0 <= k < weights@.len() ==> 0 <= #[trigger] weights@[k] <= 1000,
        exists|k: int| 0 <= k < weights@.len() && #[trigger] weights@[k] > 0,
    ensures
        dist_weights(d) == weights@,
{
    WeightedDist { dist: WeightedIndex::new(weights).unwrap() }
}

/// Relies on rand's thread_rng: a handle to the thread-local generator.
#[verifier::external_body]
pub(crate) fn fresh_rng() -> ThreadRng {
    rand::thread_rng()
}

/// Relies on rand's WeightedIndex::sample: the sampled value is an index
/// into the weights the distribution was built over, whichever index the
/// generator picks.
#[verifier::external_body]
pub(crate) fn sample_index(d: &WeightedDist, rng: &mut ThreadRng) -> (idx: usize)
    ensures
        idx < dist_weights(*d).len(),
{
    d.dist.sample(rng)
}

} // verus!
