use vstd::prelude::*;
use rand::rngs::ThreadRng;

verus! {

/// rand's handle to the thread's random number generator.
#[verifier::external_type_specification]
#[verifier::external_body]
pub struct ExThreadRng(ThreadRng);

/// The sum of `weights`.
pub open spec fn weight_sum(weights: Seq<usize>) -> int
    decreases weights.len(),
{
    if weights.len() == 0 {
        0
    } else {
        weight_sum(weights.drop_last()) + weights.last()
    }
}

/// Calls `rand::thread_rng`: a handle to the thread's random number generator. Nothing is
/// stated of it.
#[verifier::external_body]
pub(crate) fn thread_rng() -> (r: ThreadRng) {
    rand::thread_rng()
}

/// Calls `rand::Rng::gen_range` with the range `0..n`: rand's source asserts that the range
/// is not empty and draws from it, so the result is below `n`. Which number comes rests on
/// chance and is not stated.
#[verifier::external_body]
pub(crate) fn gen_index(rng: &mut ThreadRng, n: usize) -> (r: usize)
    requires
        n > 0,
    ensures
        r < n,
{
    rand::Rng::gen_range(rng, 0..n)
}

/// Calls `rand::distributions::WeightedIndex::new` on `weights` and samples the
/// distribution once. rand's source builds the sums of the weights before each index, which
/// it accepts when there is a weight and their total is not 0, draws a number below the
/// total and returns the first index whose sum up to it exceeds the number: an index whose
/// weight is not 0. Which index comes rests on chance and is not stated.
#[verifier::external_body]
pub(crate) fn weighted_index(rng: &mut ThreadRng, weights: &Vec<usize>) -> (r: usize)
    requires
        weights@.len() > 0,
        0 < weight_sum(weights@) <= usize::MAX,
    ensures
        r < weights@.len(),
        weights@[r as int] > 0,
{
    let dist = rand::distributions::WeightedIndex::new(weights).unwrap();
    rand::distributions::Distribution::sample(&dist, rng)
}

} // verus!
