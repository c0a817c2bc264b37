//! Drawing an index at random, with chances proportional to weights.
use rand::distributions::{Distribution, WeightedError, WeightedIndex};
use rand::rngs::ThreadRng;
use rand::seq::SliceRandom;
use rand::Rng;
use vstd::prelude::*;

verus! {

/// A `rand` `WeightedIndex` over `u8` weights. Its type carries a bound on an
/// outside trait, so it is held here out of sight; the weights it was built
/// from are named by `index_weights`.
#[verifier::external_body]
pub struct IndexOverWeights {
    index: WeightedIndex<u8>,
}

/// `rand::rngs::ThreadRng`, declared so that it can stand in signatures; its
/// state is not visible.
#[verifier::external_type_specification]
#[verifier::external_body]
pub struct ExThreadRng(ThreadRng);

/// The weights that a `WeightedIndex` was built from.
pub uninterp spec fn index_weights(index: IndexOverWeights) -> Seq<u8>;

/// Why no `WeightedIndex` could be built from a list of weights.
#[derive(Debug, Clone, Copy, PartialEq, Eq)]
pub enum WeightedIndexError {
    NoItem,
    InvalidWeight,
    AllWeightsZero,
    TooMany,
}

/// The error of a result, if it is one.
pub open spec fn error_of<T>(r: Result<T, WeightedIndexError>) -> Option<WeightedIndexError> {
    match r {
        Ok(_) => None,
        Err(e) => Some(e),
    }
}

/// Sum of the weights.
pub open spec fn weight_sum(weights: Seq<u8>) -> int
    decreases weights.len(),
{
    if weights.len() == 0 {
        0
    } else {
        weight_sum(weights.drop_last()) + weights.last()
    }
}

/// An index over weights, or why none could be built.
pub type IndexResult = Result<IndexOverWeights, WeightedIndexError>;

/// `WeightedIndex::new` on `u8` weights (rand 0.8): an error for an empty list
/// (`NoItem`) or for weights that are all zero (`AllWeightsZero`); otherwise an
/// index over the given weights. Its running total is a `u8`, so the caller
/// keeps the sum of the weights within 255 (the sum overflows otherwise).
#[verifier::external_body]
fn weighted_index_new(weights: &Vec<u8>) -> (r: IndexResult)
    requires
        weight_sum(weights@) <= 255,
    ensures
        weights@.len() == 0 ==> error_of(r) == Some(WeightedIndexError::NoItem),
        weights@.len() > 0 && weight_sum(weights@) == 0 ==> error_of(r) == Some(WeightedIndexError::AllWeightsZero),
        weight_sum(weights@) > 0 ==> r is Ok,
        r matches Ok(index) ==> index_weights(index) == weights@,
{
    match WeightedIndex::new(weights.iter()) {
        Ok(index) => Ok(IndexOverWeights { index }),
        Err(WeightedError::NoItem) => Err(WeightedIndexError::NoItem),
        Err(WeightedError::InvalidWeight) => Err(WeightedIndexError::InvalidWeight),
        Err(WeightedError::AllWeightsZero) => Err(WeightedIndexError::AllWeightsZero),
        Err(WeightedError::TooMany) => Err(WeightedIndexError::TooMany),
    }
}

/// `rand::thread_rng`: the random number generator of this thread.
#[verifier::external_body]
pub(crate) fn thread_rng() -> ThreadRng {
    rand::thread_rng()
}

/// `WeightedIndex::sample`: an index drawn at random, each index with a chance
/// proportional to its weight; never an index of weight zero.
#[verifier::external_body]
fn weighted_index_sample(index: &IndexOverWeights, rng: &mut ThreadRng) -> (i: usize)
    ensures
        i < index_weights(*index).len(),
        index_weights(*index)[i as int] > 0,
{
    index.index.sample(rng)
}

/// `Rng::gen_range` over `0..=high`: a number drawn at random, each with the
/// same chance.
#[verifier::external_body]
pub(crate) fn gen_up_to(rng: &mut ThreadRng, high: u8) -> (r: u8)
    ensures
        r <= high,
{
    rng.gen_range(0..=high)
}

/// `SliceRandom::shuffle`: puts the positions in a random order, keeping
/// each of them.
#[verifier::external_body]
pub(crate) fn shuffle_positions(positions: &mut Vec<(usize, usize)>, rng: &mut ThreadRng)
    ensures
        final(positions)@.to_multiset() == old(positions)@.to_multiset(),
{
    positions.shuffle(rng)
}

/// An index drawn at random, each with a chance proportional to its weight:
/// never one of weight zero. An error when the list is empty or all its
/// weights are zero.
pub fn sample_weighted(weights: &Vec<u8>) -> (r: Result<usize, WeightedIndexError>)
    requires
        weight_sum(weights@) <= 255,
    ensures
        weights@.len() == 0 ==> error_of(r) == Some(WeightedIndexError::NoItem),
        weights@.len() > 0 && weight_sum(weights@) == 0 ==> error_of(r) == Some(WeightedIndexError::AllWeightsZero),
        weight_sum(weights@) > 0 ==> r is Ok,
        r matches Ok(i) ==> i < weights@.len() && weights@[i as int] > 0,
{
    let index = weighted_index_new(weights)?;
    let mut rng = thread_rng();
    Ok(weighted_index_sample(&index, &mut rng))
}

} // verus!
