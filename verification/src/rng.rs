//! The random-number facilities of `rand` that world generation draws on.
//!
//! `StdRng` is a seeded, deterministic generator: each draw below is a
//! function of the generator's state and the draw's arguments, and so is the
//! state the generator is left in. Those functions are named here.
use rand::distr::weighted::{Error as WeightError, WeightedIndex};
use rand::distr::Distribution;
use rand::rngs::StdRng;
use rand::{Rng, SeedableRng};
use vstd::prelude::*;

verus! {

#[verifier::external_type_specification]
#[verifier::external_body]
pub struct ExStdRng(StdRng);

/// A `WeightedIndex<u32>` distribution over the indices of a weight list.
#[verifier::external_body]
pub struct WeightTable {
    dist: WeightedIndex<u32>,
}

#[verifier::external_type_specification]
#[verifier::external_body]
pub struct ExWeightError(WeightError);

/// The generator that `StdRng::seed_from_u64` builds from a seed.
pub uninterp spec fn rng_from_seed(seed: u64) -> StdRng;

/// The weights a `WeightedIndex<u32>` was built from.
pub uninterp spec fn index_weights(table: WeightTable) -> Seq<u32>;

/// The result of `random_ratio(numerator, denominator)` on a generator in state `rng`.
pub uninterp spec fn ratio_draw(rng: StdRng, numerator: u32, denominator: u32) -> bool;

/// The state `random_ratio(numerator, denominator)` leaves a generator in state `rng` in.
pub uninterp spec fn ratio_next(rng: StdRng, numerator: u32, denominator: u32) -> StdRng;

/// The result of `random_range(low..high)` on a generator in state `rng`.
pub uninterp spec fn range_draw(rng: StdRng, low: i32, high: i32) -> i32;

/// The state `random_range(low..high)` leaves a generator in state `rng` in.
pub uninterp spec fn range_next(rng: StdRng, low: i32, high: i32) -> StdRng;

/// The index a `WeightedIndex<u32>` built from `weights` samples from a
/// generator in state `rng`.
pub uninterp spec fn weighted_draw(rng: StdRng, weights: Seq<u32>) -> usize;

/// The state that sampling a `WeightedIndex<u32>` built from `weights` leaves
/// a generator in state `rng` in.
pub uninterp spec fn weighted_next(rng: StdRng, weights: Seq<u32>) -> StdRng;

/// Sum of a sequence of weights.
pub open spec fn weight_sum(w: Seq<u32>) -> int
    decreases w.len(),
{
    if w.len() == 0 {
        0
    } else {
        weight_sum(w.drop_last()) + w.last()
    }
}

/// `StdRng::seed_from_u64`: the generator depends on the seed alone, so equal
/// seeds give equal generators. Nothing is claimed of the numbers it yields.
#[verifier::external_body]
pub fn seeded_rng(seed: u64) -> (rng: StdRng)
    ensures
        rng == rng_from_seed(seed),
{
    StdRng::seed_from_u64(seed)
}

/// `rand::rng().random::<u64>()`: a fresh seed from the thread-local generator,
/// which is seeded from the operating system. Any `u64` may come back.
#[verifier::external_body]
pub fn random_seed() -> u64 {
    rand::rng().random()
}

/// `Rng::random_ratio`: `true` with probability `numerator / denominator`.
/// It panics when `denominator == 0` or `numerator > denominator`; its
/// documentation guarantees `false` for a zero numerator and `true` when
/// `numerator == denominator`. The value and the generator's new state are
/// functions of the old state and the arguments.
#[verifier::external_body]
pub fn random_ratio(rng: &mut StdRng, numerator: u32, denominator: u32) -> (r: bool)
    requires
        0 < denominator,
        numerator <= denominator,
    ensures
        r == ratio_draw(*old(rng), numerator, denominator),
        *final(rng) == ratio_next(*old(rng), numerator, denominator),
        numerator == 0 ==> !r,
        numerator == denominator ==> r,
{
    rng.random_ratio(numerator, denominator)
}

/// `Rng::random_range(low..high)` on `i32`: a value in `low..high`. It panics
/// on an empty range. The value and the generator's new state are functions
/// of the old state and the bounds.
#[verifier::external_body]
pub fn random_range_i32(rng: &mut StdRng, low: i32, high: i32) -> (r: i32)
    requires
        low < high,
    ensures
        r == range_draw(*old(rng), low, high),
        *final(rng) == range_next(*old(rng), low, high),
        low <= r < high,
{
    rng.random_range(low..high)
}

/// `WeightedIndex::<u32>::new`: succeeds exactly when the weights are not
/// empty and their sum is positive and fits in a `u32` (the constructor adds
/// them with `checked_add` and rejects a zero total); the distribution keeps
/// the weights it was built from.
#[verifier::external_body]
pub fn weighted_index(weights: &Vec<u32>) -> (r: Result<WeightTable, WeightError>)
    ensures
        r is Ok <==> (weights@.len() > 0 && 0 < weight_sum(weights@) <= u32::MAX),
        r matches Ok(d) ==> index_weights(d) == weights@,
{
    WeightedIndex::new(weights.iter()).map(|dist| WeightTable { dist })
}

/// `Distribution::sample` for `WeightedIndex<u32>`: draws a total weight below
/// the sum and returns the first index whose running sum exceeds it, so the
/// index is in range and its weight is positive. The index and the
/// generator's new state are functions of the old state and the weights.
#[verifier::external_body]
pub fn weighted_sample(table: &WeightTable, rng: &mut StdRng) -> (r: usize)
    ensures
        r == weighted_draw(*old(rng), index_weights(*table)),
        *final(rng) == weighted_next(*old(rng), index_weights(*table)),
        r < index_weights(*table).len(),
        index_weights(*table)[r as int] > 0,
{
    table.dist.sample(rng)
}

} // verus!
