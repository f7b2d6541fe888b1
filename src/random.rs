//! The random choices of the clustering engine, made with `rand`.

use vstd::prelude::*;
use rand::distributions::{Distribution, WeightedError, WeightedIndex};
use rand::rngs::StdRng;
use rand::seq::SliceRandom;
use rand::{Rng, SeedableRng};
use crate::color::LAB;

verus! {

#[verifier::external_type_specification]
#[verifier::external_body]
pub struct ExStdRng(StdRng);

#[verifier::external_type_specification]
#[verifier::external_body]
pub struct ExWeightedError(WeightedError);

/// The sum of `s`.
pub open spec fn seq_sum(s: Seq<u128>) -> int
    decreases s.len(),
{
    if s.len() == 0 {
        0
    } else {
        seq_sum(s.drop_last()) + s.last()
    }
}

/// A distribution over indices, each drawn in proportion to its weight:
/// a `rand::distributions::WeightedIndex` over `u128` weights, which Verus
/// cannot declare directly for the trait bound on its parameter.
#[verifier::external_body]
pub struct WeightedChoice {
    dist: WeightedIndex<u128>,
}

/// A weighted distribution, or why none could be built.
pub type WeightedResult = Result<WeightedChoice, WeightedError>;

/// The weights that a weighted distribution was built from.
pub uninterp spec fn weights_of(d: WeightedChoice) -> Seq<u128>;

/// A generator seeded from the operating system.
///
/// Relies on `rand::SeedableRng::from_entropy` for `StdRng`, which panics
/// only when the system has no entropy to give.
#[verifier::external_body]
pub(crate) fn entropy_rng() -> StdRng {
    StdRng::from_entropy()
}

/// A uniformly drawn index below `n`.
///
/// Relies on `rand::Rng::gen_range(0, n)`: a value in `[0, n)`; it panics
/// when the range is empty, which `requires` rules out.
#[verifier::external_body]
pub(crate) fn random_index(rng: &mut StdRng, n: usize) -> (r: usize)
    requires
        n > 0,
    ensures
        r < n,
{
    rng.gen_range(0, n)
}

/// A distribution over the indices of `weights`, each drawn in proportion to
/// its weight.
///
/// Relies on `rand::distributions::WeightedIndex::new`: it fails with
/// `NoItem` on no weights and `AllWeightsZero` when they sum to zero
/// (`InvalidWeight` needs a negative weight, which `u128` cannot hold), and
/// otherwise keeps the weights. It adds the weights up as it goes, so a sum
/// beyond `u128::MAX` would overflow: `requires` rules that out.
#[verifier::external_body]
pub(crate) fn weighted_index(weights: &Vec<u128>) -> (r: WeightedResult)
    requires
        seq_sum(weights@) <= u128::MAX,
    ensures
        r.is_ok() == (weights@.len() > 0 && seq_sum(weights@) > 0),
        r.is_ok() ==> weights_of(r.unwrap()) == weights@,
{
    WeightedIndex::new(weights).map(|dist| WeightedChoice { dist })
}

/// An index drawn from `d`.
///
/// Relies on `Distribution::sample` for `WeightedIndex`: it draws a value
/// below the total weight and returns the first index whose running total
/// exceeds it, so the index is in range and its weight is positive.
#[verifier::external_body]
pub(crate) fn weighted_sample(d: &WeightedChoice, rng: &mut StdRng) -> (r: usize)
    ensures
        r < weights_of(*d).len(),
        weights_of(*d)[r as int] > 0,
{
    d.dist.sample(rng)
}

/// `amount` samples of `pixels` (all of them where there are fewer), drawn
/// without repetition.
///
/// Relies on `rand::seq::SliceRandom::choose_multiple`: it yields
/// `min(amount, len)` elements at distinct random positions of the slice.
#[verifier::external_body]
pub(crate) fn choose_samples(pixels: &Vec<LAB>, rng: &mut StdRng, amount: usize) -> (r: Vec<LAB>)
    ensures
        r@.len() == if amount < pixels@.len() {
            amount as int
        } else {
            pixels@.len() as int
        },
        r@.to_multiset().subset_of(pixels@.to_multiset()),
{
    pixels.choose_multiple(rng, amount).cloned().collect()
}

} // verus!
