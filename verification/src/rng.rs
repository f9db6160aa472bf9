//! The crate's only randomness: thin trusted wrappers around `rand`.
//!
//! Each wrapper states only what holds of every outcome — which indices a
//! weighted draw can produce, that a range draw stays in range — never
//! which value comes back; the generator's logic is verified for every
//! value these can return.

use vstd::prelude::*;

verus! {

/// The sum of the first `n` weights.
pub open spec fn weight_sum(weights: Seq<u32>, n: int) -> int
    decreases n,
{
    if n <= 0 {
        0
    } else {
        weight_sum(weights, n - 1) + weights[n - 1]
    }
}

/// Relies on rand::distributions::WeightedIndex::new and
/// Distribution::sample: sampling returns an index below the number of
/// weights, and an index of weight zero has probability zero, so the
/// result's weight is positive.  `new` errs only on an empty list, a zero
/// total or an overflowing total, all excluded here.
#[verifier::external_body]
pub(crate) fn pick_weighted(weights: &Vec<u32>) -> (i: usize)
    requires
        weights@.len() >= 1,
        exists|j: int| 0 <= j < weights@.len() && weights@[j] > 0,
        weight_sum(weights@, weights@.len() as int) <= u32::MAX,
    ensures
        i < weights@.len(),
        weights@[i as int] > 0,
{
    let dist = rand::distributions::WeightedIndex::new(weights.iter()).unwrap();
    rand::distributions::Distribution::sample(&dist, &mut rand::thread_rng())
}

/// Relies on rand::Rng::gen_range over `0..n`: the result is below `n`;
/// the call panics only on an empty range, excluded here.
#[verifier::external_body]
pub(crate) fn pick_index(n: usize) -> (i: usize)
    requires
        n >= 1,
    ensures
        i < n,
{
    rand::Rng::gen_range(&mut rand::thread_rng(), 0..n)
}

/// Relies on rand::Rng::gen_ratio: a biased coin flip that panics only
/// when the denominator is zero or smaller than the numerator, excluded
/// here.  Nothing can be promised of the outcome.
#[verifier::external_body]
pub(crate) fn pick_ratio(numerator: u32, denominator: u32) -> (b: bool)
    requires
        0 < denominator,
        numerator <= denominator,
{
    rand::Rng::gen_ratio(&mut rand::thread_rng(), numerator, denominator)
}

/// Relies on rand::seq::index::sample: draws `amount` distinct indices
/// from `0..length`; panics only when `amount` exceeds `length`, excluded
/// here.
#[verifier::external_body]
pub(crate) fn pick_distinct(length: usize, amount: usize) -> (v: Vec<usize>)
    requires
        amount <= length,
    ensures
        v@.len() == amount,
        forall|i: int| 0 <= i < v@.len() ==> (#[trigger] v@[i]) < length,
        forall|i: int, j: int| 0 <= i < j < v@.len() ==> v@[i] != v@[j],
{
    rand::seq::index::sample(&mut rand::thread_rng(), length, amount).into_vec()
}

} // verus!
