//! Trusted declarations for the random-number generator that selection uses.
//!
//! Randomness is inherently nondeterministic, so these contracts state only
//! what holds of every outcome; all logic that consumes the drawn values is
//! verified for every possible draw.

use vstd::prelude::*;
use rand::Rng;
use rand::seq::SliceRandom;

verus! {

#[verifier::external_type_specification]
#[verifier::external_body]
pub struct ExStdRng(rand::rngs::StdRng);

/// Relies on rand::Rng::gen_range over `0..n`: returns a value in `[0, n)`
/// (uniformly distributed; nothing about the distribution is assumed here).
#[verifier::external_body]
pub(crate) fn gen_index(rng: &mut rand::rngs::StdRng, n: usize) -> (r: usize)
    requires
        n > 0,
    ensures
        r < n,
{
    rng.gen_range(0..n)
}

/// Relies on rand::seq::SliceRandom::choose_multiple: samples `amount`
/// elements of the slice without repetition, so over a duplicate-free slice
/// the drawn values are distinct and each occurs in the slice.
#[verifier::external_body]
pub(crate) fn choose_distinct(
    xs: &Vec<usize>,
    amount: usize,
    rng: &mut rand::rngs::StdRng,
) -> (r: Vec<usize>)
    requires
        amount <= xs@.len(),
        xs@.no_duplicates(),
    ensures
        r@.len() == amount,
        r@.no_duplicates(),
        forall|i: int| 0 <= i < r@.len() ==> xs@.contains(#[trigger] r@[i]),
{
    xs.choose_multiple(rng, amount).copied().collect()
}

} // verus!
