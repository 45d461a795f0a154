//! The random source of the engine: a ChaCha generator with eight rounds.
//!
//! The functions at the top of this file are the only ones that call the
//! `rand` crates.  Their contracts are not proved; each states what the
//! documentation of the called function promises of every outcome.

use vstd::prelude::*;
use rand::Rng;
use rand::SeedableRng;
use rand::seq::SliceRandom;
use rand_chacha::ChaCha8Rng;

verus! {

/// The ChaCha generator with eight rounds of the `rand_chacha` crate.  The
/// verifier sees nothing of its state.
#[verifier::external_type_specification]
#[verifier::external_body]
pub struct ExChaCha8Rng(ChaCha8Rng);

/// The error of the `rand` crate, here that of a system without entropy.
#[verifier::external_type_specification]
#[verifier::external_body]
pub struct ExRandError(rand::Error);

/// Calls `SeedableRng::seed_from_u64`.  Nothing is claimed of the generator
/// it returns.
#[verifier::external_body]
pub(crate) fn seeded_rng(seed: u64) -> (rng: ChaCha8Rng) {
    ChaCha8Rng::seed_from_u64(seed)
}

/// Calls `SeedableRng::from_rng` with the operating system's generator, which
/// fails where the system has no entropy to give.  Nothing is claimed of the
/// outcome.
#[verifier::external_body]
pub(crate) fn entropy_rng() -> (rng: Result<ChaCha8Rng, rand::Error>) {
    ChaCha8Rng::from_rng(rand::rngs::OsRng)
}

/// Calls `Rng::gen_range` with the range from zero up to, and without,
/// `bound`.  The range must not be empty; the sample lies in it.
#[verifier::external_body]
pub(crate) fn random_below(rng: &mut ChaCha8Rng, bound: usize) -> (sample: usize)
    requires
        bound > 0,
    ensures
        sample < bound,
{
    rng.gen_range(0..bound)
}

/// Calls `Rng::gen_ratio`, which is true with the probability
/// `numerator / denominator`: never for a numerator of zero, always where
/// numerator and denominator agree.
#[verifier::external_body]
pub(crate) fn random_ratio(rng: &mut ChaCha8Rng, numerator: u32, denominator: u32) -> (hit: bool)
    requires
        denominator > 0,
        numerator <= denominator,
    ensures
        numerator == 0 ==> !hit,
        numerator == denominator ==> hit,
{
    rng.gen_ratio(numerator, denominator)
}

/// Calls `SliceRandom::shuffle`, which swaps elements of the slice: the same
/// elements are there afterwards, each as often as before.
#[verifier::external_body]
pub(crate) fn shuffle_cells(rng: &mut ChaCha8Rng, cells: &mut Vec<usize>)
    ensures
        final(cells)@.to_multiset() == old(cells)@.to_multiset(),
{
    cells.shuffle(rng)
}

/// Why no random source could be made.
#[derive(Debug, Clone, Copy, PartialEq, Eq, Structural)]
pub enum RandomError {
    /// No seed was given and the system had no entropy to offer.
    EntropyUnavailable,
}

/// Makes the random source of a run: seeded where a seed is given, from the
/// system's entropy otherwise.  With a seed this never fails.
pub fn new_rng(seed: Option<u64>) -> (rng: Result<ChaCha8Rng, RandomError>)
    ensures
        seed.is_some() ==> rng.is_ok(),
        rng is Err ==> rng == Err::<ChaCha8Rng, RandomError>(RandomError::EntropyUnavailable),
{
    match seed {
        Some(seed) => Ok(seeded_rng(seed)),
        None => match entropy_rng() {
            Ok(rng) => Ok(rng),
            Err(_) => Err(RandomError::EntropyUnavailable),
        },
    }
}

/// Draws a number between `low` and `high`, both included.  Where `high` is
/// below `low` the result is `low`.
pub fn random_between(rng: &mut ChaCha8Rng, low: usize, high: usize) -> (sample: usize)
    ensures
        low <= sample,
        sample <= high || sample == low,
{
    if high <= low {
        low
    } else if high - low == usize::MAX {
        random_below(rng, usize::MAX)
    } else {
        low + random_below(rng, high - low + 1)
    }
}

/// Decides with the given chance in a thousand.  Chances above a thousand
/// count as certain.
pub fn random_chance(rng: &mut ChaCha8Rng, per_mille: u32) -> (hit: bool)
    ensures
        per_mille == 0 ==> !hit,
        per_mille >= 1000 ==> hit,
{
    if per_mille >= 1000 {
        true
    } else {
        random_ratio(rng, per_mille, 1000)
    }
}

} // verus!
