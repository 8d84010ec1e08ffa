//! Randomness: a caller-supplied ChaCha20 generator behind trusted
//! wrappers.
//!
//! ChaCha20 is a counter-mode stream cipher: the values a
//! `ChaCha20Rng` produces are a deterministic, portable function of the
//! generator value alone (reproducible streams are the documented point
//! of `rand_chacha`).  The uninterpreted functions below name the
//! result and the successor generator of each kind of draw; every
//! training routine's contract is stated over these names, which is
//! what makes training reproducible: equal generator values and equal
//! draw sequences give equal tables.

use rand::distributions::Distribution;
use rand::Rng;
use vstd::prelude::*;

verus! {

#[verifier::external_type_specification]
#[verifier::external_body]
pub struct ExChaCha20Rng(rand_chacha::ChaCha20Rng);

/// The number `Rng::gen_range(0..bound)` returns on a `ChaCha20Rng`
/// with this value; a function of the generator value and the bound.
pub uninterp spec fn draw_value(rng: rand_chacha::ChaCha20Rng, bound: u64) -> u64;

/// The generator value left behind by that same draw.
pub uninterp spec fn draw_next(rng: rand_chacha::ChaCha20Rng, bound: u64) -> rand_chacha::ChaCha20Rng;

/// Sum of a sequence of weights.
pub open spec fn sum_u64(s: Seq<u64>) -> int
    decreases s.len(),
{
    if s.len() == 0 {
        0
    } else {
        s[0] + sum_u64(s.drop_first())
    }
}

/// The index `WeightedIndex::sample` returns on a `ChaCha20Rng` with
/// this value; a function of the generator value and the weights.
pub uninterp spec fn weighted_value(rng: rand_chacha::ChaCha20Rng, weights: Seq<u64>) -> usize;

/// The generator value left behind by that same weighted draw.
pub uninterp spec fn weighted_next(
    rng: rand_chacha::ChaCha20Rng,
    weights: Seq<u64>,
) -> rand_chacha::ChaCha20Rng;

/// Relies on `rand::Rng::gen_range` over `rand_chacha::ChaCha20Rng`:
/// returns a number below `bound` (it panics only on an empty range,
/// which `bound > 0` rules out), computed deterministically from the
/// generator value and the bound.
#[verifier::external_body]
pub fn draw_below(rng: &mut rand_chacha::ChaCha20Rng, bound: u64) -> (r: u64)
    requires
        bound > 0,
    ensures
        r == draw_value(*old(rng), bound),
        r < bound,
        *final (rng) == draw_next(*old(rng), bound),
{
    rng.gen_range(0..bound)
}

/// Relies on `rand::distributions::WeightedIndex::new` and
/// `WeightedIndex::sample`: with at least one weight, no negative
/// weight (none exists in `u64`), a positive total and no overflow of
/// the total, `new` succeeds, and `sample` returns the index of a
/// nonzero weight (its binary search lands strictly inside that
/// weight's cumulative interval), computed deterministically from the
/// generator value and the weights.
#[verifier::external_body]
pub fn sample_weighted(rng: &mut rand_chacha::ChaCha20Rng, weights: &Vec<u64>) -> (r: usize)
    requires
        weights@.len() > 0,
        0 < sum_u64(weights@) <= u64::MAX,
    ensures
        r == weighted_value(*old(rng), weights@),
        r < weights@.len(),
        weights@[r as int] > 0,
        *final (rng) == weighted_next(*old(rng), weights@),
{
    let dist = rand::distributions::WeightedIndex::new(weights).unwrap();
    dist.sample(rng)
}

} // verus!
