//! The random-number source of the simulation: a seeded ChaCha8 generator of
//! the `rand_chacha` crate, sampled through `rand`.
//!
//! Probabilities are integers in millionths ([`PROBABILITY_SCALE`]); a coin
//! with probability `p` comes up `true` with chance `min(p, scale) / scale`.
use rand::Rng;
use rand::SeedableRng;
use rand_chacha::ChaCha8Rng;
use vstd::prelude::*;

verus! {

#[verifier::external_type_specification]
#[verifier::external_body]
pub struct ExChaCha8Rng(rand_chacha::ChaCha8Rng);

/// One in a million: probabilities are given in millionths of certainty.
pub const PROBABILITY_SCALE: u32 = 1_000_000;

/// Whether a coin that came up `outcome`, with chance `numerator/denominator`,
/// is an outcome that coin can have: a zero chance never comes up, a certain
/// one always does.
pub open spec fn coin_outcome_possible(numerator: u32, denominator: u32, outcome: bool) -> bool {
    &&& numerator == 0 ==> !outcome
    &&& numerator == denominator ==> outcome
}

/// A draw taken from a generator, as its record keeps it.
#[derive(Clone, Copy, PartialEq, Eq, Structural, Debug)]
pub enum Draw {
    /// A coin with chance `numerator/denominator`.
    Ratio { numerator: u32, denominator: u32 },
    /// A `u64`.
    Word,
    /// A value in `start..end`.
    Range { start: u64, end: u64 },
}

/// The abstract state of a generator: the seed it was made from, and the
/// draws taken from it since, in order.
pub struct GeneratorModel {
    pub seed: u64,
    pub draws: Seq<Draw>,
}

/// A ChaCha8 generator with the record of its seed and of the draws taken
/// from it. Only the functions below make or draw from one, and each keeps
/// the record: so the record determines the generator's state.
pub struct SeededRng {
    rng: ChaCha8Rng,
    seed: Ghost<u64>,
    draws: Ghost<Seq<Draw>>,
}

impl View for SeededRng {
    type V = GeneratorModel;

    closed spec fn view(&self) -> GeneratorModel {
        GeneratorModel { seed: self.seed@, draws: self.draws@ }
    }
}

/// The outcome of `Rng::random_ratio(numerator, denominator)` on a ChaCha8
/// generator seeded from `seed` after `draws`.
pub uninterp spec fn ratio_outcome(seed: u64, draws: Seq<Draw>, numerator: u32, denominator: u32) -> bool;

/// The outcome of `Rng::random::<u64>()` on a ChaCha8 generator seeded from
/// `seed` after `draws`.
pub uninterp spec fn word_outcome(seed: u64, draws: Seq<Draw>) -> u64;

/// The outcome of `Rng::random_range(start..end)` on a ChaCha8 generator
/// seeded from `seed` after `draws`.
pub uninterp spec fn range_outcome(seed: u64, draws: Seq<Draw>, start: u64, end: u64) -> u64;

/// `ChaCha8Rng::seed_from_u64(seed)` (`SeedableRng`), recorded as seeded from
/// `seed` with no draws. rand_chacha documents its generators as
/// deterministic and portable: the seed and the draws taken determine every
/// later outcome, which the names above stand for.
#[verifier::external_body]
pub(crate) fn seeded_rng(seed: u64) -> (r: SeededRng)
    ensures
        r@ == (GeneratorModel { seed, draws: Seq::empty() }),
{
    SeededRng { rng: ChaCha8Rng::seed_from_u64(seed), seed: Ghost(seed), draws: Ghost(Seq::empty()) }
}

/// `Rng::random_ratio`: `true` with chance `numerator/denominator`. Its
/// documentation guarantees `false` when `numerator == 0` and `true` when
/// `numerator == denominator`; it panics when `denominator == 0` or
/// `numerator > denominator`, which `requires` rules out. The outcome is
/// named by the seed and the earlier draws; the draw is recorded.
#[verifier::external_body]
pub(crate) fn random_ratio(rng: &mut SeededRng, numerator: u32, denominator: u32) -> (outcome: bool)
    requires
        0 < denominator,
        numerator <= denominator,
    ensures
        coin_outcome_possible(numerator, denominator, outcome),
        outcome == ratio_outcome(old(rng)@.seed, old(rng)@.draws, numerator, denominator),
        final(rng)@ == (GeneratorModel {
            seed: old(rng)@.seed,
            draws: old(rng)@.draws.push(Draw::Ratio { numerator, denominator }),
        }),
{
    let outcome = rng.rng.random_ratio(numerator, denominator);
    rng.draws = Ghost(rng.draws@.push(Draw::Ratio { numerator, denominator }));
    outcome
}

/// `Rng::random::<u64>()`: any `u64` can come up. The outcome is named by the
/// seed and the earlier draws; the draw is recorded.
#[verifier::external_body]
pub(crate) fn random_u64(rng: &mut SeededRng) -> (value: u64)
    ensures
        value == word_outcome(old(rng)@.seed, old(rng)@.draws),
        final(rng)@ == (GeneratorModel { seed: old(rng)@.seed, draws: old(rng)@.draws.push(Draw::Word) }),
{
    let value = rng.rng.random::<u64>();
    rng.draws = Ghost(rng.draws@.push(Draw::Word));
    value
}

/// `Rng::random_range(start..end)`: a value in the half-open range. It panics
/// on an empty range, which `requires` rules out. The outcome is named by the
/// seed and the earlier draws; the draw is recorded.
#[verifier::external_body]
pub(crate) fn random_in_range(rng: &mut SeededRng, start: u64, end: u64) -> (value: u64)
    requires
        start < end,
    ensures
        start <= value < end,
        value == range_outcome(old(rng)@.seed, old(rng)@.draws, start, end),
        final(rng)@ == (GeneratorModel {
            seed: old(rng)@.seed,
            draws: old(rng)@.draws.push(Draw::Range { start, end }),
        }),
{
    let value = rng.rng.random_range(start..end);
    rng.draws = Ghost(rng.draws@.push(Draw::Range { start, end }));
    value
}

/// `after` is `before` with one more coin drawn, of chance
/// `numerator/denominator`, and that coin came up `outcome`.
pub open spec fn drew_coin(before: GeneratorModel, after: GeneratorModel, numerator: u32, denominator: u32, outcome: bool) -> bool {
    &&& after == (GeneratorModel { seed: before.seed, draws: before.draws.push(Draw::Ratio { numerator, denominator }) })
    &&& outcome == ratio_outcome(before.seed, before.draws, numerator, denominator)
}

/// Flip a coin that comes up `true` with chance `numerator/denominator`,
/// the numerator capped at the denominator (a chance above one is certainty).
pub(crate) fn flip(rng: &mut SeededRng, numerator: u32, denominator: u32) -> (outcome: bool)
    requires
        0 < denominator,
    ensures
        coin_outcome_possible(capped(numerator, denominator), denominator, outcome),
        outcome == ratio_outcome(old(rng)@.seed, old(rng)@.draws, capped(numerator, denominator), denominator),
        final(rng)@ == (GeneratorModel {
            seed: old(rng)@.seed,
            draws: old(rng)@.draws.push(Draw::Ratio { numerator: capped(numerator, denominator), denominator }),
        }),
{
    let p = if numerator < denominator { numerator } else { denominator };
    random_ratio(rng, p, denominator)
}

/// `value` capped at `cap`.
pub open spec fn capped(value: u32, cap: u32) -> u32 {
    if value < cap { value } else { cap }
}

} // verus!
