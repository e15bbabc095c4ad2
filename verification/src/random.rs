//! Random draws, as functions of a seed.

use rand::Rng;
use rand::SeedableRng;
use vstd::prelude::*;

verus! {

/// The first `len` numbers that the standard generator of `rand`, seeded with
/// `seed`, draws uniformly from `0..bound`. The documentation of that generator
/// promises no portability: the name stands for the draws of the version of
/// `rand` that the crate is locked to, and another version may draw others.
pub uninterp spec fn uniform_draws(seed: u64, bound: u64, len: nat) -> Seq<u64>;

/// Draws numbers below a bound with `rand::Rng::sample_iter`, over a
/// `rand::rngs::StdRng` made by `seed_from_u64` and a
/// `rand::distr::Uniform` over `0..bound`.
///
/// What is claimed: there are `len` draws, each lies below `bound`, and they
/// depend on the seed, the bound and the number of draws alone.
#[verifier::external_body]
pub(crate) fn draw_uniform(seed: u64, bound: u64, len: usize) -> (draws: Vec<u64>)
    requires
        bound > 0,
    ensures
        draws@ == uniform_draws(seed, bound, len as nat),
        draws@.len() == len,
        forall|i: int| 0 <= i < draws@.len() ==> draws@[i] < bound,
{
    let range = rand::distr::Uniform::try_from(0..bound).unwrap();
    let rng = rand::rngs::StdRng::seed_from_u64(seed);
    rng.sample_iter(&range).take(len).collect()
}

/// The truth value that a `fastrand` generator in this state draws, and the
/// state that it goes to.
pub uninterp spec fn bool_draw(state: u64) -> (bool, u64);

/// Draws a truth value with `fastrand::Rng::bool`.
///
/// What is claimed: the draw and the next state depend on the state alone.
#[verifier::external_body]
pub(crate) fn draw_bool(state: u64) -> (draw: (bool, u64))
    ensures
        draw == bool_draw(state),
{
    let mut rng = fastrand::Rng::with_seed(state);
    let value = rng.bool();
    (value, rng.get_seed())
}

/// The number in `1..=max` that a `fastrand` generator in this state draws on a
/// machine with pointers of `bits` bits, and the state that it goes to.
pub uninterp spec fn run_draw(state: u64, max: usize, bits: u32) -> (usize, u64);

/// Draws a number in `1..=max` with `fastrand::Rng::usize`.
///
/// What is claimed: the draw lies in the range, and it and the next state depend
/// on the state, the range and the width of `usize` alone.
#[verifier::external_body]
pub(crate) fn draw_run(state: u64, max: usize) -> (draw: (usize, u64))
    requires
        max >= 1,
    ensures
        draw == run_draw(state, max, usize::BITS),
        1 <= draw.0 <= max,
{
    let mut rng = fastrand::Rng::with_seed(state);
    let value = rng.usize(1..=max);
    (value, rng.get_seed())
}

/// The number that a `fastrand` generator in this state draws from all of `i64`,
/// and the state that it goes to.
pub uninterp spec fn i64_draw(state: u64) -> (i64, u64);

/// Draws any `i64` with `fastrand::Rng::i64`.
///
/// What is claimed: the draw and the next state depend on the state alone.
#[verifier::external_body]
pub(crate) fn draw_i64(state: u64) -> (draw: (i64, u64))
    ensures
        draw == i64_draw(state),
{
    let mut rng = fastrand::Rng::with_seed(state);
    let value = rng.i64(..);
    (value, rng.get_seed())
}

} // verus!
