//! The seeded random number generator of `rand` and the few draws the
//! engine makes from it.
use rand::rngs::StdRng;
use rand::seq::SliceRandom;
use rand::Rng;
use rand::SeedableRng;
use vstd::prelude::*;

use crate::cards::Card;
use crate::state::Move;

verus! {

/// `rand::rngs::StdRng`, the seeded generator behind every random choice.
#[verifier::external_type_specification]
#[verifier::external_body]
pub struct ExStdRng(StdRng);

/// Calls `StdRng::seed_from_u64`: a generator whose stream is fixed by
/// `seed`. Nothing is stated of that stream.
#[verifier::external_body]
pub(crate) fn seeded_rng(seed: u64) -> StdRng {
    StdRng::seed_from_u64(seed)
}

/// Calls `StdRng::clone` (derived): a generator in the same state as `rng`.
#[verifier::external_body]
pub(crate) fn copy_rng(rng: &StdRng) -> (copy: StdRng)
    ensures
        copy == *rng,
{
    rng.clone()
}

/// The order `SliceRandom::shuffle` puts `cards` in when it runs with a
/// `StdRng` fresh from `StdRng::seed_from_u64(seed)`: a function of the seed
/// and the cards alone.
pub uninterp spec fn seeded_shuffle(seed: u64, cards: Seq<Card>) -> Seq<Card>;

/// Calls `StdRng::seed_from_u64(seed)` and shuffles `cards` with the new
/// generator by `SliceRandom::shuffle`, then hands the generator back. The
/// cards come out in the order named `seeded_shuffle(seed, ..)`, each one
/// exactly as often as it went in (the shuffle swaps elements).
#[verifier::external_body]
pub(crate) fn shuffle_seeded(cards: &mut Vec<Card>, seed: u64) -> (rng: StdRng)
    ensures
        final(cards)@ == seeded_shuffle(seed, old(cards)@),
        final(cards)@.len() == old(cards)@.len(),
        final(cards)@.to_multiset() == old(cards)@.to_multiset(),
{
    let mut rng = StdRng::seed_from_u64(seed);
    cards.shuffle(&mut rng);
    rng
}

/// Calls `SliceRandom::shuffle` on `cards`: the cards come out in some order,
/// each one exactly as often as it went in (the shuffle swaps elements).
/// Shuffling two cards or more draws from the generator (one `gen_range` per
/// position from the last down to the second), and every draw moves the
/// generator's state on (the block index, or the counter on a refill), so
/// the generator handed back differs from the one handed in. Which order
/// comes out is left unsaid.
#[verifier::external_body]
pub(crate) fn shuffle_cards(cards: &mut Vec<Card>, rng: &mut StdRng)
    ensures
        final(cards)@.len() == old(cards)@.len(),
        final(cards)@.to_multiset() == old(cards)@.to_multiset(),
        old(cards)@.len() >= 2 ==> *final(rng) != *old(rng),
{
    cards.shuffle(rng);
}

/// Calls `Rng::gen_range(0..bound)` for `i32`: a number in `0..bound`.
/// `gen_range` panics on an empty range, hence `bound > 0`.
#[verifier::external_body]
pub(crate) fn random_below_i32(rng: &mut StdRng, bound: i32) -> (r: i32)
    requires
        bound > 0,
    ensures
        0 <= r < bound,
{
    rng.gen_range(0..bound)
}

/// Calls `Rng::gen_range(0..bound)` for `usize`: a number in `0..bound`.
/// `gen_range` panics on an empty range, hence `bound > 0`.
#[verifier::external_body]
pub(crate) fn random_below_usize(rng: &mut StdRng, bound: usize) -> (r: usize)
    requires
        bound > 0,
    ensures
        r < bound,
{
    rng.gen_range(0..bound)
}

/// Calls `Rng::gen::<u64>()`: any `u64`.
#[verifier::external_body]
pub(crate) fn random_u64(rng: &mut StdRng) -> u64 {
    rng.gen()
}

/// Calls `SliceRandom::choose` on `moves`: nothing from an empty slice,
/// else a reference to one of its moves.
#[verifier::external_body]
pub(crate) fn choose_one<'a>(moves: &'a Vec<Move>, rng: &mut StdRng) -> (r: Option<&'a Move>)
    ensures
        r is None <==> moves@.len() == 0,
        r matches Some(m) ==> moves@.contains(*m),
{
    moves.choose(rng)
}

} // verus!
