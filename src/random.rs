//! The random generator of the game, from the `rand` crate. Nothing is assumed
//! of the numbers it gives; a shuffle is assumed to keep the cards it moves.
use crate::enemy::Enemy;
use crate::fixed::{pile_cards, CardVec};
use rand::rngs::StdRng;
use rand::seq::SliceRandom;
use rand::{Rng, RngCore, SeedableRng};
use vstd::prelude::*;

verus! {

#[verifier::external_type_specification]
#[verifier::external_body]
pub struct ExStdRng(StdRng);

/// Relies on SeedableRng::seed_from_u64: a generator fixed by the seed.
#[verifier::external_body]
pub(crate) fn seeded_rng(seed: u64) -> StdRng {
    StdRng::seed_from_u64(seed)
}

/// Relies on SeedableRng::from_entropy: a generator seeded by the system.
#[verifier::external_body]
pub(crate) fn entropy_rng() -> StdRng {
    StdRng::from_entropy()
}

/// Relies on RngCore::next_u64: any number.
#[verifier::external_body]
pub(crate) fn next_u64(rng: &mut StdRng) -> u64 {
    rng.next_u64()
}

/// Relies on Rng::gen_range over `0..n`, which panics only on an empty range.
#[verifier::external_body]
pub(crate) fn random_index(rng: &mut StdRng, n: usize) -> (r: usize)
    requires
        n > 0,
    ensures
        r < n,
{
    rng.gen_range(0..n)
}

/// Relies on SliceRandom::shuffle: the same cards, in some order.
#[verifier::external_body]
pub(crate) fn shuffle_pile(p: &mut CardVec, rng: &mut StdRng)
    ensures
        pile_cards(*final(p)).to_multiset() == pile_cards(*old(p)).to_multiset(),
        pile_cards(*final(p)).len() == pile_cards(*old(p)).len(),
{
    p.shuffle(rng)
}

/// Relies on SliceRandom::shuffle: the same enemies, in some order.
#[verifier::external_body]
pub(crate) fn shuffle_enemies(v: &mut Vec<Enemy>, rng: &mut StdRng)
    ensures
        final(v)@.to_multiset() == old(v)@.to_multiset(),
        final(v)@.len() == old(v)@.len(),
{
    v.shuffle(rng)
}

} // verus!
