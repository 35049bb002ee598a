//! The seeded random generator that shuffles the bag and lets the computer player vary.
use vstd::prelude::*;
use rand::Rng;
use rand::SeedableRng;
use rand::seq::SliceRandom;
use crate::tile::Tile;

verus! {

#[verifier::external_type_specification]
#[verifier::external_body]
pub struct ExStdRng(rand::rngs::StdRng);

/// `StdRng::seed_from_u64`: a generator seeded from `seed`. Nothing is claimed of its state.
#[verifier::external_body]
pub(crate) fn seeded_rng(seed: u64) -> (rng: rand::rngs::StdRng) {
    rand::rngs::StdRng::seed_from_u64(seed)
}

/// `Rng::gen_range` on `lo..hi`: a number in that range, which one depending on the
/// generator's state. The range must not be empty, else the call panics.
#[verifier::external_body]
pub(crate) fn gen_index(rng: &mut rand::rngs::StdRng, lo: usize, hi: usize) -> (r: usize)
    requires
        lo < hi,
    ensures
        lo <= r < hi,
{
    rng.gen_range(lo..hi)
}

/// `SliceRandom::shuffle`: the same tiles in an order that depends on the generator's state.
#[verifier::external_body]
pub(crate) fn shuffle_tiles(tiles: &mut Vec<Tile>, rng: &mut rand::rngs::StdRng)
    ensures
        final(tiles)@.to_multiset() == old(tiles)@.to_multiset(),
        final(tiles)@.len() == old(tiles)@.len(),
{
    tiles.shuffle(rng);
}

} // verus!
