//! The game's source of chance: every random draw goes through here.

use vstd::prelude::*;
use rand::RngExt;
use rand::seq::SliceRandom;
use rand::SeedableRng;
use rand::rngs::StdRng;

verus! {

/// Calls `rand::RngExt::random_range` on the thread-local generator
/// (`rand::rng()`) with the range `0..bound`, which rand documents to yield a
/// value in the range (and to panic on an empty one, hence `bound > 0`).
#[verifier::external_body]
pub(crate) fn roll_below(bound: u64) -> (r: u64)
    requires
        bound > 0,
    ensures
        r < bound,
{
    rand::rng().random_range(0..bound)
}

/// Calls `rand::RngExt::random::<bool>` on the thread-local generator.
/// Either value can come back.
#[verifier::external_body]
pub(crate) fn coin_flip() -> (r: bool) {
    rand::rng().random::<bool>()
}

/// Calls `rand::seq::SliceRandom::shuffle` with the thread-local generator:
/// the elements end up in some order, each exactly as often as before.
#[verifier::external_body]
pub(crate) fn shuffle<T>(v: &mut Vec<T>)
    ensures
        final(v)@.to_multiset() == old(v)@.to_multiset(),
        final(v)@.len() == old(v)@.len(),
{
    v.shuffle(&mut rand::rng());
}

/// The standard seedable generator, whose draws the caller can fix by
/// seeding it.
#[verifier::external_type_specification]
#[verifier::external_body]
pub struct ExStdRng(StdRng);

/// Calls `rand::SeedableRng::from_rng` on the thread-local generator: a
/// standard generator with a seed drawn at random. Nothing is stated of it.
#[verifier::external_body]
pub(crate) fn fresh_rng() -> (r: StdRng) {
    StdRng::from_rng(&mut rand::rng())
}

/// Calls `rand::RngExt::random_range` on `rng` with the range `0..bound`,
/// which rand documents to yield a value in the range (and to panic on an
/// empty one, hence `bound > 0`).
#[verifier::external_body]
pub(crate) fn roll_below_in(rng: &mut StdRng, bound: u64) -> (r: u64)
    requires
        bound > 0,
    ensures
        r < bound,
{
    rng.random_range(0..bound)
}

/// Calls `rand::RngExt::random::<bool>` on `rng`. Either value can come
/// back.
#[verifier::external_body]
pub(crate) fn coin_flip_in(rng: &mut StdRng) -> (r: bool) {
    rng.random::<bool>()
}

/// Calls `rand::seq::SliceRandom::shuffle` with `rng`: the elements end up
/// in some order, each exactly as often as before.
#[verifier::external_body]
pub(crate) fn shuffle_in<T>(rng: &mut StdRng, v: &mut Vec<T>)
    ensures
        final(v)@.to_multiset() == old(v)@.to_multiset(),
        final(v)@.len() == old(v)@.len(),
{
    v.shuffle(rng);
}

} // verus!
