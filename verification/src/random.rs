//! Random generators.

use rand::rngs::SmallRng;
use rand::{RngExt, SeedableRng};
use vstd::prelude::*;

verus! {

/// The generator type `rand::rngs::SmallRng`. Nothing is said of what is inside a generator.
#[verifier::external_type_specification]
#[verifier::external_body]
pub struct ExSmallRng(SmallRng);

/// `SmallRng::seed_from_u64`, the generator that a seed stands for.
///
/// `SmallRng` promises no fixed algorithm, neither across platforms nor across releases, so
/// nothing is claimed of the generator; [`seeded_gives`] says which seed it was made from.
#[verifier::external_body]
fn seeded(seed: u64) -> (rng: SmallRng) {
    SmallRng::seed_from_u64(seed)
}

/// `rng` is a generator that seeding with `seed` returned.
pub closed spec fn seeded_gives(seed: u64, rng: SmallRng) -> bool {
    call_ensures(seeded, (seed,), rng)
}

/// The generator that `seed` stands for.
pub fn rng_from_seed(seed: u64) -> (rng: SmallRng)
    ensures
        seeded_gives(seed, rng),
{
    seeded(seed)
}

/// `RngExt::random::<u64>`, on a copy of the generator: the number drawn, and the generator after
/// the draw.
///
/// Any 64-bit number may come back, so nothing is claimed of it; [`random_u64_gives`] says which
/// generator it was drawn from.
#[verifier::external_body]
fn draw_u64(rng: &SmallRng) -> (drawn: (u64, SmallRng)) {
    let mut next = rng.clone();
    let number = next.random();
    (number, next)
}

/// `RngExt::random_range(0..=max)`, on a copy of the generator: the number drawn, and the
/// generator after the draw.
///
/// The number lies in the range, whatever the generator; the range holds at least `0`, so the
/// call never panics. Nothing more is claimed of the number; [`random_up_to_gives`] says which
/// generator it was drawn from.
#[verifier::external_body]
fn draw_up_to(max: usize, rng: &SmallRng) -> (drawn: (usize, SmallRng))
    ensures
        drawn.0 <= max,
{
    let mut next = rng.clone();
    let number = next.random_range(0..=max);
    (number, next)
}

/// `drawn` is a 64-bit number that was drawn from the generator `before`, which left the
/// generator `after`.
pub closed spec fn random_u64_gives(before: SmallRng, drawn: u64, after: SmallRng) -> bool {
    call_ensures(draw_u64, (&before,), (drawn, after))
}

/// `drawn` is a number from `0` to `max` that was drawn from the generator `before`, which left
/// the generator `after`.
pub closed spec fn random_up_to_gives(
    max: usize,
    before: SmallRng,
    drawn: usize,
    after: SmallRng,
) -> bool {
    call_ensures(draw_up_to, (max, &before), (drawn, after))
}

/// A number drawn from a range lies in the range.
pub proof fn lemma_random_up_to_in_range(
    max: usize,
    before: SmallRng,
    drawn: usize,
    after: SmallRng,
)
    requires
        random_up_to_gives(max, before, drawn, after),
    ensures
        drawn <= max,
{
}

/// A random 64-bit number.
pub fn random_u64(rng: &mut SmallRng) -> (drawn: u64)
    ensures
        random_u64_gives(*old(rng), drawn, *final(rng)),
{
    let (drawn, next) = draw_u64(rng);
    *rng = next;
    drawn
}

/// A random number from `0` to `max`.
pub fn random_up_to(max: usize, rng: &mut SmallRng) -> (drawn: usize)
    ensures
        drawn <= max,
        random_up_to_gives(max, *old(rng), drawn, *final(rng)),
{
    let (drawn, next) = draw_up_to(max, rng);
    *rng = next;
    drawn
}

} // verus!
