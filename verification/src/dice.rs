//! Random numbers.

use rand::rngs::StdRng;
use rand::{Rng, SeedableRng};
use vstd::prelude::*;

verus! {

/// The standard generator of `rand`, of which nothing is known.
#[verifier::external_type_specification]
#[verifier::external_body]
pub struct ExStdRng(rand::rngs::StdRng);

/// The generator that a seed stands for.
pub uninterp spec fn seeded(seed: u64) -> StdRng;

/// A generator with the given seed, by `rand::SeedableRng::seed_from_u64`. The same seed
/// gives the same generator.
#[verifier::external_body]
fn seed_rng(seed: u64) -> (rng: StdRng)
    ensures
        rng == seeded(seed),
{
    StdRng::seed_from_u64(seed)
}

/// What a generator draws below `n` on a machine with words of the given width, and the
/// generator afterwards.
pub uninterp spec fn rolled(rng: StdRng, n: usize, width: u32) -> (usize, StdRng);

/// A random number below `n`, by `rand::Rng::gen_range`. Which one, and the state of the
/// generator afterwards, follow from the generator, from `n` and from the width of a machine
/// word. How the numbers are spread is left unsaid.
#[verifier::external_body]
fn draw_below(rng: &mut StdRng, n: usize) -> (k: usize)
    requires
        0 < n,
    ensures
        k < n,
        (k, *final(rng)) == rolled(*old(rng), n, usize::BITS),
{
    rng.gen_range(0..n)
}

/// A source of random numbers.
pub struct Dice {
    pub rng: StdRng,
}

impl Dice {
    /// Dice with the given seed.
    pub fn new(seed: u64) -> (dice: Self)
        ensures
            dice.rng == seeded(seed),
    {
        Dice { rng: seed_rng(seed) }
    }

    /// A random number below `n`.
    pub fn below(&mut self, n: usize) -> (k: usize)
        requires
            0 < n,
        ensures
            k < n,
            (k, final(self).rng) == rolled(old(self).rng, n, usize::BITS),
    {
        draw_below(&mut self.rng, n)
    }
}

} // verus!
