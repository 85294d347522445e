//! An explicit, seedable source of randomness for the generation pipeline.
//!
//! Every sampling point of the generator draws from a `RandomSource` passed
//! in by the caller, so a fixed seed reproduces a whole layout.  The
//! contracts state only what holds of every possible draw (ranges and
//! impossibilities), never which value comes out.

use vstd::prelude::*;
use rand::Rng;
use rand::SeedableRng;
use rand::seq::SliceRandom;
use rand::distributions::Distribution;

verus! {

#[verifier::external_type_specification]
#[verifier::external_body]
pub struct ExStdRng(rand::rngs::StdRng);

/// A pseudo-random number generator with the operations the dungeon
/// generator samples from.
pub struct RandomSource {
    rng: rand::rngs::StdRng,
}

impl RandomSource {
    /// Relies on `rand::SeedableRng::seed_from_u64` for `StdRng`: builds a
    /// deterministic generator from a seed.
    #[verifier::external_body]
    pub fn from_seed(seed: u64) -> (r: RandomSource) {
        RandomSource { rng: rand::rngs::StdRng::seed_from_u64(seed) }
    }

    /// Relies on `rand::SeedableRng::from_entropy` for `StdRng`: builds a
    /// generator seeded by the operating system.
    #[verifier::external_body]
    pub fn from_entropy() -> (r: RandomSource) {
        RandomSource { rng: rand::rngs::StdRng::from_entropy() }
    }

    /// Relies on `rand::Rng::gen_range` over the non-empty inclusive range
    /// `lo..=hi`: the sample lies within the range.
    #[verifier::external_body]
    pub fn range_i32(&mut self, lo: i32, hi: i32) -> (r: i32)
        requires
            lo <= hi,
        ensures
            lo <= r <= hi,
    {
        self.rng.gen_range(lo..=hi)
    }

    /// Relies on `rand::Rng::gen_range` over the non-empty inclusive range
    /// `lo..=hi`: the sample lies within the range.
    #[verifier::external_body]
    pub fn range_u32(&mut self, lo: u32, hi: u32) -> (r: u32)
        requires
            lo <= hi,
        ensures
            lo <= r <= hi,
    {
        self.rng.gen_range(lo..=hi)
    }

    /// Relies on `rand::Rng::gen_range` over the non-empty range `0..n`:
    /// the sampled index is below `n`.
    #[verifier::external_body]
    pub fn index(&mut self, n: usize) -> (r: usize)
        requires
            n > 0,
        ensures
            r < n,
    {
        self.rng.gen_range(0..n)
    }

    /// Relies on `rand::seq::SliceRandom::choose` on the slice `[-1, 1]`:
    /// the result is an element of the slice.
    #[verifier::external_body]
    pub fn sign(&mut self) -> (r: i32)
        ensures
            r == -1i32 || r == 1i32,
    {
        *[-1i32, 1].choose(&mut self.rng).unwrap()
    }

    /// Relies on `rand::distributions::WeightedIndex::new` over the two
    /// weights `[wx, wy]` and on `Distribution::sample`: the sampled index is
    /// 0 or 1, each drawn with probability proportional to its weight, so a
    /// side whose weight is zero is never chosen.  `new` fails only when the
    /// total weight is zero or its sum overflows, which the preconditions
    /// rule out.
    #[verifier::external_body]
    pub fn weighted_pair(&mut self, wx: u32, wy: u32) -> (r: usize)
        requires
            wx + wy > 0,
            wx + wy <= u32::MAX,
        ensures
            r <= 1,
            wx == 0 ==> r == 1,
            wy == 0 ==> r == 0,
    {
        let dist = rand::distributions::WeightedIndex::new([wx, wy]).unwrap();
        dist.sample(&mut self.rng)
    }
}

} // verus!
