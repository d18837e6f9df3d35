//! The state of the piece randomizer.

use vstd::prelude::*;

verus! {

/// The modulus of the generator: the prime 2^31 - 1.
pub const MODULUS: i64 = 2_147_483_647;

/// The multiplier of the generator.
pub const MULTIPLIER: i64 = 16_807;

/// The ways to deal pieces.
#[derive(Clone, Copy, Debug, PartialEq, Eq, Structural)]
pub enum Randomizer {
    Bag7,
    Bag14,
    Bag7P1,
    Bag7P2,
    Bag7PX,
    Classic,
    Pairs,
    TotalMayhem,
}

/// A multiplicative congruential generator and what the randomizers keep
/// between deals.
pub struct Rng {
    pub seed: i32,
    pub last_generated: Option<usize>,
    pub bagid: usize,
    pub extrabag: Vec<u8>,
}

/// The seed that follows `seed`: the product of the seed and the multiplier,
/// reduced by the modulus, with the sign of the seed.
pub open spec fn next_seed(seed: int) -> int {
    if seed >= 0 {
        (MULTIPLIER * seed) % (MODULUS as int)
    } else {
        -((MULTIPLIER * (-seed)) % (MODULUS as int))
    }
}

/// The seed that a generator starts with: seeds that are not positive are
/// raised by the modulus less one.
pub open spec fn first_seed(seed: int) -> int {
    if seed <= 0 {
        seed + 2_147_483_646
    } else {
        seed
    }
}

impl Rng {
    /// The seven pieces of a bag, in the order in which they are dealt from.
    pub fn bag() -> (b: [u8; 7])
        ensures
            b@ == seq![90u8, 76u8, 79u8, 83u8, 73u8, 74u8, 84u8],
    {
        let b: [u8; 7] = [90, 76, 79, 83, 73, 74, 84];
        assert(b@ =~= seq![90u8, 76u8, 79u8, 83u8, 73u8, 74u8, 84u8]);
        b
    }

    /// A generator that starts from `seed`.
    #[must_use]
    pub fn new(seed: i32) -> (r: Self)
        ensures
            r.seed == first_seed(seed as int),
            r.last_generated.is_none(),
            r.bagid == 0,
            r.extrabag@.len() == 0,
    {
        let seed = if seed <= 0 {
            seed + 2_147_483_646
        } else {
            seed
        };
        Self { seed, last_generated: None, bagid: 0, extrabag: Vec::new() }
    }

    /// Moves on to the next seed and returns it.
    #[must_use]
    pub fn next(&mut self) -> (s: i32)
        ensures
            s == next_seed(old(self).seed as int),
            final(self).seed == s,
            final(self).last_generated == old(self).last_generated,
            final(self).bagid == old(self).bagid,
            final(self).extrabag == old(self).extrabag,
    {
        let seed = self.seed as i64;
        let next = if seed >= 0 {
            (MULTIPLIER * seed) % MODULUS
        } else {
            -((MULTIPLIER * (-seed)) % MODULUS)
        };
        self.seed = next as i32;
        self.seed
    }
}

} // verus!
