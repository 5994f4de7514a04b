//! The maze generator's random source.
//!
//! Generation takes an explicitly passed pseudo-random generator rather
//! than reaching for process-wide random state: the caller seeds it once
//! per generation call, and supplying the same seed twice reproduces the
//! same draws exactly, which makes generation testable. The draw is a
//! linear congruential step whose whole behaviour is pinned by its
//! contract; statistical quality beyond "varied enough for maze carving and
//! pixel erosion" is not a goal.

use vstd::prelude::*;

verus! {

/// Multiplier of the linear congruential step.
pub const LCG_MUL: u64 = 6364136223846793005;

/// Increment of the linear congruential step.
pub const LCG_ADD: u64 = 1442695040888963407;

/// The generator state that follows `s`: `s * LCG_MUL + LCG_ADD`, truncated
/// to 64 bits.
pub open spec fn spec_lcg_next(s: u64) -> u64 {
    (((s as int) * (LCG_MUL as int) + LCG_ADD as int) % 0x1_0000_0000_0000_0000) as u64
}

/// The value a draw bounded by `n` returns from state `s`: the upper bits
/// of the successor state, reduced modulo `n`.
pub open spec fn spec_lcg_draw(s: u64, n: int) -> int {
    ((spec_lcg_next(s) as int) / 0x2_0000_0000) % n
}

/// A deterministic pseudo-random generator with 64 bits of state.
pub struct Prng {
    state: u64,
}

impl Prng {
    /// The current state.
    pub closed spec fn view(&self) -> u64 {
        self.state
    }

    /// A generator starting from the given seed.
    pub fn from_seed(seed: u64) -> (r: Prng)
        ensures
            r@ == seed,
    {
        Prng { state: seed }
    }

    /// Draws a value below `n`, advancing the state; both the new state and
    /// the value drawn are exact functions of the old state.
    pub fn next_below(&mut self, n: u64) -> (r: u64)
        requires
            n > 0,
        ensures
            final(self)@ == spec_lcg_next(old(self)@),
            r == spec_lcg_draw(old(self)@, n as int),
            r < n,
    {
        proof {
            assert((self.state as int) * (LCG_MUL as int)
                <= 0xffff_ffff_ffff_ffff * 0xffff_ffff_ffff_ffff) by (nonlinear_arith)
                requires 0 <= self.state as int <= 0xffff_ffff_ffff_ffff;
            assert(0 <= (self.state as int) * (LCG_MUL as int)) by (nonlinear_arith)
                requires 0 <= self.state as int;
        }
        let wide: u128 = (self.state as u128) * (LCG_MUL as u128) + (LCG_ADD as u128);
        self.state = (wide % 0x1_0000_0000_0000_0000u128) as u64;
        (self.state / 0x2_0000_0000) % n
    }
}

} // verus!
