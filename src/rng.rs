//! A seeded, reproducible source of random draws, threaded explicitly
//! through world generation and explosion decay.
use vstd::prelude::*;
use vstd::wrapping::u64_specs;

verus! {

/// Multiplier of the linear congruential step.
pub const LCG_MUL: u64 = 6364136223846793005;

/// Increment of the linear congruential step.
pub const LCG_INC: u64 = 1442695040888963407;

/// The state after one step from `s`.
pub open spec fn lcg(s: u64) -> u64 {
    u64_specs::wrapping_add(u64_specs::wrapping_mul(s, LCG_MUL), LCG_INC)
}

/// The state after `n` steps from `s`.
pub open spec fn advance(s: u64, n: nat) -> u64
    decreases n,
{
    if n == 0 {
        s
    } else {
        lcg(advance(s, (n - 1) as nat))
    }
}

/// A draw below `bound` taken from state `s`: its high bits, reduced.
pub open spec fn pick(s: u64, bound: u64) -> u64
    recommends
        bound > 0,
{
    (s >> 33u64) % bound
}

/// The `k`-th percent draw (0 to 99) from a source seeded with `s`.
pub open spec fn roll_at(s: u64, k: nat) -> u64 {
    pick(advance(s, k + 1), 100)
}

/// A seeded pseudo-random source.
pub struct Rng {
    state: u64,
}

impl Rng {
    /// The current state.
    pub closed spec fn state(&self) -> u64 {
        self.state
    }

    /// A source whose first state is `seed`.
    pub fn new(seed: u64) -> (r: Rng)
        ensures
            r.state() == seed,
    {
        Rng { state: seed }
    }

    /// Steps the state once and returns a draw below `bound`.
    pub fn below(&mut self, bound: u64) -> (r: u64)
        requires
            bound > 0,
        ensures
            final(self).state() == lcg(old(self).state()),
            r == pick(final(self).state(), bound),
            r < bound,
    {
        self.state = self.state.wrapping_mul(LCG_MUL).wrapping_add(LCG_INC);
        (self.state >> 33u32) % bound
    }

    /// Steps the state once and returns a draw from 0 to 99.
    pub fn percent(&mut self) -> (r: u64)
        ensures
            final(self).state() == lcg(old(self).state()),
            r == pick(final(self).state(), 100),
            r < 100,
    {
        self.below(100)
    }
}

} // verus!
