//! The pseudo-random sequence that jitters the map's force layout: a linear
//! congruential generator, the same sequence on every run.

use vstd::prelude::*;

verus! {

/// The multiplier of the sequence.
pub const LCG_A: u64 = 1_664_525;

/// The increment of the sequence.
pub const LCG_C: u64 = 1_013_904_223;

/// The modulus of the sequence (2^32).
pub const LCG_M: u64 = 4_294_967_296;

/// The state after `state`: `(A * state + C) mod M`.
pub open spec fn lcg_next(state: u64) -> u64 {
    ((LCG_A * state + LCG_C) % (LCG_M as int)) as u64
}

/// A linear congruential generator; its state is always below `LCG_M`.
#[derive(Debug)]
pub struct Lcg {
    state: u64,
}

impl Lcg {
    /// The generator's state.
    pub closed spec fn spec_state(&self) -> u64 {
        self.state
    }

    #[verifier::type_invariant]
    closed spec fn state_in_range(&self) -> bool {
        self.state < LCG_M
    }

    /// The generator at its fixed seed, 1.
    pub fn new() -> (r: Lcg)
        ensures
            r.spec_state() == 1,
    {
        Lcg { state: 1 }
    }

    /// The current state.
    pub fn state(&self) -> (r: u64)
        ensures
            r == self.spec_state(),
            r < LCG_M,
    {
        proof {
            use_type_invariant(self);
        }
        self.state
    }

    /// Moves to the next state and returns it; it is below `LCG_M`.
    pub fn advance(&mut self) -> (r: u64)
        ensures
            r == lcg_next(old(self).spec_state()),
            final(self).spec_state() == r,
            r < LCG_M,
    {
        proof {
            use_type_invariant(&*self);
        }
        let next = (LCG_A * self.state + LCG_C) % LCG_M;
        self.state = next;
        next
    }
}

} // verus!
