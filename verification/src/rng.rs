//! The deterministic pseudo-random generator that seeds the swarm
//! simulation: a 32-bit linear congruential generator.

use vstd::prelude::*;

verus! {

/// The multiplier of the generator.
pub const LCG_MUL: u32 = 1103515245;

/// The increment of the generator.
pub const LCG_INC: u32 = 12345;

/// One step of the generator: `state * LCG_MUL + LCG_INC`, modulo 2^32.
pub open spec fn lcg_step(state: u32) -> u32 {
    ((state as int * LCG_MUL as int + LCG_INC as int) % 0x1_0000_0000) as u32
}

/// A linear congruential generator over 32-bit states.
pub struct SimpleRng {
    pub state: u32,
}

impl SimpleRng {
    /// A generator whose state is the seed.
    pub fn new(seed: u32) -> (r: Self)
        ensures
            r.state == seed,
    {
        SimpleRng { state: seed }
    }

    /// Advance the generator one step and return the new state.
    pub fn next_u32(&mut self) -> (r: u32)
        ensures
            r == lcg_step(old(self).state),
            final(self).state == r,
    {
        let s = self.state;
        let m = s.wrapping_mul(LCG_MUL);
        let r = m.wrapping_add(LCG_INC);
        proof {
            let x = s as int * LCG_MUL as int;
            assert(m as int == x % 0x1_0000_0000);
            assert(0 <= x);
            assert((x % 0x1_0000_0000 + LCG_INC as int) % 0x1_0000_0000 == (x + LCG_INC as int)
                % 0x1_0000_0000) by {
                vstd::arithmetic::div_mod::lemma_add_mod_noop(x, LCG_INC as int, 0x1_0000_0000);
                vstd::arithmetic::div_mod::lemma_small_mod(LCG_INC as nat, 0x1_0000_0000);
            }
        }
        self.state = r;
        r
    }
}

/// The generator is the 32-bit linear congruential generator with
/// multiplier 1103515245 and increment 12345: each state is the previous
/// one times the multiplier plus the increment, modulo 2^32.
pub proof fn lemma_lcg_constants(state: u32)
    ensures
        lcg_step(state) as int == (state as int * 1103515245 + 12345) % 4294967296,
{
}

} // verus!
