//! A deterministic linear congruential generator.
use vstd::arithmetic::div_mod::*;
use vstd::prelude::*;

verus! {

/// The multiplier of the generator.
pub const LCG_MULTIPLIER: u64 = 6_364_136_223_846_793_005;

/// The increment of the generator.
pub const LCG_INCREMENT: u64 = 1_442_695_040_888_963_407;

/// The state that follows `state`: `state * LCG_MULTIPLIER + LCG_INCREMENT mod 2^64`.
#[verifier::opaque]
pub open spec fn lcg_next(state: u64) -> u64 {
    ((state * LCG_MULTIPLIER + LCG_INCREMENT) % 0x1_0000_0000_0000_0000) as u64
}

/// The state after `k` steps from `state`.
pub open spec fn lcg_advance(state: u64, k: nat) -> u64
    decreases k,
{
    if k == 0 {
        state
    } else {
        lcg_advance(lcg_next(state), (k - 1) as nat)
    }
}

/// Advancing `a` steps and then `b` steps is advancing `a + b` steps.
pub proof fn lemma_lcg_advance_add(state: u64, a: nat, b: nat)
    ensures
        lcg_advance(lcg_advance(state, a), b) == lcg_advance(state, a + b),
    decreases a,
{
    if a > 0 {
        lemma_lcg_advance_add(lcg_next(state), (a - 1) as nat, b);
    }
}

/// What `gen_range(upper)` returns from a generator in `state`.
pub open spec fn lcg_range(state: u64, upper: usize) -> usize {
    ((lcg_next(state) as usize) % upper) as usize
}

/// A deterministic pseudo-random generator used to keep examples reproducible
/// without adding a dependency.
#[derive(Clone, Debug)]
pub struct Lcg {
    state: u64,
}

impl View for Lcg {
    type V = u64;

    closed spec fn view(&self) -> u64 {
        self.state
    }
}

impl Lcg {
    /// Construct a generator from a seed.
    pub fn new(seed: u64) -> (r: Self)
        ensures
            r@ == seed,
    {
        Self { state: seed }
    }

    /// Return the next `u64`.
    pub fn next_u64(&mut self) -> (r: u64)
        ensures
            r == lcg_next(old(self)@),
            final(self)@ == r,
    {
        let m = self.state.wrapping_mul(LCG_MULTIPLIER);
        let next = m.wrapping_add(LCG_INCREMENT);
        proof {
            reveal(lcg_next);
            let s = self.state as int;
            let range: int = 0x1_0000_0000_0000_0000;
            lemma_add_mod_noop(s * LCG_MULTIPLIER, LCG_INCREMENT as int, range);
            lemma_small_mod(LCG_INCREMENT as nat, range as nat);
            lemma_mod_bound(s * LCG_MULTIPLIER, range);
            if m + LCG_INCREMENT >= range {
                lemma_mod_sub_multiples_vanish(m + LCG_INCREMENT, range);
                lemma_small_mod((m + LCG_INCREMENT - range) as nat, range as nat);
            } else {
                lemma_small_mod((m + LCG_INCREMENT) as nat, range as nat);
            }
        }
        self.state = next;
        self.state
    }

    /// Return a value in `0..upper`.
    pub fn gen_range(&mut self, upper: usize) -> (r: usize)
        requires
            upper > 0,
        ensures
            r == lcg_range(old(self)@, upper),
            r < upper,
            final(self)@ == lcg_next(old(self)@),
    {
        (self.next_u64() as usize) % upper
    }
}

} // verus!
