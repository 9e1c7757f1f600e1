//! SplitMix64: a tiny, seeded, deterministic PRNG (Vigna's reference
//! algorithm), so that a fault schedule is fully reproducible from its seed.
//! Not cryptographic; not for keys — for choosing which broker dies next.

use vstd::prelude::*;

verus! {

/// What the state advances by.
pub const GOLDEN: u64 = 0x9E37_79B9_7F4A_7C15;

/// The output that belongs to a state.
pub open spec fn mix(state: u64) -> u64 {
    let a = (state ^ (state >> 30)).wrapping_mul(0xBF58_476D_1CE4_E5B9);
    let b = (a ^ (a >> 27)).wrapping_mul(0x94D0_49BB_1331_11EB);
    b ^ (b >> 31)
}

/// The state after `n` outputs.
pub open spec fn state_after(seed: u64, n: nat) -> u64
    decreases n,
{
    if n == 0 {
        seed
    } else {
        state_after(seed, (n - 1) as nat).wrapping_add(GOLDEN)
    }
}

/// The sequence depends on the seed alone, and its state is the seed advanced
/// by a fixed step for each output, modulo 2^64.
pub proof fn law_stream(seed: u64, n: nat)
    ensures
        state_after(seed, n) == (seed + n * GOLDEN) % 0x1_0000_0000_0000_0000int,
    decreases n,
{
    if n > 0 {
        let m = (n - 1) as nat;
        law_stream(seed, m);
        let a = seed + m * GOLDEN;
        assert(seed + n * GOLDEN == a + GOLDEN) by (nonlinear_arith)
            requires
                a == seed + m * GOLDEN,
                n == m + 1,
        ;
        let width: int = 0x1_0000_0000_0000_0000;
        let g = GOLDEN as int;
        let s = state_after(seed, m);
        assert(s.wrapping_add(GOLDEN) == (s + g) % width);
        vstd::arithmetic::div_mod::lemma_add_mod_noop(a, g, width);
        assert(s == a % width);
        assert(g % width == g);
    }
}

pub struct SplitMix64 {
    state: u64,
}

impl View for SplitMix64 {
    type V = u64;

    closed spec fn view(&self) -> u64 {
        self.state
    }
}

impl SplitMix64 {
    pub fn new(seed: u64) -> (r: Self)
        ensures
            r@ == seed,
    {
        SplitMix64 { state: seed }
    }

    pub fn next_u64(&mut self) -> (r: u64)
        ensures
            final(self)@ == old(self)@.wrapping_add(GOLDEN),
            r == mix(final(self)@),
    {
        self.state = self.state.wrapping_add(GOLDEN);
        let z: u64 = self.state;
        let a: u64 = (z ^ (z >> 30u64)).wrapping_mul(0xBF58_476D_1CE4_E5B9);
        let b: u64 = (a ^ (a >> 27u64)).wrapping_mul(0x94D0_49BB_1331_11EB);
        b ^ (b >> 31u64)
    }

    /// Uniform-ish in [lo, hi). Modulo bias is < 2^-40 for the ranges the
    /// harness uses (spans well under 2^24); irrelevant for fault picking.
    pub fn range(&mut self, lo: u64, hi: u64) -> (r: u64)
        requires
            lo < hi,
        ensures
            final(self)@ == old(self)@.wrapping_add(GOLDEN),
            lo <= r < hi,
            r == lo + mix(final(self)@) % (hi - lo) as u64,
    {
        let z: u64 = self.next_u64();
        lo + z % (hi - lo)
    }

    /// One of the items.
    pub fn pick<'a, T>(&mut self, xs: &'a [T]) -> (r: &'a T)
        requires
            xs@.len() > 0,
        ensures
            final(self)@ == old(self)@.wrapping_add(GOLDEN),
            *r == xs@[(mix(final(self)@) % xs@.len() as u64) as int],
    {
        let k: u64 = self.range(0, xs.len() as u64);
        &xs[k as usize]
    }
}

} // verus!
