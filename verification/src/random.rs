//! Deterministic pseudo-random generator.
//!
//! A multiplicative linear-congruential generator with multiplier 16807 and
//! modulus 2^31 - 1.  Each owner holds its own instance, so every sequence of
//! draws is a pure function of the initial seed and therefore reproducible.

use vstd::prelude::*;

verus! {

/// The next seed of the recurrence: `seed * 16807 mod (2^31 - 1)`, computed
/// the way the executable code computes it (high/low split, then one
/// conditional subtraction), so the contracts below mirror the code exactly.
pub open spec fn next_seed(s: u32) -> u32 {
    let p = (s as int) * 16807;
    let x = p / 0x8000_0000 + p % 0x8000_0000;
    if x > 0x7fff_ffff {
        (x - 0x7fff_ffff) as u32
    } else {
        x as u32
    }
}

/// The seed after `k` draws from initial seed `s`.
pub open spec fn seed_after(s: u32, k: nat) -> u32
    decreases k,
{
    if k == 0 {
        s
    } else {
        next_seed(seed_after(s, (k - 1) as nat))
    }
}

/// What `skewed(max_log)` returns when called with seed `s`: the exponent
/// comes from the first draw, the sample from the second.
pub open spec fn skewed_value(s: u32, max_log: u32) -> u32
    recommends
        max_log <= 31,
{
    let e = (next_seed(s) % ((max_log + 1) as u32)) as u32;
    next_seed(next_seed(s)) % (1u32 << e)
}

pub struct Random {
    seed: u32,
}

impl Random {
    pub fn new(seed: u32) -> (r: Random)
        ensures
            r.seed() == seed,
    {
        Random { seed }
    }

    /// The current state of the generator.
    pub closed spec fn seed(self) -> u32 {
        self.seed
    }

    /// Advances the seed by one step of the recurrence and returns it.
    pub fn next(&mut self) -> (r: u32)
        ensures
            final(self).seed() == next_seed(old(self).seed()),
            r == final(self).seed(),
    {
        let seed_now: u32 = self.seed;
        let product: u64 = (seed_now as u64) * 16807;
        proof {
            assert(product <= 0xffff_ffffu64 * 16807) by (nonlinear_arith)
                requires
                    product == (seed_now as int) * 16807,
                    seed_now <= 0xffff_ffffu32,
            ;
            assert(product / 0x8000_0000 <= 0xffff_ffffu64 * 16807 / 0x8000_0000);
        }
        let hi: u64 = product / 0x8000_0000;
        let lo: u64 = product % 0x8000_0000;
        let mut s: u32 = (hi + lo) as u32;
        if s > 0x7fff_ffff {
            s = s - 0x7fff_ffff;
        }
        self.seed = s;
        s
    }

    /// A value uniformly distributed in `[0, n)`.
    pub fn uniform(&mut self, n: u32) -> (r: u32)
        requires
            n > 0,
        ensures
            final(self).seed() == next_seed(old(self).seed()),
            r == next_seed(old(self).seed()) % n,
            r < n,
    {
        self.next() % n
    }

    /// True with probability `1/n`: whether a uniform draw in `[0, n)` hit 0.
    pub fn one_in(&mut self, n: u32) -> (r: bool)
        requires
            n > 0,
        ensures
            final(self).seed() == next_seed(old(self).seed()),
            r == (next_seed(old(self).seed()) % n == 0),
    {
        self.next() % n == 0
    }

    /// A value skewed toward small magnitudes: first picks an exponent `e`
    /// uniformly in `[0, max_log]`, then samples uniformly in `[0, 2^e)`.
    pub fn skewed(&mut self, max_log: u32) -> (r: u32)
        requires
            max_log <= 31,
        ensures
            final(self).seed() == seed_after(old(self).seed(), 2),
            r == skewed_value(old(self).seed(), max_log),
    {
        let e = self.uniform(max_log + 1);
        assert(1u32 << e > 0) by (bit_vector)
            requires
                e < 32u32,
        ;
        let r = self.uniform(1u32 << e);
        proof {
            reveal_with_fuel(seed_after, 3);
        }
        r
    }
}

/// Reproducibility: the state after any number of draws is a pure function of
/// the initial seed, so two generators started from equal seeds emit identical
/// sequences through `next`, `uniform`, `one_in` and `skewed` (whose results
/// the contracts above pin down as functions of the seed alone).
pub proof fn lemma_reproducible(s1: u32, s2: u32, k: nat)
    requires
        s1 == s2,
    ensures
        seed_after(s1, k) == seed_after(s2, k),
{
}

} // verus!
