//! A xorshift pseudo-random generator with a fixed, reproducible stream.
use vstd::prelude::*;

verus! {

/// One xorshift step (shifts 13, 7, 17) on a 64-bit state.
pub open spec fn xorshift(x: u64) -> u64 {
    let a = x ^ (x << 13u64);
    let b = a ^ (a >> 7u64);
    b ^ (b << 17u64)
}

/// The state reached from `seed` after `k` steps.
pub open spec fn xorshift_iter(seed: u64, k: nat) -> u64
    decreases k,
{
    if k == 0 {
        seed
    } else {
        xorshift(xorshift_iter(seed, (k - 1) as nat))
    }
}

/// A deterministic generator: its whole future is a function of its state.
pub struct Rng {
    pub state: u64,
}

impl Rng {
    /// A generator whose state is `seed`.
    pub fn new(seed: u64) -> (r: Rng)
        ensures
            r.state == seed,
    {
        Rng { state: seed }
    }

    /// Advances the state by one xorshift step and returns the new state.
    pub fn next_u64(&mut self) -> (r: u64)
        ensures
            r == xorshift(old(self).state),
            final(self).state == r,
    {
        let mut x = self.state;
        x = x ^ (x << 13u64);
        x = x ^ (x >> 7u64);
        x = x ^ (x << 17u64);
        self.state = x;
        x
    }
}

/// A generator seeded with `seed` hands out a fixed stream: once it holds
/// `xorshift_iter(seed, k)`, its next draw is `xorshift_iter(seed, k + 1)`,
/// whatever generator it is and whenever the draw happens.
pub proof fn lemma_stream_is_reproducible(g: Rng, seed: u64, k: nat)
    requires
        g.state == xorshift_iter(seed, k),
    ensures
        xorshift(g.state) == xorshift_iter(seed, k + 1),
{
}

} // verus!
