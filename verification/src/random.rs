use vstd::prelude::*;

verus! {

/// The modulus of the linear congruential generator: every drawn raw value
/// lies in [0, 10000).
pub const LCG_MODULUS: u64 = 10000;

/// The multiplier of the linear congruential generator.
pub const LCG_MULTIPLIER: u64 = 378;

/// The increment of the linear congruential generator.
pub const LCG_INCREMENT: u64 = 2310;

/// The seed that follows `seed` in the generator's sequence; also the raw
/// value that a draw at `seed` produces.
pub open spec fn next_seed_of(seed: u64) -> u64 {
    (((seed as int) * (LCG_MULTIPLIER as int) + (LCG_INCREMENT as int)) % (
    LCG_MODULUS as int)) as u64
}

/// The value in [from, to] that a draw at `seed` scales the raw value to.
pub open spec fn draw_of(seed: u64, from: u64, to: u64) -> u64 {
    ((from as int) + ((to as int - from as int) * (next_seed_of(seed) as int)) / (
    LCG_MODULUS as int)) as u64
}

/// The seed after `n` draws starting from `seed`.
pub open spec fn seed_after(seed: u64, n: nat) -> u64
    decreases n,
{
    if n == 0 {
        seed
    } else {
        next_seed_of(seed_after(seed, (n - 1) as nat))
    }
}

/// The `n`-th value (counting from 0) of the sequence of draws in [from, to]
/// that starts at `seed`.
pub open spec fn nth_draw(seed: u64, from: u64, to: u64, n: nat) -> u64 {
    draw_of(seed_after(seed, n), from, to)
}

/// A seeded, deterministic linear congruential generator; raw values lie
/// between 0 and 9999.
#[derive(Debug)]
pub struct Random {
    pub modulus: u64,
    pub multiplier: u64,
    pub increment: u64,
    pub seed: u64,
}

impl Random {
    /// The constants are the fixed ones of this generator; only the seed varies.
    pub open spec fn wf(&self) -> bool {
        &&& self.modulus == LCG_MODULUS
        &&& self.multiplier == LCG_MULTIPLIER
        &&& self.increment == LCG_INCREMENT
    }

    pub fn new(seed: u64) -> (r: Random)
        ensures
            r.wf(),
            r.seed == seed,
    {
        Random { seed, modulus: LCG_MODULUS, multiplier: LCG_MULTIPLIER, increment: LCG_INCREMENT }
    }

    /// The raw value the next draw will produce, without advancing the sequence.
    pub fn peek(&self) -> (r: u64)
        requires
            self.wf(),
        ensures
            r == next_seed_of(self.seed),
            r < LCG_MODULUS,
    {
        proof {
            assert((self.seed as int) * (self.multiplier as int) + (self.increment as int)
                < u128::MAX) by (nonlinear_arith)
                requires
                    self.seed <= u64::MAX,
                    self.multiplier == LCG_MULTIPLIER,
                    self.increment == LCG_INCREMENT,
            ;
        }
        ((((self.seed as u128) * (self.multiplier as u128)) + (self.increment as u128)) % (
        self.modulus as u128)) as u64
    }

    /// Advance the sequence by one step and return the raw value drawn.
    pub fn next(&mut self) -> (r: u64)
        requires
            old(self).wf(),
        ensures
            final(self).wf(),
            final(self).seed == next_seed_of(old(self).seed),
            r == next_seed_of(old(self).seed),
    {
        let next = self.peek();
        self.seed = next;
        next
    }

    /// The value in [from, to] the next draw will produce, without advancing
    /// the sequence.
    pub fn peek_between(&self, from: u64, to: u64) -> (r: u64)
        requires
            self.wf(),
            from <= to,
        ensures
            r == draw_of(self.seed, from, to),
            from <= r <= to,
    {
        let next = self.peek();
        let range = to - from;
        let offset = from;

        proof {
            assert((range as int) * (next as int) < u128::MAX) by (nonlinear_arith)
                requires
                    range <= u64::MAX,
                    next < LCG_MODULUS,
            ;
            assert((range as int) * (next as int) / (LCG_MODULUS as int) <= range as int) by (
            nonlinear_arith)
                requires
                    0 <= next < LCG_MODULUS as int,
                    0 <= range as int,
            ;
            assert(0 <= (range as int) * (next as int)) by (nonlinear_arith)
                requires
                    0 <= next as int,
                    0 <= range as int,
            ;
        }
        let scaled = (((range as u128) * (next as u128)) / (LCG_MODULUS as u128)) as u64;
        offset + scaled
    }

    /// Draw a value in [from, to] and advance the sequence by one step.
    pub fn next_between(&mut self, from: u64, to: u64) -> (r: u64)
        requires
            old(self).wf(),
            from <= to,
        ensures
            final(self).wf(),
            final(self).seed == next_seed_of(old(self).seed),
            r == draw_of(old(self).seed, from, to),
            from <= r <= to,
    {
        let next = self.peek_between(from, to);
        self.next();
        next
    }
}

/// Timeout determinism: two generators that start from the same seed produce
/// identical sequences of drawn timeouts, whatever the bounds, because every
/// draw is a pure function of the seed alone.
pub proof fn lemma_timeout_determinism(a: Random, b: Random, from: u64, to: u64)
    requires
        a.seed == b.seed,
    ensures
        forall|n: nat| nth_draw(a.seed, from, to, n) == nth_draw(b.seed, from, to, n),
{
}

} // verus!
