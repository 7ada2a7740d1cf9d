use vstd::prelude::*;

verus! {

/// A source of noise draws for the midpoint-displacement generator.
///
/// `gen_range(lo, hi)` hands back a value in the closed interval `[lo, hi]`.
/// A source whose `deterministic()` holds also promises that every draw, and
/// the state left behind, are the fixed functions `next_val` / `next_state`
/// of the state before the draw; the generator's output is then a function
/// of the source's starting state alone.
pub trait NoiseSource: Sized {
    /// Whether this source's draws are a function of its state.
    spec fn deterministic(&self) -> bool;

    /// The value the next draw returns, for a deterministic source.
    spec fn next_val(&self, lo: int, hi: int) -> int;

    /// The state the source is left in after the next draw, for a
    /// deterministic source.
    spec fn next_state(&self, lo: int, hi: int) -> Self;

    /// Draw a value from the closed interval `[lo, hi]`.
    fn gen_range(&mut self, lo: i64, hi: i64) -> (r: i64)
        requires
            lo <= hi,
        ensures
            lo <= r <= hi,
            old(self).deterministic() ==> {
                &&& r as int == old(self).next_val(lo as int, hi as int)
                &&& *final(self) == old(self).next_state(lo as int, hi as int)
                &&& final(self).deterministic()
            },
    ;
}

/// A degenerate source that always returns the upper end of the interval.
///
/// Useful to exhibit the largest profile a given set of parameters can
/// produce: every perturbation comes out at its full displacement magnitude.
pub struct MaxNoise;

impl NoiseSource for MaxNoise {
    open spec fn deterministic(&self) -> bool {
        true
    }

    open spec fn next_val(&self, lo: int, hi: int) -> int {
        hi
    }

    open spec fn next_state(&self, lo: int, hi: int) -> Self {
        *self
    }

    fn gen_range(&mut self, lo: i64, hi: i64) -> (r: i64) {
        hi
    }
}

/// One step of the xorshift64 permutation on the generator state.
pub open spec fn xorshift_step(x: u64) -> u64 {
    let a = x ^ (x << 13u64);
    let b = a ^ (a >> 7u64);
    b ^ (b << 17u64)
}

/// A small seeded pseudo-random source (xorshift64), fully verified:
/// reproducible draws from a 64-bit seed.
pub struct SeededNoise {
    pub state: u64,
}

impl SeededNoise {
    /// Build a source from a seed; equal seeds give equal draw sequences.
    pub fn new(seed: u64) -> (s: SeededNoise)
        ensures
            s.state == seed,
    {
        SeededNoise { state: seed }
    }
}

impl NoiseSource for SeededNoise {
    open spec fn deterministic(&self) -> bool {
        true
    }

    open spec fn next_val(&self, lo: int, hi: int) -> int {
        lo + (xorshift_step(self.state) as int) % (hi - lo + 1)
    }

    open spec fn next_state(&self, lo: int, hi: int) -> Self {
        SeededNoise { state: xorshift_step(self.state) }
    }

    fn gen_range(&mut self, lo: i64, hi: i64) -> (r: i64) {
        let a: u64 = self.state ^ (self.state << 13u64);
        let b: u64 = a ^ (a >> 7u64);
        let x: u64 = b ^ (b << 17u64);
        self.state = x;
        let span: i128 = hi as i128 - lo as i128 + 1;
        let off: u128 = (x as u128) % (span as u128);
        let r: i128 = lo as i128 + off as i128;
        proof {
            assert(0 <= off < span) by {
                vstd::arithmetic::div_mod::lemma_mod_bound(x as int, span as int);
            };
        }
        r as i64
    }
}

/// Declares rand's thread-local generator type so that a field can hold it;
/// the value is opaque to the verifier.
#[verifier::external_type_specification]
#[verifier::external_body]
pub struct ExThreadRng(rand::rngs::ThreadRng);

/// A source backed by the operating system's entropy, through rand's
/// thread-local generator. Its draws depend on outside state, so nothing
/// beyond the interval bound is promised of them.
pub struct SystemNoise {
    rng: rand::rngs::ThreadRng,
}

impl SystemNoise {
    /// Relies on rand::thread_rng to hand out the thread-local generator.
    #[verifier::external_body]
    pub fn new() -> (s: SystemNoise) {
        SystemNoise { rng: rand::thread_rng() }
    }
}

impl NoiseSource for SystemNoise {
    open spec fn deterministic(&self) -> bool {
        false
    }

    // With `deterministic()` false the model clauses of `gen_range` are
    // vacuous, so these two definitions carry no promise.
    open spec fn next_val(&self, lo: int, hi: int) -> int {
        lo
    }

    open spec fn next_state(&self, lo: int, hi: int) -> Self {
        *self
    }

    fn gen_range(&mut self, lo: i64, hi: i64) -> (r: i64) {
        rand_range(&mut self.rng, lo, hi)
    }
}

/// Relies on rand's Rng::gen_range: a draw from the non-empty range
/// `lo..=hi` lies in that range (it asserts the range is non-empty and
/// samples uniformly from it).
#[verifier::external_body]
fn rand_range(rng: &mut rand::rngs::ThreadRng, lo: i64, hi: i64) -> (r: i64)
    requires
        lo <= hi,
    ensures
        lo <= r <= hi,
{
    rand::Rng::gen_range(rng, lo..=hi)
}

} // verus!
