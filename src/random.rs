//! Randomness: the generator, the uniform sampler over the field and the
//! small-noise sampler.

use crate::z::{Z, MAX_MODULUS};
use rand::{Rng, SeedableRng};
use rand_hc::Hc128Rng;
use vstd::prelude::*;

verus! {

#[verifier::external_type_specification]
#[verifier::external_body]
pub struct ExHc128Rng(Hc128Rng);

/// Relies on `SeedableRng::from_entropy`: a generator seeded by the operating
/// system. It panics only when the system's entropy source fails.
#[verifier::external_body]
pub(crate) fn rng_from_entropy() -> (r: Hc128Rng) {
    Hc128Rng::from_entropy()
}

/// Relies on `SeedableRng::seed_from_u64`: a generator fixed by the seed.
#[verifier::external_body]
pub(crate) fn rng_from_seed(seed: u64) -> (r: Hc128Rng) {
    Hc128Rng::seed_from_u64(seed)
}

/// Relies on `Rng::gen_range` over an inclusive range: a value in the range,
/// which must not be empty.
#[verifier::external_body]
fn gen_range_inclusive(rng: &mut Hc128Rng, low: usize, high: usize) -> (r: usize)
    requires
        low <= high,
    ensures
        low <= r <= high,
{
    rng.gen_range(low..=high)
}

/// Relies on `Rng::gen_ratio`: `true` with probability
/// `numerator / denominator`; always for a ratio of one, never for zero.
#[verifier::external_body]
pub(crate) fn gen_ratio(rng: &mut Hc128Rng, numerator: u32, denominator: u32) -> (r: bool)
    requires
        0 < denominator,
        numerator <= denominator,
    ensures
        numerator == denominator ==> r,
        numerator == 0 ==> !r,
{
    rng.gen_ratio(numerator, denominator)
}

/// Uniform sampler over a range of field elements, set up once and reused.
#[derive(Debug, Clone, Copy)]
pub struct UmiformZ {
    pub low: usize,
    pub high: usize,
    pub modulus: usize,
}

impl UmiformZ {
    pub open spec fn wf(self) -> bool {
        0 < self.modulus <= MAX_MODULUS && self.low <= self.high < self.modulus
    }

    /// Sampler over `[low, high)`.
    pub fn new(low: Z, high: Z) -> (r: UmiformZ)
        requires
            low.wf(),
            high.in_field(low.modulus as int),
            low.value < high.value,
        ensures
            r.wf(),
            r.low == low.value,
            r.high == high.value - 1,
            r.modulus == low.modulus,
    {
        UmiformZ { low: low.value, high: high.value - 1, modulus: low.modulus }
    }

    /// Sampler over `[low, high]`.
    pub fn new_inclusive(low: Z, high: Z) -> (r: UmiformZ)
        requires
            low.wf(),
            high.in_field(low.modulus as int),
            low.value <= high.value,
        ensures
            r.wf(),
            r.low == low.value,
            r.high == high.value,
            r.modulus == low.modulus,
    {
        UmiformZ { low: low.value, high: high.value, modulus: low.modulus }
    }

    /// One draw.
    pub fn sample(&self, rng: &mut Hc128Rng) -> (r: Z)
        requires
            self.wf(),
        ensures
            r.in_field(self.modulus as int),
            self.low <= r.value <= self.high,
    {
        let v = gen_range_inclusive(rng, self.low, self.high);
        Z { value: v, modulus: self.modulus }
    }
}

/// Noise distribution: the difference of two counts of `eta` fair coin flips
/// (a centred binomial), taken modulo `modulus`. Its values lie within `eta`
/// of zero on the ring.
#[derive(Debug, Clone, Copy)]
pub struct ChiDistribution {
    pub eta: usize,
    pub modulus: usize,
}

impl ChiDistribution {
    pub open spec fn wf(self) -> bool {
        0 < self.modulus <= MAX_MODULUS && self.eta < self.modulus
    }

    pub fn new(eta: usize, modulus: usize) -> (r: ChiDistribution)
        requires
            0 < modulus <= MAX_MODULUS,
            eta < modulus,
        ensures
            r.wf(),
            r.eta == eta,
            r.modulus == modulus,
    {
        ChiDistribution { eta, modulus }
    }

    /// Number of heads in `eta` fair coin flips.
    fn heads(&self, rng: &mut Hc128Rng) -> (r: usize)
        ensures
            r <= self.eta,
    {
        let mut count: usize = 0;
        let mut i: usize = 0;
        while i < self.eta
            invariant
                count <= i <= self.eta,
            decreases self.eta - i,
        {
            if gen_ratio(rng, 1, 2) {
                count = count + 1;
            }
            i = i + 1;
        }
        count
    }

    /// One noise term.
    pub fn get(&self, rng: &mut Hc128Rng) -> (r: Z)
        requires
            self.wf(),
        ensures
            r.in_field(self.modulus as int),
            r.distance_to_zero_spec() <= self.eta,
    {
        let plus = self.heads(rng);
        let minus = self.heads(rng);
        let p = self.modulus;
        proof {
            if plus >= minus {
                vstd::arithmetic::div_mod::lemma_mod_add_multiples_vanish(plus - minus, p as int);
                vstd::arithmetic::div_mod::lemma_small_mod((plus - minus) as nat, p as nat);
            } else {
                vstd::arithmetic::div_mod::lemma_small_mod((p + plus - minus) as nat, p as nat);
            }
        }
        Z::new(self.modulus + plus - minus, self.modulus)
    }
}

} // verus!
