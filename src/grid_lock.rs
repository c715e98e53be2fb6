//! The encryption scheme: parameters, key generation, encryption and
//! decryption of bit sequences.

use crate::random::{gen_ratio, rng_from_entropy, rng_from_seed, ChiDistribution, UmiformZ};
use crate::z::{all_in_field, circular_distance, dot, inner_product, Z, MAX_MODULUS};
use rand_hc::Hc128Rng;
use vstd::arithmetic::div_mod::{
    lemma_add_mod_noop, lemma_fundamental_div_mod, lemma_mod_bound, lemma_small_mod,
    lemma_sub_mod_noop, lemma_sub_mod_noop_right,
};
use vstd::prelude::*;

verus! {

/// Default security parameter `n`, the length of a secret key.
pub const N: usize = 64;

/// Default prime modulus, with `n^2 < p < 2n^2`.
pub const P: usize = 4099;

/// Default number of public-key rows, about `(1 + ε)(n + 1) log p` with `ε = 0.1`.
pub const M: usize = 594;

/// Bound on the size of each noise term of a public key.
pub const NOISE_BOUND: usize = 2;

/// What an operation of the scheme can refuse.
#[derive(Debug, Clone, Copy, PartialEq, Eq, Structural)]
pub enum GridLockError {
    /// The modulus is not a prime with `n^2 < p < 2n^2`, or a size is out of range.
    InvalidParameters,
    /// A key does not have the shape the parameters fix.
    InvalidKeyLength,
    /// A ciphertext vector does not have length `n`.
    InvalidCiphertext,
}

/// `p` is a prime number.
pub open spec fn is_prime(p: int) -> bool {
    p > 1 && forall|d: int| 1 < d < p ==> #[trigger] (p % d) != 0
}

/// Parameters the scheme accepts.
pub open spec fn valid_parameters(n: int, m: int, p: int) -> bool {
    &&& is_prime(p)
    &&& n * n < p < 2 * n * n
    &&& p <= MAX_MODULUS
    &&& 1 <= m <= u32::MAX
}

/// A divisor of `p` no smaller than `d`, where `p < d * d`, pairs with a
/// divisor smaller than `d`.
proof fn lemma_cofactor_small(p: int, d: int, k: int)
    requires
        2 <= d <= k < p,
        p < d * d,
        p % k == 0,
    ensures
        1 < p / k < d,
        p % (p / k) == 0,
{
    let q = p / k;
    lemma_fundamental_div_mod(p, k);
    assert(p == k * q);
    assert(q >= 2) by (nonlinear_arith)
        requires
            p == k * q,
            2 <= k < p,
    ;
    assert(q < d) by (nonlinear_arith)
        requires
            p == k * q,
            p < d * d,
            d <= k,
            2 <= d,
    ;
    assert(p == q * k) by (nonlinear_arith)
        requires
            p == k * q,
    ;
    vstd::arithmetic::div_mod::lemma_mod_multiples_basic(k, q);
}

/// Whether `p` is prime, by trial division up to its square root.
pub fn is_prime_number(p: usize) -> (r: bool)
    ensures
        r == is_prime(p as int),
{
    if p < 2 {
        return false;
    }
    let mut d: usize = 2;
    while d < p && d <= p / d
        invariant
            2 <= d <= p,
            forall|j: int| 1 < j < d ==> #[trigger] ((p as int) % j) != 0,
        decreases p - d,
    {
        if p % d == 0 {
            assert((p as int) % (d as int) == 0);
            return false;
        }
        d = d + 1;
    }
    if d < p {
        assert((p as int) < (d as int) * (d as int)) by {
            lemma_fundamental_div_mod(p as int, d as int);
            lemma_mod_bound(p as int, d as int);
            assert((p as int) < (d as int) * (d as int)) by (nonlinear_arith)
                requires
                    (p as int) == (d as int) * ((p as int) / (d as int)) + (p as int) % (d as int),
                    (p as int) % (d as int) < d,
                    (p as int) / (d as int) < d,
                    d >= 2,
            ;
        }
        assert forall|k: int| 1 < k < p implies #[trigger] ((p as int) % k) != 0 by {
            if k >= d && (p as int) % k == 0 {
                lemma_cofactor_small(p as int, d as int, k);
            }
        }
    }
    true
}

/// Whether `(n, m, p)` are parameters the scheme accepts.
fn check_parameters(n: usize, m: usize, p: usize) -> (r: bool)
    ensures
        r == valid_parameters(n as int, m as int, p as int),
{
    // Past `n = 256`, `n^2` already reaches `MAX_MODULUS`.
    if p > MAX_MODULUS || m < 1 || m > u32::MAX as usize || n > 256 {
        if n > 256 && p <= MAX_MODULUS {
            assert((n as int) * (n as int) >= 256 * 256) by (nonlinear_arith)
                requires
                    n > 256,
            ;
        }
        return false;
    }
    assert(n * n <= MAX_MODULUS) by (nonlinear_arith)
        requires
            n <= 256,
    ;
    let nn = n * n;
    assert(nn == (n as int) * (n as int));
    assert(2 * (n as int) * (n as int) == 2 * nn) by (nonlinear_arith)
        requires
            nn == (n as int) * (n as int),
    ;
    nn < p && p < 2 * nn && is_prime_number(p)
}

/// Every vector of the pairs has length `n`.
pub open spec fn rows_have_len(c: Seq<(Vec<Z>, Z)>, n: int) -> bool {
    forall|i: int| 0 <= i < c.len() ==> (#[trigger] c[i]).0@.len() == n
}

/// Every element of the pairs belongs to the field of `p` elements.
pub open spec fn pairs_in_field(c: Seq<(Vec<Z>, Z)>, p: int) -> bool {
    forall|i: int|
        0 <= i < c.len() ==> all_in_field((#[trigger] c[i]).0@, p) && c[i].1.in_field(p)
}

/// A public key has `m` rows, each a vector of length `n`.
pub open spec fn key_shaped(pk: Seq<(Vec<Z>, Z)>, n: int, m: int) -> bool {
    pk.len() == m && rows_have_len(pk, n)
}

/// Row `(a, b)` satisfies `b = <a, s> + e` for a noise term `e` within `eta`
/// of zero.
pub open spec fn noisy_row(row: (Vec<Z>, Z), s: Seq<Z>, p: int, eta: int) -> bool {
    circular_distance((row.1.value - dot(row.0@, s, s.len() as int)) % p, 0, p) <= eta
}

/// `pk` is a public key of the secret key `s`.
pub open spec fn is_public_key(
    pk: Seq<(Vec<Z>, Z)>,
    s: Seq<Z>,
    n: int,
    m: int,
    p: int,
    eta: int,
) -> bool {
    &&& key_shaped(pk, n, m)
    &&& pairs_in_field(pk, p)
    &&& forall|i: int| 0 <= i < m ==> noisy_row(#[trigger] pk[i], s, p, eta)
}

/// Sum of component `j` of the public-key vectors of the first `k` rows that
/// `sub` selects.
pub open spec fn column_sum(pk: Seq<(Vec<Z>, Z)>, sub: Seq<usize>, j: int, k: int) -> int
    decreases k,
{
    if k <= 0 {
        0
    } else {
        column_sum(pk, sub, j, k - 1) + pk[sub[k - 1] as int].0@[j].value
    }
}

/// Sum of the public-key scalars of the first `k` rows that `sub` selects.
pub open spec fn scalar_sum(pk: Seq<(Vec<Z>, Z)>, sub: Seq<usize>, k: int) -> int
    decreases k,
{
    if k <= 0 {
        0
    } else {
        scalar_sum(pk, sub, k - 1) + pk[sub[k - 1] as int].1.value
    }
}

/// Every index that `sub` lists is below `m`.
pub open spec fn indices_below(sub: Seq<usize>, m: int) -> bool {
    forall|k: int| 0 <= k < sub.len() ==> #[trigger] sub[k] < m
}

/// The vector component of every ciphertext pair: the sum of the selected
/// public-key vectors.
pub open spec fn subset_vector(pk: Seq<(Vec<Z>, Z)>, sub: Seq<usize>, n: int, p: int) -> Seq<Z> {
    Seq::new(n as nat, |j: int| Z::of_int(column_sum(pk, sub, j, sub.len() as int), p))
}

/// The scalar component of the pair for `bit`: the sum of the selected
/// public-key scalars, plus `p / 2` when the bit is set.
pub open spec fn subset_scalar(pk: Seq<(Vec<Z>, Z)>, sub: Seq<usize>, bit: bool, p: int) -> Z {
    Z::of_int(scalar_sum(pk, sub, sub.len() as int) + if bit { p / 2 } else { 0 }, p)
}

/// `ct` encrypts `msg` under `pk` with the rows that `sub` selects, one pair
/// per bit, in order.
pub open spec fn encrypts(
    ct: Seq<(Vec<Z>, Z)>,
    pk: Seq<(Vec<Z>, Z)>,
    sub: Seq<usize>,
    msg: Seq<bool>,
    n: int,
    p: int,
) -> bool {
    &&& ct.len() == msg.len()
    &&& forall|i: int|
        0 <= i < ct.len() ==> (#[trigger] ct[i]).0@ == subset_vector(pk, sub, n, p) && ct[i].1
            == subset_scalar(pk, sub, msg[i], p)
}

/// The bit that nearest-point decoding gives for `x`: whether `x mod p` is
/// nearer to `p / 2` than to zero on the ring.
pub open spec fn decode(x: int, p: int) -> bool {
    let d = x % p;
    circular_distance(d, 0, p) > circular_distance(d, p / 2, p)
}

/// `bits` is the decryption of `ct` under the secret key `s`.
pub open spec fn decrypts(bits: Seq<bool>, ct: Seq<(Vec<Z>, Z)>, s: Seq<Z>, p: int) -> bool {
    &&& bits.len() == ct.len()
    &&& forall|i: int|
        0 <= i < ct.len() ==> #[trigger] bits[i] == decode(
            ct[i].1.value - dot(ct[i].0@, s, s.len() as int),
            p,
        )
}

/// With no row selected, every ciphertext vector is all zeros and every
/// scalar is `0` for a clear bit and `p / 2` for a set bit.
pub proof fn empty_subset_encryption(
    ct: Seq<(Vec<Z>, Z)>,
    pk: Seq<(Vec<Z>, Z)>,
    msg: Seq<bool>,
    n: int,
    p: int,
)
    requires
        0 < p <= MAX_MODULUS,
        0 <= n,
        encrypts(ct, pk, Seq::<usize>::empty(), msg, n, p),
    ensures
        ct.len() == msg.len(),
        forall|i: int, j: int|
            0 <= i < ct.len() && 0 <= j < n ==> (#[trigger] ct[i].0@[j]).value == 0,
        forall|i: int|
            0 <= i < ct.len() ==> (#[trigger] ct[i]).0@.len() == n && ct[i].1.value == (if msg[i] {
                p / 2
            } else {
                0
            }),
{
    lemma_small_mod(0, p as nat);
    lemma_small_mod((p / 2) as nat, p as nat);
    assert forall|i: int, j: int| 0 <= i < ct.len() && 0 <= j < n implies (
    #[trigger] ct[i].0@[j]).value == 0 by {
        assert(ct[i].0@ == subset_vector(pk, Seq::<usize>::empty(), n, p));
    }
    assert forall|i: int| 0 <= i < ct.len() implies (#[trigger] ct[i]).0@.len() == n && ct[i].1.value == (
    if msg[i] {
        p / 2
    } else {
        0
    }) by {
        assert(ct[i].0@ == subset_vector(pk, Seq::<usize>::empty(), n, p));
        assert(ct[i].1 == subset_scalar(pk, Seq::<usize>::empty(), msg[i], p));
    }
}

/// `b - x` recovers `e` from `b = (x mod p) + e`, reduced.
proof fn lemma_recover_noise(x: int, e: int, p: int)
    requires
        0 < p,
        0 <= e < p,
    ensures
        (((x % p + e) % p) - x) % p == e,
{
    let r = x % p;
    let b = (r + e) % p;
    lemma_mod_bound(x, p);
    lemma_mod_bound(r + e, p);
    lemma_small_mod(r as nat, p as nat);
    lemma_small_mod(b as nat, p as nat);
    lemma_small_mod(e as nat, p as nat);
    lemma_sub_mod_noop(r + e, r, p);
    lemma_sub_mod_noop(b, x, p);
}

/// A copy of `v`.
fn copy_vec(v: &Vec<Z>) -> (r: Vec<Z>)
    ensures
        r@ == v@,
{
    let mut r: Vec<Z> = Vec::new();
    let mut i: usize = 0;
    while i < v.len()
        invariant
            i <= v@.len(),
            r@ == v@.subrange(0, i as int),
        decreases v@.len() - i,
    {
        r.push(v[i]);
        i = i + 1;
    }
    assert(r@ =~= v@);
    r
}

/// The scheme, with its parameters and its source of randomness.
#[derive(Debug)]
pub struct GridLock {
    pub n: usize,
    pub m: usize,
    pub p: usize,
    pub eta: usize,
    pub uniform: UmiformZ,
    pub rng: Hc128Rng,
}

impl Default for GridLock {
    /// The scheme with the default parameters.
    fn default() -> (r: GridLock)
        ensures
            r.wf(),
            r.n == N,
            r.m == M,
            r.p == P,
            r.eta == NOISE_BOUND,
    {
        GridLock::new()
    }
}

impl GridLock {
    pub open spec fn wf(&self) -> bool {
        &&& 1 <= self.n
        &&& 0 < self.p <= MAX_MODULUS
        &&& 1 <= self.m <= u32::MAX
        &&& self.eta < self.p
        &&& self.uniform == (UmiformZ { low: 0, high: (self.p - 1) as usize, modulus: self.p })
    }

    /// `self` and `other` have the same parameters.
    pub open spec fn same_parameters(&self, other: &GridLock) -> bool {
        &&& self.n == other.n
        &&& self.m == other.m
        &&& self.p == other.p
        &&& self.eta == other.eta
        &&& self.uniform == other.uniform
    }

    fn build(n: usize, m: usize, p: usize, rng: Hc128Rng) -> (r: GridLock)
        requires
            1 <= n,
            NOISE_BOUND < p <= MAX_MODULUS,
            1 <= m <= u32::MAX,
        ensures
            r.wf(),
            r.n == n,
            r.m == m,
            r.p == p,
            r.eta == NOISE_BOUND,
    {
        proof {
            lemma_small_mod(0, p as nat);
            lemma_small_mod((p - 1) as nat, p as nat);
        }
        let uniform = UmiformZ::new_inclusive(Z::new(0, p), Z::new(p - 1, p));
        GridLock { n, m, p, eta: NOISE_BOUND, uniform, rng }
    }

    /// The scheme with the default parameters `N`, `M`, `P`, seeded from the
    /// operating system.
    pub fn new() -> (r: GridLock)
        ensures
            r.wf(),
            r.n == N,
            r.m == M,
            r.p == P,
            r.eta == NOISE_BOUND,
    {
        GridLock::build(N, M, P, rng_from_entropy())
    }

    /// The scheme with parameters `(n, m, p)`, seeded from `seed`, or from the
    /// operating system when there is none. Refuses parameters that are not
    /// valid.
    pub fn with_parameters(n: usize, m: usize, p: usize, seed: Option<u64>) -> (r: Result<
        GridLock,
        GridLockError,
    >)
        ensures
            r is Ok <==> valid_parameters(n as int, m as int, p as int),
            r is Err ==> r == Err::<GridLock, GridLockError>(GridLockError::InvalidParameters),
            r matches Ok(g) ==> g.wf() && g.n == n && g.m == m && g.p == p && g.eta
                == NOISE_BOUND,
    {
        if !check_parameters(n, m, p) {
            return Err(GridLockError::InvalidParameters);
        }
        assert(n >= 2 && p > 4) by (nonlinear_arith)
            requires
                (n as int) * (n as int) < p < 2 * (n as int) * (n as int),
        ;
        let rng = match seed {
            Some(v) => rng_from_seed(v),
            None => rng_from_entropy(),
        };
        Ok(GridLock::build(n, m, p, rng))
    }

    /// A vector of `n` uniformly drawn field elements.
    fn gen_vector(&mut self) -> (r: Vec<Z>)
        requires
            old(self).wf(),
        ensures
            final(self).same_parameters(old(self)),
            r@.len() == old(self).n,
            all_in_field(r@, old(self).p as int),
    {
        let mut v: Vec<Z> = Vec::new();
        let mut i: usize = 0;
        while i < self.n
            invariant
                self.wf(),
                self.same_parameters(old(self)),
                i <= self.n,
                v@.len() == i,
                all_in_field(v@, self.p as int),
            decreases self.n - i,
        {
            let x = self.uniform.sample(&mut self.rng);
            v.push(x);
            i = i + 1;
        }
        v
    }

    /// A secret key: `n` uniformly drawn field elements.
    pub fn gen_secret_key(&mut self) -> (r: Vec<Z>)
        requires
            old(self).wf(),
        ensures
            final(self).same_parameters(old(self)),
            r@.len() == old(self).n,
            all_in_field(r@, old(self).p as int),
    {
        self.gen_vector()
    }

    /// A public key for the secret key `s`: `m` uniformly drawn vectors `a_i`,
    /// each paired with `b_i = <a_i, s> + e_i` for a noise term `e_i`.
    pub fn gen_public_key(&mut self, s: &[Z]) -> (r: Result<Vec<(Vec<Z>, Z)>, GridLockError>)
        requires
            old(self).wf(),
            all_in_field(s@, old(self).p as int),
        ensures
            final(self).same_parameters(old(self)),
            r is Ok <==> s@.len() == old(self).n,
            r is Err ==> r == Err::<Vec<(Vec<Z>, Z)>, GridLockError>(
                GridLockError::InvalidKeyLength,
            ),
            r matches Ok(pk) ==> is_public_key(
                pk@,
                s@,
                old(self).n as int,
                old(self).m as int,
                old(self).p as int,
                old(self).eta as int,
            ),
    {
        if s.len() != self.n {
            return Err(GridLockError::InvalidKeyLength);
        }
        let ghost p = self.p as int;
        let ghost n = self.n as int;
        let mut a: Vec<Vec<Z>> = Vec::new();
        let mut i: usize = 0;
        while i < self.m
            invariant
                self.wf(),
                self.same_parameters(old(self)),
                p == self.p,
                n == self.n,
                i <= self.m,
                a@.len() == i,
                forall|k: int|
                    0 <= k < i ==> (#[trigger] a@[k])@.len() == n && all_in_field(a@[k]@, p),
            decreases self.m - i,
        {
            let v = self.gen_vector();
            a.push(v);
            i = i + 1;
        }
        let chi = ChiDistribution::new(self.eta, self.p);
        let mut e: Vec<Z> = Vec::new();
        let mut i: usize = 0;
        while i < self.m
            invariant
                self.wf(),
                self.same_parameters(old(self)),
                p == self.p,
                chi.wf(),
                chi.eta == self.eta,
                chi.modulus == self.p,
                i <= self.m,
                e@.len() == i,
                forall|k: int|
                    0 <= k < i ==> (#[trigger] e@[k]).in_field(p)
                        && e@[k].distance_to_zero_spec() <= self.eta,
            decreases self.m - i,
        {
            let x = chi.get(&mut self.rng);
            e.push(x);
            i = i + 1;
        }
        let mut pk: Vec<(Vec<Z>, Z)> = Vec::new();
        let mut i: usize = 0;
        while i < self.m
            invariant
                self.wf(),
                self.same_parameters(old(self)),
                p == self.p,
                n == self.n,
                s@.len() == n,
                all_in_field(s@, p),
                a@.len() == self.m,
                e@.len() == self.m,
                forall|k: int|
                    0 <= k < self.m ==> (#[trigger] a@[k])@.len() == n && all_in_field(a@[k]@, p),
                forall|k: int|
                    0 <= k < self.m ==> (#[trigger] e@[k]).in_field(p)
                        && e@[k].distance_to_zero_spec() <= self.eta,
                i <= self.m,
                pk@.len() == i,
                forall|k: int|
                    0 <= k < i ==> (#[trigger] pk@[k]).0@.len() == n && all_in_field(pk@[k].0@, p)
                        && pk@[k].1.in_field(p) && noisy_row(pk@[k], s@, p, self.eta as int),
            decreases self.m - i,
        {
            let row = copy_vec(&a[i]);
            assert(all_in_field(a@[i as int]@, p));
            let ip = inner_product(&row, s, self.p);
            let ei = e[i];
            assert(ei.in_field(p) && ei.distance_to_zero_spec() <= self.eta);
            let b = ip.add(ei);
            proof {
                lemma_recover_noise(dot(row@, s@, n), ei.value as int, p);
            }
            pk.push((row, b));
            i = i + 1;
        }
        Ok(pk)
    }

    /// Whether `pk` has `m` rows, each with a vector of length `n`.
    fn key_is_shaped(&self, pk: &[(Vec<Z>, Z)]) -> (r: bool)
        ensures
            r == key_shaped(pk@, self.n as int, self.m as int),
    {
        if pk.len() != self.m {
            return false;
        }
        let mut i: usize = 0;
        while i < pk.len()
            invariant
                i <= pk@.len(),
                forall|k: int| 0 <= k < i ==> (#[trigger] pk@[k]).0@.len() == self.n,
            decreases pk@.len() - i,
        {
            if pk[i].0.len() != self.n {
                return false;
            }
            i = i + 1;
        }
        true
    }

    /// The random subset of public-key rows used by one encryption: each row
    /// index below `m` is taken, in increasing order, with probability `1 / m`.
    pub fn choose_subset(&mut self) -> (r: Vec<usize>)
        requires
            old(self).wf(),
        ensures
            final(self).same_parameters(old(self)),
            indices_below(r@, old(self).m as int),
            forall|a: int, b: int| 0 <= a < b < r@.len() ==> r@[a] < r@[b],
    {
        let mut sub: Vec<usize> = Vec::new();
        let mut i: usize = 0;
        while i < self.m
            invariant
                self.wf(),
                self.same_parameters(old(self)),
                i <= self.m,
                forall|k: int| 0 <= k < sub@.len() ==> #[trigger] sub@[k] < i,
                forall|a: int, b: int| 0 <= a < b < sub@.len() ==> sub@[a] < sub@[b],
            decreases self.m - i,
        {
            if gen_ratio(&mut self.rng, 1, self.m as u32) {
                sub.push(i);
            }
            i = i + 1;
        }
        sub
    }

    /// Encrypts `message` bit by bit under `public_key`, using the rows that
    /// `subset` selects for every bit. Refuses a public key of the wrong shape.
    pub fn encrypt_with_subset(
        &self,
        public_key: &[(Vec<Z>, Z)],
        subset: &[usize],
        message: &[bool],
    ) -> (r: Result<Vec<(Vec<Z>, Z)>, GridLockError>)
        requires
            self.wf(),
            pairs_in_field(public_key@, self.p as int),
            indices_below(subset@, self.m as int),
        ensures
            r is Ok <==> key_shaped(public_key@, self.n as int, self.m as int),
            r is Err ==> r == Err::<Vec<(Vec<Z>, Z)>, GridLockError>(
                GridLockError::InvalidKeyLength,
            ),
            r matches Ok(ct) ==> encrypts(
                ct@,
                public_key@,
                subset@,
                message@,
                self.n as int,
                self.p as int,
            ) && pairs_in_field(ct@, self.p as int),
    {
        if !self.key_is_shaped(public_key) {
            return Err(GridLockError::InvalidKeyLength);
        }
        let ghost pk = public_key@;
        let ghost sub = subset@;
        let ghost p = self.p as int;
        let ghost n = self.n as int;
        let mut vector: Vec<Z> = Vec::new();
        let mut j: usize = 0;
        while j < self.n
            invariant
                self.wf(),
                p == self.p,
                j <= self.n,
                vector@.len() == j,
                forall|c: int| 0 <= c < j ==> #[trigger] vector@[c] == Z::of_int(0, p),
                all_in_field(vector@, self.p as int),
            decreases self.n - j,
        {
            vector.push(Z::new(0, self.p));
            j = j + 1;
        }
        let mut scalar = Z::new(0, self.p);
        let mut t: usize = 0;
        while t < subset.len()
            invariant
                self.wf(),
                p == self.p,
                n == self.n,
                pk == public_key@,
                sub == subset@,
                key_shaped(pk, n, self.m as int),
                pairs_in_field(pk, p),
                indices_below(sub, self.m as int),
                t <= sub.len(),
                vector@.len() == n,
                all_in_field(vector@, p),
                scalar.in_field(p),
                forall|c: int|
                    0 <= c < n ==> #[trigger] vector@[c] == Z::of_int(column_sum(pk, sub, c, t as int), p),
                scalar == Z::of_int(scalar_sum(pk, sub, t as int), p),
            decreases sub.len() - t,
        {
            let idx = subset[t];
            assert(idx < self.m);
            let row = &public_key[idx].0;
            assert(row@.len() == n && all_in_field(row@, p) && public_key[idx as int].1.in_field(p));
            let mut j: usize = 0;
            while j < self.n
                invariant
                    self.wf(),
                    p == self.p,
                    n == self.n,
                    pk == public_key@,
                    sub == subset@,
                    t < sub.len(),
                    idx == sub[t as int],
                    idx < pk.len(),
                    row@ == pk[idx as int].0@,
                    row@.len() == n,
                    all_in_field(row@, p),
                    j <= n,
                    vector@.len() == n,
                    all_in_field(vector@, p),
                    forall|c: int|
                        0 <= c < j ==> #[trigger] vector@[c] == Z::of_int(
                            column_sum(pk, sub, c, t + 1),
                            p,
                        ),
                    forall|c: int|
                        j <= c < n ==> #[trigger] vector@[c] == Z::of_int(
                            column_sum(pk, sub, c, t as int),
                            p,
                        ),
                decreases n - j,
            {
                let x = row[j];
                assert(x.in_field(p));
                proof {
                    lemma_add_mod_noop(column_sum(pk, sub, j as int, t as int), x.value as int, p);
                    lemma_small_mod(x.value as nat, p as nat);
                }
                let y = vector[j].add(x);
                vector.set(j, y);
                j = j + 1;
            }
            let b = public_key[idx].1;
            proof {
                lemma_add_mod_noop(scalar_sum(pk, sub, t as int), b.value as int, p);
                lemma_small_mod(b.value as nat, p as nat);
            }
            scalar = scalar.add(b);
            t = t + 1;
        }
        let half = Z::new(self.p / 2, self.p);
        proof {
            lemma_small_mod((p / 2) as nat, p as nat);
            lemma_add_mod_noop(scalar_sum(pk, sub, sub.len() as int), p / 2, p);
            lemma_small_mod(0, p as nat);
        }
        assert(vector@ =~= subset_vector(pk, sub, n, p));
        let mut ct: Vec<(Vec<Z>, Z)> = Vec::new();
        let mut i: usize = 0;
        while i < message.len()
            invariant
                self.wf(),
                p == self.p,
                n == self.n,
                vector@ == subset_vector(pk, sub, n, p),
                scalar == Z::of_int(scalar_sum(pk, sub, sub.len() as int), p),
                scalar.in_field(p),
                half == Z::of_int(p / 2, p),
                half.in_field(p),
                (scalar.value + half.value) % p == (scalar_sum(pk, sub, sub.len() as int) + p / 2)
                    % p,
                all_in_field(vector@, p),
                pairs_in_field(ct@, p),
                i <= message@.len(),
                ct@.len() == i,
                forall|k: int|
                    0 <= k < i ==> (#[trigger] ct@[k]).0@ == subset_vector(pk, sub, n, p)
                        && ct@[k].1 == subset_scalar(pk, sub, message@[k], p),
            decreases message@.len() - i,
        {
            let v = copy_vec(&vector);
            let c = if message[i] {
                scalar.add(half)
            } else {
                scalar
            };
            ct.push((v, c));
            i = i + 1;
        }
        Ok(ct)
    }

    /// Encrypts `message` bit by bit under `public_key`, with one random
    /// subset of rows drawn for the whole message. Refuses a public key of the
    /// wrong shape.
    pub fn encrypt(&mut self, public_key: &[(Vec<Z>, Z)], message: &[bool]) -> (r: Result<
        Vec<(Vec<Z>, Z)>,
        GridLockError,
    >)
        requires
            old(self).wf(),
            pairs_in_field(public_key@, old(self).p as int),
        ensures
            final(self).same_parameters(old(self)),
            r is Ok <==> key_shaped(public_key@, old(self).n as int, old(self).m as int),
            r is Err ==> r == Err::<Vec<(Vec<Z>, Z)>, GridLockError>(
                GridLockError::InvalidKeyLength,
            ),
            r matches Ok(ct) ==> pairs_in_field(ct@, old(self).p as int) && exists|sub: Seq<usize>|
                indices_below(sub, old(self).m as int) && #[trigger] encrypts(
                    ct@,
                    public_key@,
                    sub,
                    message@,
                    old(self).n as int,
                    old(self).p as int,
                ),
    {
        let subset = self.choose_subset();
        let r = self.encrypt_with_subset(public_key, &subset, message);
        if let Ok(ct) = &r {
            assert(encrypts(
                ct@,
                public_key@,
                subset@,
                message@,
                self.n as int,
                self.p as int,
            ));
        }
        r
    }

    /// Decrypts `ciphertext` under `secret_key`: for each pair `(a, b)`, the
    /// bit is whether `b - <a, s>` is nearer to `p / 2` than to zero.
    /// Refuses a key whose length is not `n`, then a ciphertext with a vector
    /// whose length is not `n`.
    pub fn decrypt(&self, secret_key: &[Z], ciphertext: &Vec<(Vec<Z>, Z)>) -> (r: Result<
        Vec<bool>,
        GridLockError,
    >)
        requires
            self.wf(),
            all_in_field(secret_key@, self.p as int),
            pairs_in_field(ciphertext@, self.p as int),
        ensures
            r is Ok <==> secret_key@.len() == self.n && rows_have_len(ciphertext@, self.n as int),
            secret_key@.len() != self.n ==> r == Err::<Vec<bool>, GridLockError>(
                GridLockError::InvalidKeyLength,
            ),
            secret_key@.len() == self.n && !rows_have_len(ciphertext@, self.n as int) ==> r
                == Err::<Vec<bool>, GridLockError>(GridLockError::InvalidCiphertext),
            r matches Ok(bits) ==> decrypts(bits@, ciphertext@, secret_key@, self.p as int),
    {
        if secret_key.len() != self.n {
            return Err(GridLockError::InvalidKeyLength);
        }
        let ghost p = self.p as int;
        let ghost s = secret_key@;
        let half = Z::new(self.p / 2, self.p);
        proof {
            lemma_small_mod((p / 2) as nat, p as nat);
        }
        let mut bits: Vec<bool> = Vec::new();
        let mut i: usize = 0;
        while i < ciphertext.len()
            invariant
                self.wf(),
                p == self.p,
                s == secret_key@,
                s.len() == self.n,
                all_in_field(s, p),
                pairs_in_field(ciphertext@, p),
                half == Z::of_int(p / 2, p),
                half.value == p / 2,
                half.in_field(p),
                i <= ciphertext@.len(),
                bits@.len() == i,
                forall|k: int| 0 <= k < i ==> (#[trigger] ciphertext@[k]).0@.len() == self.n,
                forall|k: int|
                    0 <= k < i ==> #[trigger] bits@[k] == decode(
                        ciphertext@[k].1.value - dot(ciphertext@[k].0@, s, s.len() as int),
                        p,
                    ),
            decreases ciphertext@.len() - i,
        {
            let a = &ciphertext[i].0;
            let b = ciphertext[i].1;
            if a.len() != self.n {
                return Err(GridLockError::InvalidCiphertext);
            }
            assert(all_in_field(a@, p) && b.in_field(p));
            let ip = inner_product(a, secret_key, self.p);
            proof {
                lemma_sub_mod_noop_right(b.value as int, dot(a@, s, s.len() as int), p);
            }
            let d = b.sub(ip);
            let bit = d.distance_to_zero() > d.distance_to(&half);
            bits.push(bit);
            i = i + 1;
        }
        Ok(bits)
    }
}

} // verus!
