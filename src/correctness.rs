//! Why decryption inverts encryption: the inner product of a sum of
//! public-key rows with the secret key is the sum of the rows' inner
//! products, so what decryption reduces is the selected rows' noise plus the
//! encoded bit.

use crate::grid_lock::{
    column_sum, decode, decrypts, encrypts, indices_below, is_public_key, noisy_row, scalar_sum,
    subset_vector,
};
use crate::z::{dot, Z, MAX_MODULUS};
use vstd::arithmetic::div_mod::{
    lemma_add_mod_noop, lemma_add_mod_noop_right, lemma_mod_add_multiples_vanish, lemma_mod_bound,
    lemma_mod_sub_multiples_vanish, lemma_mul_mod_noop_left, lemma_small_mod, lemma_sub_mod_noop,
    lemma_sub_mod_noop_right,
};
use vstd::arithmetic::mul::lemma_mul_is_distributive_add_other_way;
use vstd::prelude::*;

verus! {

/// Sum, over the first `k` rows that `sub` selects, of the inner product of
/// the row's vector with the first `j` entries of `s`.
pub open spec fn row_dots(pk: Seq<(Vec<Z>, Z)>, sub: Seq<usize>, s: Seq<Z>, k: int, j: int) -> int
    decreases k,
{
    if k <= 0 {
        0
    } else {
        row_dots(pk, sub, s, k - 1, j) + dot(pk[sub[k - 1] as int].0@, s, j)
    }
}

/// Sum, over the first `j` components, of the column sums of the first `k`
/// selected rows times the entries of `s`.
pub open spec fn column_dots(pk: Seq<(Vec<Z>, Z)>, sub: Seq<usize>, s: Seq<Z>, k: int, j: int) -> int
    decreases j,
{
    if j <= 0 {
        0
    } else {
        column_dots(pk, sub, s, k, j - 1) + column_sum(pk, sub, j - 1, k) * s[j - 1].value
    }
}

/// The representative of `x mod p` nearest to zero, in `(-p/2, p/2]`.
pub open spec fn centered(x: int, p: int) -> int {
    let r = x % p;
    if r <= p / 2 { r } else { r - p }
}

/// Sum of the noise terms of the first `k` selected rows.
pub open spec fn noise_sum(pk: Seq<(Vec<Z>, Z)>, sub: Seq<usize>, s: Seq<Z>, p: int, k: int) -> int
    decreases k,
{
    if k <= 0 {
        0
    } else {
        let row = pk[sub[k - 1] as int];
        noise_sum(pk, sub, s, p, k - 1) + centered(row.1.value - dot(row.0@, s, s.len() as int), p)
    }
}

proof fn lemma_add_congruent(a: int, b: int, a2: int, b2: int, p: int)
    requires
        0 < p,
        a % p == a2 % p,
        b % p == b2 % p,
    ensures
        (a + b) % p == (a2 + b2) % p,
{
    lemma_add_mod_noop(a, b, p);
    lemma_add_mod_noop(a2, b2, p);
}

proof fn lemma_sub_congruent(a: int, b: int, a2: int, b2: int, p: int)
    requires
        0 < p,
        a % p == a2 % p,
        b % p == b2 % p,
    ensures
        (a - b) % p == (a2 - b2) % p,
{
    lemma_sub_mod_noop(a, b, p);
    lemma_sub_mod_noop(a2, b2, p);
}

proof fn lemma_row_dots_zero(pk: Seq<(Vec<Z>, Z)>, sub: Seq<usize>, s: Seq<Z>, k: int)
    ensures
        row_dots(pk, sub, s, k, 0) == 0,
    decreases k,
{
    if k > 0 {
        lemma_row_dots_zero(pk, sub, s, k - 1);
    }
}

proof fn lemma_row_dots_step(pk: Seq<(Vec<Z>, Z)>, sub: Seq<usize>, s: Seq<Z>, k: int, j: int)
    requires
        j >= 1,
    ensures
        row_dots(pk, sub, s, k, j) == row_dots(pk, sub, s, k, j - 1) + column_sum(pk, sub, j - 1, k)
            * s[j - 1].value,
    decreases k,
{
    if k > 0 {
        lemma_row_dots_step(pk, sub, s, k - 1, j);
        let x = pk[sub[k - 1] as int].0@[j - 1].value as int;
        lemma_mul_is_distributive_add_other_way(
            s[j - 1].value as int,
            column_sum(pk, sub, j - 1, k - 1),
            x,
        );
    }
}

/// The column sums' inner product with `s` is the sum of the rows' inner
/// products with `s`.
proof fn lemma_column_dots(pk: Seq<(Vec<Z>, Z)>, sub: Seq<usize>, s: Seq<Z>, k: int, j: int)
    requires
        j >= 0,
    ensures
        column_dots(pk, sub, s, k, j) == row_dots(pk, sub, s, k, j),
    decreases j,
{
    if j == 0 {
        lemma_row_dots_zero(pk, sub, s, k);
    } else {
        lemma_column_dots(pk, sub, s, k, j - 1);
        lemma_row_dots_step(pk, sub, s, k, j);
    }
}

/// Reducing the column sums first leaves the inner product unchanged mod `p`.
proof fn lemma_reduced_columns(pk: Seq<(Vec<Z>, Z)>, sub: Seq<usize>, s: Seq<Z>, n: int, p: int, j: int)
    requires
        0 < p <= MAX_MODULUS,
        0 <= j <= n,
    ensures
        dot(subset_vector(pk, sub, n, p), s, j) % p == column_dots(pk, sub, s, sub.len() as int, j)
            % p,
    decreases j,
{
    if j > 0 {
        let v = subset_vector(pk, sub, n, p);
        let k = sub.len() as int;
        lemma_reduced_columns(pk, sub, s, n, p, j - 1);
        let c = column_sum(pk, sub, j - 1, k);
        lemma_mod_bound(c, p);
        assert(v[j - 1].value == c % p);
        let y = s[j - 1].value as int;
        lemma_mul_mod_noop_left(c, y, p);
        lemma_add_congruent(
            dot(v, s, j - 1),
            (c % p) * y,
            column_dots(pk, sub, s, k, j - 1),
            c * y,
            p,
        );
    }
}

/// A row's scalar is its inner product plus its centred noise, mod `p`.
proof fn lemma_row_scalar(b: int, d: int, p: int)
    requires
        0 < p,
    ensures
        b % p == (d + centered(b - d, p)) % p,
{
    let r = (b - d) % p;
    lemma_add_mod_noop_right(d, b - d, p);
    if r > p / 2 {
        lemma_mod_sub_multiples_vanish(d + r, p);
    }
}

/// The selected scalars sum to the selected rows' inner products plus their
/// noise, mod `p`.
proof fn lemma_scalar_sum(pk: Seq<(Vec<Z>, Z)>, sub: Seq<usize>, s: Seq<Z>, p: int, k: int)
    requires
        0 < p,
    ensures
        scalar_sum(pk, sub, k) % p == (row_dots(pk, sub, s, k, s.len() as int) + noise_sum(
            pk,
            sub,
            s,
            p,
            k,
        )) % p,
    decreases k,
{
    if k > 0 {
        lemma_scalar_sum(pk, sub, s, p, k - 1);
        let row = pk[sub[k - 1] as int];
        let d = dot(row.0@, s, s.len() as int);
        let b = row.1.value as int;
        lemma_row_scalar(b, d, p);
        lemma_add_congruent(
            scalar_sum(pk, sub, k - 1),
            b,
            row_dots(pk, sub, s, k - 1, s.len() as int) + noise_sum(pk, sub, s, p, k - 1),
            d + centered(b - d, p),
            p,
        );
    }
}

/// Each selected row adds at most `eta` to the size of the noise.
proof fn lemma_noise_bound(
    pk: Seq<(Vec<Z>, Z)>,
    sub: Seq<usize>,
    s: Seq<Z>,
    m: int,
    p: int,
    eta: int,
    k: int,
)
    requires
        0 < p,
        0 <= eta,
        0 <= k <= sub.len(),
        pk.len() == m,
        indices_below(sub, m),
        forall|i: int| 0 <= i < m ==> noisy_row(#[trigger] pk[i], s, p, eta),
    ensures
        -(k * eta) <= noise_sum(pk, sub, s, p, k) <= k * eta,
    decreases k,
{
    if k > 0 {
        lemma_noise_bound(pk, sub, s, m, p, eta, k - 1);
        let idx = sub[k - 1] as int;
        assert(sub[k - 1] < m);
        let row = pk[idx];
        assert(noisy_row(row, s, p, eta));
        let x = row.1.value - dot(row.0@, s, s.len() as int);
        lemma_mod_bound(x, p);
        assert(-eta <= centered(x, p) <= eta);
        assert((k - 1) * eta + eta == k * eta) by (nonlinear_arith);
    }
}

/// Nearest-point decoding of small noise plus `p / 2` times a bit gives the bit.
proof fn lemma_decode_small_noise(e: int, bit: bool, p: int)
    requires
        0 < p,
        4 * (if e >= 0 { e } else { -e }) < 2 * (p / 2),
    ensures
        decode(e + if bit { p / 2 } else { 0 }, p) == bit,
{
    let h = p / 2;
    let x = e + if bit { h } else { 0 };
    if x >= 0 {
        lemma_small_mod(x as nat, p as nat);
    } else {
        lemma_mod_add_multiples_vanish(x, p);
        lemma_small_mod((p + x) as nat, p as nat);
    }
}

/// Decryption recovers every bit of a message encrypted under a public key of
/// the secret key, whenever the rows chosen for the encryption carry little
/// noise: `k` rows, each with noise at most `eta`, and `4 k eta < 2 (p / 2)`.
pub proof fn decryption_recovers_message(
    s: Seq<Z>,
    pk: Seq<(Vec<Z>, Z)>,
    sub: Seq<usize>,
    msg: Seq<bool>,
    ct: Seq<(Vec<Z>, Z)>,
    bits: Seq<bool>,
    n: int,
    m: int,
    p: int,
    eta: int,
)
    requires
        0 < p <= MAX_MODULUS,
        0 <= eta,
        s.len() == n,
        is_public_key(pk, s, n, m, p, eta),
        indices_below(sub, m),
        encrypts(ct, pk, sub, msg, n, p),
        decrypts(bits, ct, s, p),
        4 * (sub.len() * eta) < 2 * (p / 2),
    ensures
        bits == msg,
{
    let k = sub.len() as int;
    let e = noise_sum(pk, sub, s, p, k);
    let v = subset_vector(pk, sub, n, p);
    let ss = scalar_sum(pk, sub, k);
    lemma_noise_bound(pk, sub, s, m, p, eta, k);
    lemma_scalar_sum(pk, sub, s, p, k);
    lemma_reduced_columns(pk, sub, s, n, p, n);
    lemma_column_dots(pk, sub, s, k, n);
    assert forall|i: int| 0 <= i < bits.len() implies #[trigger] bits[i] == msg[i] by {
        let bv = if msg[i] { p / 2 } else { 0 };
        assert(ct[i].0@ == v);
        assert(ct[i].1 == Z::of_int(ss + bv, p));
        lemma_mod_bound(ss + bv, p);
        let dv = dot(v, s, n);
        let x = ct[i].1.value - dv;
        assert(x == (ss + bv) % p - dv);
        lemma_sub_mod_noop_right((ss + bv) % p, dv, p);
        lemma_sub_mod_noop(ss + bv, dv, p);
        lemma_add_congruent(ss, bv, row_dots(pk, sub, s, k, n) + e, bv, p);
        lemma_sub_congruent(ss + bv, dv, row_dots(pk, sub, s, k, n) + e + bv, row_dots(pk, sub, s, k, n), p);
        assert(x % p == (e + bv) % p);
        lemma_decode_small_noise(e, msg[i], p);
    }
    assert(bits =~= msg);
}

} // verus!
