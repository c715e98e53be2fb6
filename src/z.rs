//! Elements of the prime field `Z/pZ`, each carrying its modulus.

use vstd::arithmetic::div_mod::{lemma_add_mod_noop, lemma_mod_bound, lemma_small_mod};
use vstd::prelude::*;

verus! {

/// The largest modulus a field element may have: products of two
/// representatives then fit in 32 bits, the narrowest `usize`.
pub const MAX_MODULUS: usize = 65536;

/// An integer modulo `modulus`, held by its representative in `[0, modulus)`.
#[derive(Debug, Clone, Copy, PartialEq, Eq, Structural, PartialOrd, Ord)]
pub struct Z {
    pub value: usize,
    pub modulus: usize,
}

/// Circular distance between `a` and `b` on the ring of `p` points.
pub open spec fn circular_distance(a: int, b: int, p: int) -> int {
    let d = if a >= b { a - b } else { b - a };
    if d <= p - d { d } else { p - d }
}

/// Sum of the representatives of the first `k` items.
pub open spec fn total(s: Seq<Z>, k: int) -> int
    decreases k,
{
    if k <= 0 { 0 } else { total(s, k - 1) + s[k - 1].value }
}

/// Sum of the products of the representatives of the first `k` pairs.
pub open spec fn dot(a: Seq<Z>, b: Seq<Z>, k: int) -> int
    decreases k,
{
    if k <= 0 { 0 } else { dot(a, b, k - 1) + a[k - 1].value * b[k - 1].value }
}

/// Every item is an element of the field of `p` elements.
pub open spec fn all_in_field(s: Seq<Z>, p: int) -> bool {
    forall|i: int| 0 <= i < s.len() ==> #[trigger] s[i].in_field(p)
}

impl Z {
    /// The modulus is usable and the representative is reduced.
    pub open spec fn wf(self) -> bool {
        0 < self.modulus <= MAX_MODULUS && self.value < self.modulus
    }

    /// A well-formed element of the field of `p` elements.
    pub open spec fn in_field(self, p: int) -> bool {
        self.wf() && self.modulus == p
    }

    /// The element of the field of `p` elements whose representative is `x mod p`.
    pub open spec fn of_int(x: int, p: int) -> Z {
        Z { value: (x % p) as usize, modulus: p as usize }
    }

    pub open spec fn distance_spec(self, other: Z) -> int {
        circular_distance(self.value as int, other.value as int, self.modulus as int)
    }

    pub open spec fn distance_to_zero_spec(self) -> int {
        circular_distance(self.value as int, 0, self.modulus as int)
    }

    /// `value mod modulus`.
    pub fn new(value: usize, modulus: usize) -> (r: Z)
        requires
            0 < modulus <= MAX_MODULUS,
        ensures
            r == Z::of_int(value as int, modulus as int),
            r.in_field(modulus as int),
    {
        Z { value: value % modulus, modulus }
    }

    /// Circular distance between two elements of one field.
    pub fn distance_to(&self, other: &Z) -> (r: usize)
        requires
            self.wf(),
            other.in_field(self.modulus as int),
        ensures
            r == self.distance_spec(*other),
    {
        let p = self.modulus;
        if self.value < other.value {
            let up = other.value - self.value;
            let down = self.value + p - other.value;
            if up <= down { up } else { down }
        } else if self.value == other.value {
            0
        } else {
            let up = self.value - other.value;
            let down = other.value + p - self.value;
            if up <= down { up } else { down }
        }
    }

    /// Circular distance to zero: `min(v, p - v)`.
    pub fn distance_to_zero(&self) -> (r: usize)
        requires
            self.wf(),
        ensures
            r == self.distance_to_zero_spec(),
            r <= self.modulus / 2,
    {
        if self.value > self.modulus / 2 {
            self.modulus - self.value
        } else {
            self.value
        }
    }

    /// Field addition.
    pub fn add(self, other: Z) -> (r: Z)
        requires
            self.wf(),
            other.in_field(self.modulus as int),
        ensures
            r == Z::of_int(self.value + other.value, self.modulus as int),
            r.in_field(self.modulus as int),
    {
        Z { value: (self.value + other.value) % self.modulus, modulus: self.modulus }
    }

    /// Adds `other` in place.
    pub fn add_assign(&mut self, other: Z)
        requires
            old(self).wf(),
            other.in_field(old(self).modulus as int),
        ensures
            *final(self) == Z::of_int(old(self).value + other.value, old(self).modulus as int),
            final(self).in_field(old(self).modulus as int),
    {
        *self = self.add(other);
    }

    /// Field subtraction, computed as `(a + p - b) mod p`.
    pub fn sub(self, other: Z) -> (r: Z)
        requires
            self.wf(),
            other.in_field(self.modulus as int),
        ensures
            r == Z::of_int(self.value - other.value, self.modulus as int),
            r.in_field(self.modulus as int),
    {
        let p = self.modulus;
        proof {
            lemma_add_mod_noop(self.value - other.value, p as int, p as int);
            lemma_small_mod(0, p as nat);
            assert((p as int) % (p as int) == 0) by {
                vstd::arithmetic::div_mod::lemma_mod_self_0(p as int);
            }
            lemma_mod_bound(self.value - other.value, p as int);
            lemma_small_mod(((self.value - other.value) % (p as int)) as nat, p as nat);
        }
        Z { value: (self.value + p - other.value) % p, modulus: p }
    }

    /// Field multiplication.
    pub fn mul(self, other: Z) -> (r: Z)
        requires
            self.wf(),
            other.in_field(self.modulus as int),
        ensures
            r == Z::of_int(self.value * other.value, self.modulus as int),
            r.in_field(self.modulus as int),
    {
        let p = self.modulus;
        assert(self.value * other.value < MAX_MODULUS * MAX_MODULUS) by (nonlinear_arith)
            requires
                self.value < MAX_MODULUS,
                other.value < MAX_MODULUS,
        ;
        Z { value: (self.value * other.value) % p, modulus: p }
    }
}

/// Sum of all items, folded from zero.
pub fn sum(items: &[Z], modulus: usize) -> (r: Z)
    requires
        0 < modulus <= MAX_MODULUS,
        all_in_field(items@, modulus as int),
    ensures
        r == Z::of_int(total(items@, items@.len() as int), modulus as int),
        r.in_field(modulus as int),
{
    let mut acc = Z::new(0, modulus);
    let mut i: usize = 0;
    while i < items.len()
        invariant
            0 < modulus <= MAX_MODULUS,
            all_in_field(items@, modulus as int),
            i <= items@.len(),
            acc == Z::of_int(total(items@, i as int), modulus as int),
            acc.in_field(modulus as int),
        decreases items@.len() - i,
    {
        let x = items[i];
        assert(x.in_field(modulus as int));
        proof {
            lemma_add_mod_noop(total(items@, i as int), x.value as int, modulus as int);
            lemma_small_mod(x.value as nat, modulus as nat);
        }
        acc = acc.add(x);
        i = i + 1;
    }
    acc
}

/// Inner product of two vectors of equal length over the field.
pub fn inner_product(a: &[Z], b: &[Z], modulus: usize) -> (r: Z)
    requires
        0 < modulus <= MAX_MODULUS,
        a@.len() == b@.len(),
        all_in_field(a@, modulus as int),
        all_in_field(b@, modulus as int),
    ensures
        r == Z::of_int(dot(a@, b@, a@.len() as int), modulus as int),
        r.in_field(modulus as int),
{
    let mut acc = Z::new(0, modulus);
    let mut i: usize = 0;
    while i < a.len()
        invariant
            0 < modulus <= MAX_MODULUS,
            a@.len() == b@.len(),
            all_in_field(a@, modulus as int),
            all_in_field(b@, modulus as int),
            i <= a@.len(),
            acc == Z::of_int(dot(a@, b@, i as int), modulus as int),
            acc.in_field(modulus as int),
        decreases a@.len() - i,
    {
        let x = a[i];
        let y = b[i];
        assert(x.in_field(modulus as int) && y.in_field(modulus as int));
        proof {
            lemma_add_mod_noop(dot(a@, b@, i as int), x.value * y.value, modulus as int);
        }
        acc = acc.add(x.mul(y));
        i = i + 1;
    }
    acc
}

/// Distance is symmetric, and each element lies at distance zero from itself.
pub proof fn distance_symmetric(a: Z, b: Z)
    requires
        a.wf(),
        b.in_field(a.modulus as int),
    ensures
        a.distance_spec(b) == b.distance_spec(a),
        a.distance_spec(a) == 0,
{
}

/// The distance to zero is at most half the modulus, and is the distance to
/// the element zero.
pub proof fn distance_to_zero_bound(a: Z)
    requires
        a.wf(),
    ensures
        a.distance_to_zero_spec() <= a.modulus / 2,
        a.distance_to_zero_spec() == a.distance_spec(Z::of_int(0, a.modulus as int)),
{
    lemma_small_mod(0, a.modulus as nat);
}

} // verus!
