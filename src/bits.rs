//! Conversion between byte buffers and bit sequences, most significant bit
//! of each byte first.

use vstd::arithmetic::div_mod::lemma_fundamental_div_mod;
use vstd::prelude::*;

verus! {

/// Weight of bit `j` of a byte, counting from the most significant bit.
pub open spec fn place(j: int) -> int
    decreases j,
{
    if j <= 0 { 128 } else { place(j - 1) / 2 }
}

/// Bit `j` of `b`, counting from the most significant bit.
pub open spec fn bit_of(b: u8, j: int) -> bool {
    (b as int / place(j)) % 2 == 1
}

/// The byte whose bits, most significant first, are the first `k` of the
/// eight bits of `bits` from `start` on; bits past the end count as clear.
pub open spec fn pack(bits: Seq<bool>, start: int, k: int) -> int
    decreases k,
{
    if k <= 0 {
        0
    } else {
        let b = if start + k - 1 < bits.len() && bits[start + k - 1] { 1int } else { 0int };
        2 * pack(bits, start, k - 1) + b
    }
}

proof fn lemma_pack_bound(bits: Seq<bool>, start: int, k: int)
    requires
        0 <= k <= 8,
    ensures
        0 <= pack(bits, start, k) < pow2_small(k),
    decreases k,
{
    if k > 0 {
        lemma_pack_bound(bits, start, k - 1);
    }
}

/// `2^k` for small `k`.
pub open spec fn pow2_small(k: int) -> int
    decreases k,
{
    if k <= 0 { 1 } else { 2 * pow2_small(k - 1) }
}

proof fn lemma_place_values()
    ensures
        place(0) == 128,
        place(7) == 1,
        forall|j: int| 1 <= j <= 7 ==> #[trigger] place(j - 1) == 2 * place(j),
        forall|j: int| 0 <= j <= 7 ==> #[trigger] place(j) >= 1,
{
    reveal_with_fuel(place, 8);
}

/// The first `k` packed bits of a byte, read back from its bits, are the byte
/// shifted right by `8 - k`.
proof fn lemma_pack_prefix(bits: Seq<bool>, start: int, b: u8, k: int)
    requires
        1 <= k <= 8,
        0 <= start,
        start + 8 <= bits.len(),
        forall|j: int| 0 <= j < 8 ==> #[trigger] bits[start + j] == bit_of(b, j),
    ensures
        pack(bits, start, k) == b as int / place(k - 1),
    decreases k,
{
    lemma_place_values();
    let x = b as int;
    let q = place(k - 1);
    assert(bits[start + (k - 1)] == bit_of(b, k - 1));
    if k == 1 {
        assert(pack(bits, start, 0) == 0);
        assert(x / 128 <= 1);
    } else {
        lemma_pack_prefix(bits, start, b, k - 1);
        assert(place(k - 2) == 2 * q);
        vstd::arithmetic::div_mod::lemma_div_denominator(x, q, 2);
        assert(x / (q * 2) == x / place(k - 2));
        lemma_fundamental_div_mod(x / q, 2);
    }
}

/// Packing the bits of a byte sequence gives the bytes back.
pub proof fn bytes_round_trip(bytes: Seq<u8>, bits: Seq<bool>)
    requires
        bits.len() == 8 * bytes.len(),
        forall|i: int, j: int|
            0 <= i < bytes.len() && 0 <= j < 8 ==> #[trigger] bits[8 * i + j] == bit_of(bytes[i], j),
    ensures
        (bits.len() + 7) / 8 == bytes.len(),
        forall|i: int| 0 <= i < bytes.len() ==> #[trigger] pack(bits, 8 * i, 8) == bytes[i] as int,
{
    assert forall|i: int| 0 <= i < bytes.len() implies #[trigger] pack(bits, 8 * i, 8)
        == bytes[i] as int by {
        assert forall|j: int| 0 <= j < 8 implies #[trigger] bits[8 * i + j] == bit_of(bytes[i], j) by {
        }
        assert(8 * i + 8 <= bits.len()) by (nonlinear_arith)
            requires
                0 <= i < bytes.len(),
                bits.len() == 8 * bytes.len(),
        ;
        lemma_pack_prefix(bits, 8 * i, bytes[i], 8);
        lemma_place_values();
        assert(pack(bits, 8 * i, 8) == bytes[i] as int / place(7));
        assert(bytes[i] as int / 1 == bytes[i] as int);
    }
}

/// The bits of `bytes`, eight per byte, most significant first.
pub fn bits_from_bytes(bytes: &[u8]) -> (r: Vec<bool>)
    requires
        bytes@.len() * 8 <= usize::MAX,
    ensures
        r@.len() == 8 * bytes@.len(),
        forall|i: int, j: int|
            0 <= i < bytes@.len() && 0 <= j < 8 ==> #[trigger] r@[8 * i + j] == bit_of(
                bytes@[i],
                j,
            ),
{
    let mut r: Vec<bool> = Vec::new();
    let mut i: usize = 0;
    while i < bytes.len()
        invariant
            bytes@.len() * 8 <= usize::MAX,
            i <= bytes@.len(),
            r@.len() == 8 * i,
            forall|a: int, j: int|
                0 <= a < i && 0 <= j < 8 ==> #[trigger] r@[8 * a + j] == bit_of(bytes@[a], j),
        decreases bytes@.len() - i,
    {
        let b = bytes[i];
        let mut d: u8 = 128;
        let mut j: usize = 0;
        while j < 8
            invariant
                i < bytes@.len(),
                b == bytes@[i as int],
                j <= 8,
                d as int == place(j as int),
                r@.len() == 8 * i + j,
                forall|a: int, c: int|
                    0 <= a < i && 0 <= c < 8 ==> #[trigger] r@[8 * a + c] == bit_of(bytes@[a], c),
                forall|c: int| 0 <= c < j ==> #[trigger] r@[8 * i + c] == bit_of(b, c),
            decreases 8 - j,
        {
            assert(place(j as int) >= 1) by {
                reveal_with_fuel(place, 8);
            }
            r.push((b / d) % 2 == 1);
            d = d / 2;
            j = j + 1;
        }
        i = i + 1;
    }
    r
}

/// The bytes of `bits`, eight bits per byte, most significant first; a last
/// partial byte is padded with clear bits.
pub fn bits_to_bytes(bits: &[bool]) -> (r: Vec<u8>)
    ensures
        r@.len() == (bits@.len() + 7) / 8,
        forall|i: int| 0 <= i < r@.len() ==> #[trigger] r@[i] as int == pack(bits@, 8 * i, 8),
{
    let len = bits.len();
    let count = len / 8 + if len % 8 == 0 { 0 } else { 1 };
    let mut r: Vec<u8> = Vec::new();
    let mut i: usize = 0;
    while i < count
        invariant
            count == (bits@.len() + 7) / 8,
            len == bits@.len(),
            i <= count,
            r@.len() == i,
            forall|a: int| 0 <= a < i ==> #[trigger] r@[a] as int == pack(bits@, 8 * a, 8),
        decreases count - i,
    {
        assert(8 * i < bits@.len()) by (nonlinear_arith)
            requires
                i < count,
                count == (bits@.len() + 7) / 8,
        ;
        let start = 8 * i;
        let mut acc: u8 = 0;
        let mut j: usize = 0;
        while j < 8
            invariant
                i < count,
                count == (bits@.len() + 7) / 8,
                start == 8 * i,
                start < bits@.len(),
                j <= 8,
                acc as int == pack(bits@, start as int, j as int),
            decreases 8 - j,
        {
            proof {
                lemma_pack_bound(bits@, start as int, j as int);
                reveal_with_fuel(pow2_small, 8);
            }
            let bit: u8 = if j < bits.len() - start && bits[start + j] { 1 } else { 0 };
            acc = 2 * acc + bit;
            j = j + 1;
        }
        r.push(acc);
        i = i + 1;
    }
    r
}

} // verus!
