//! Payload bits and the numbers they spell, most significant bit first.

use vstd::arithmetic::power2::{
    lemma2_to64, lemma2_to64_rest, lemma_pow2_adds, lemma_pow2_strictly_increases,
    lemma_pow2_unfold, pow2,
};
use vstd::prelude::*;

verus! {

/// The number that the `n` bits of `bits` from `start` spell, the first
/// bit being the most significant.
pub open spec fn pack_msb(bits: Seq<bool>, start: int, n: nat) -> nat
    decreases n,
{
    if n == 0 {
        0
    } else {
        2 * pack_msb(bits, start, (n - 1) as nat) + if bits[start + n - 1] {
            1nat
        } else {
            0nat
        }
    }
}

/// Bit `k` of the `width` low bits of `value`, counted from the most
/// significant of them.
pub open spec fn msb_bit(value: u8, width: u8, k: u8) -> bool {
    (value >> ((width - 1 - k) as u8)) & 1 == 1
}

/// A number spelled by `n` bits is below `2^n`.
pub proof fn lemma_pack_msb_bound(bits: Seq<bool>, start: int, n: nat)
    ensures
        pack_msb(bits, start, n) < pow2(n),
    decreases n,
{
    if n == 0 {
        lemma2_to64();
    } else {
        lemma_pack_msb_bound(bits, start, (n - 1) as nat);
        lemma_pow2_unfold(n);
    }
}

/// The number spelled depends only on the bits it is read from.
pub proof fn lemma_pack_msb_agrees(a: Seq<bool>, b: Seq<bool>, start: int, n: nat)
    requires
        forall|j: int| start <= j < start + n ==> a[j] == b[j],
    ensures
        pack_msb(a, start, n) == pack_msb(b, start, n),
    decreases n,
{
    if n > 0 {
        lemma_pack_msb_agrees(a, b, start, (n - 1) as nat);
    }
}

/// Seven bits taken from a value below 128, most significant first, spell
/// the value.
pub proof fn lemma_pack_seven(bits: Seq<bool>, start: int, value: u8)
    requires
        value < 128,
        forall|p: int|
            start <= p < start + 7 ==> #[trigger] bits[p] == msb_bit(value, 7, (p - start) as u8),
    ensures
        pack_msb(bits, start, 7) == value,
{
    reveal_with_fuel(pack_msb, 8);
    let b = |j: int| if bits[start + j] { 1nat } else { 0nat };
    assert(pack_msb(bits, start, 7) == 64 * b(0) + 32 * b(1) + 16 * b(2) + 8 * b(3) + 4 * b(4) + 2
        * b(5) + b(6));
    assert(bits[start + 0] == msb_bit(value, 7, 0));
    assert(bits[start + 1] == msb_bit(value, 7, 1));
    assert(bits[start + 2] == msb_bit(value, 7, 2));
    assert(bits[start + 3] == msb_bit(value, 7, 3));
    assert(bits[start + 4] == msb_bit(value, 7, 4));
    assert(bits[start + 5] == msb_bit(value, 7, 5));
    assert(bits[start + 6] == msb_bit(value, 7, 6));
    assert(value < 128 ==> 64 * ((value >> 6) & 1) + 32 * ((value >> 5) & 1) + 16 * ((value >> 4)
        & 1) + 8 * ((value >> 3) & 1) + 4 * ((value >> 2) & 1) + 2 * ((value >> 1) & 1) + ((value
        >> 0) & 1) == value) by (bit_vector);
    assert(forall|s: u8| #![auto] ((value >> s) & 1) == 0 || ((value >> s) & 1) == 1)
        by (bit_vector);
}

/// Eight bits taken from a byte, most significant first, spell the byte.
pub proof fn lemma_pack_eight(bits: Seq<bool>, start: int, value: u8)
    requires
        forall|p: int|
            start <= p < start + 8 ==> #[trigger] bits[p] == msb_bit(value, 8, (p - start) as u8),
    ensures
        pack_msb(bits, start, 8) == value,
{
    reveal_with_fuel(pack_msb, 9);
    let b = |j: int| if bits[start + j] { 1nat } else { 0nat };
    assert(pack_msb(bits, start, 8) == 128 * b(0) + 64 * b(1) + 32 * b(2) + 16 * b(3) + 8 * b(4)
        + 4 * b(5) + 2 * b(6) + b(7));
    assert(bits[start + 0] == msb_bit(value, 8, 0));
    assert(bits[start + 1] == msb_bit(value, 8, 1));
    assert(bits[start + 2] == msb_bit(value, 8, 2));
    assert(bits[start + 3] == msb_bit(value, 8, 3));
    assert(bits[start + 4] == msb_bit(value, 8, 4));
    assert(bits[start + 5] == msb_bit(value, 8, 5));
    assert(bits[start + 6] == msb_bit(value, 8, 6));
    assert(bits[start + 7] == msb_bit(value, 8, 7));
    assert(128 * ((value >> 7) & 1) + 64 * ((value >> 6) & 1) + 32 * ((value >> 5) & 1) + 16 * ((
    value >> 4) & 1) + 8 * ((value >> 3) & 1) + 4 * ((value >> 2) & 1) + 2 * ((value >> 1) & 1) + ((
    value >> 0) & 1) == value) by (bit_vector);
    assert(forall|s: u8| #![auto] ((value >> s) & 1) == 0 || ((value >> s) & 1) == 1)
        by (bit_vector);
}

/// Reads bit `k` of the `width` low bits of `value`, counted from the most
/// significant of them.
pub fn bit_at(value: u8, width: u8, k: u8) -> (b: bool)
    requires
        k < width <= 8,
    ensures
        b == msb_bit(value, width, k),
{
    (value >> (width - 1 - k)) & 1 == 1
}

/// Spells the `n` bits of `bits` from `start` into a byte.
pub fn pack_byte(bits: &Vec<bool>, start: usize, n: usize) -> (b: u8)
    requires
        n <= 8,
        start + n <= bits.len(),
    ensures
        b == pack_msb(bits@, start as int, n as nat),
{
    let mut acc: u16 = 0;
    let mut j: usize = 0;
    proof {
        lemma2_to64();
    }
    while j < n
        invariant
            j <= n <= 8,
            start + n <= bits.len(),
            acc == pack_msb(bits@, start as int, j as nat),
            acc < pow2(j as nat),
        decreases n - j,
    {
        proof {
            lemma2_to64();
            lemma_pow2_unfold((j + 1) as nat);
            lemma_pow2_bound8(j as nat);
        }
        acc = acc * 2 + if bits[start + j] { 1 } else { 0 };
        j += 1;
    }
    proof {
        lemma_pow2_bound8(n as nat);
    }
    acc as u8
}

/// Up to eight bits spell a number that fits in a byte.
pub proof fn lemma_pow2_bound8(n: nat)
    requires
        n <= 8,
    ensures
        pow2(n) <= 256,
    decreases 8 - n,
{
    lemma2_to64();
    if n < 8 {
        lemma_pow2_bound8(n + 1);
        lemma_pow2_unfold(n + 1);
    }
}

/// The number that `a + b` bits spell is the number of the first `a`,
/// shifted by `b` bits, plus the number of the last `b`.
pub proof fn lemma_pack_msb_joins(bits: Seq<bool>, start: int, a: nat, b: nat)
    ensures
        pack_msb(bits, start, a + b) == pack_msb(bits, start, a) * pow2(b) + pack_msb(
            bits,
            start + a,
            b,
        ),
    decreases b,
{
    if b == 0 {
        lemma2_to64();
        assert(pack_msb(bits, start, a) * 1 == pack_msb(bits, start, a));
    } else {
        lemma_pack_msb_joins(bits, start, a, (b - 1) as nat);
        lemma_pow2_adds((b - 1) as nat, 1);
        lemma2_to64();
        let hi = pack_msb(bits, start, a) as int;
        let lo = pack_msb(bits, start + a, (b - 1) as nat) as int;
        let p = pow2((b - 1) as nat) as int;
        let last: int = if bits[start + a + b - 1] {
            1
        } else {
            0
        };
        assert(pack_msb(bits, start, (a + b - 1) as nat) == hi * p + lo);
        assert(pack_msb(bits, start, a + b) == 2 * pack_msb(bits, start, (a + b - 1) as nat)
            + last);
        assert(pack_msb(bits, start + a, b) == 2 * lo + last);
        assert(pow2(b) == p * 2);
        assert(2 * (hi * p + lo) + last == hi * (p * 2) + (2 * lo + last)) by (nonlinear_arith);
    }
}

/// Spells 64 bits into a number.
pub fn pack_word(bits: &Vec<bool>) -> (value: u64)
    requires
        bits.len() == 64,
    ensures
        value == pack_msb(bits@, 0, 64),
{
    let mut value: u64 = 0;
    let mut r: usize = 0;
    while r < 8
        invariant
            r <= 8,
            bits@.len() == 64,
            value == pack_msb(bits@, 0, (8 * r) as nat),
        decreases 8 - r,
    {
        let byte = pack_byte(bits, 8 * r, 8);
        proof {
            lemma_pack_msb_joins(bits@, 0, (8 * r) as nat, 8);
            lemma_pack_msb_bound(bits@, 0, (8 * r) as nat);
            lemma_pack_msb_bound(bits@, 0, (8 * r + 8) as nat);
            lemma_pow2_strictly_increases((8 * r) as nat, 57);
            lemma2_to64();
            lemma2_to64_rest();
        }
        value = value * 256 + byte as u64;
        r += 1;
    }
    value
}

} // verus!
