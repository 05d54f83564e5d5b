//! Facts about single bits of 64-bit words, and the counting of set bits.
use vstd::prelude::*;

verus! {

/// Whether bit `i` of `x` is set. Meaningful for `i < 64`.
pub open spec fn bit(x: u64, i: u64) -> bool {
    (x >> i) & 1 == 1
}

/// The word whose `n` lowest bits are set; every bit is set once `n >= 64`.
pub open spec fn low_mask(n: nat) -> u64 {
    if n >= 64 {
        0xffff_ffff_ffff_ffffu64
    } else {
        (((1u64 << (n as u64)) - 1) as u64)
    }
}

/// Number of set bits among the `n` lowest bits of `x`.
pub open spec fn count_bits(x: u64, n: nat) -> nat
    decreases n,
{
    if n == 0 {
        0
    } else {
        count_bits(x, (n - 1) as nat) + if bit(x, (n - 1) as u64) {
            1nat
        } else {
            0nat
        }
    }
}

/// Number of set bits of `x`.
pub open spec fn popcount(x: u64) -> nat {
    count_bits(x, 64)
}

/// Sum of two words modulo 2^64.
pub open spec fn wrapping_sum(x: u64, y: u64) -> u64 {
    if x + y > u64::MAX {
        (x + y - 0x1_0000_0000_0000_0000) as u64
    } else {
        (x + y) as u64
    }
}

/// `u64::count_ones` returns the number of bits that are set in the binary
/// representation of its argument.
pub assume_specification[ u64::count_ones ](x: u64) -> (r: u32)
    ensures
        r == popcount(x),
;

/// `u64::count_zeros` returns the number of bits that are clear in the binary
/// representation of its argument, that is 64 less the number of set bits.
pub assume_specification[ u64::count_zeros ](x: u64) -> (r: u32)
    ensures
        r == 64 - popcount(x),
;

/// Bits of the bitwise combinations of two words.
pub proof fn lemma_bit_ops(x: u64, y: u64, i: u64)
    by (bit_vector)
    requires
        i < 64,
    ensures
        bit(x | y, i) == (bit(x, i) || bit(y, i)),
        bit(x & y, i) == (bit(x, i) && bit(y, i)),
        bit(x ^ y, i) == (bit(x, i) != bit(y, i)),
        bit(!x, i) == !bit(x, i),
        bit(0u64, i) == false,
        bit(0xffff_ffff_ffff_ffffu64, i) == true,
{
}

/// Bits of the word with a single bit set.
pub proof fn lemma_bit_single(k: u64, i: u64)
    by (bit_vector)
    requires
        i < 64,
        k < 64,
    ensures
        bit(1u64 << k, i) == (i == k),
        k < 63 ==> (1u64 << k) << 1 == 1u64 << ((k + 1) as u64),
{
}

/// Bits of the low mask, for fewer than 64 bits.
pub proof fn lemma_bit_shifted_mask(n: u64, i: u64)
    by (bit_vector)
    requires
        i < 64,
        n < 64,
    ensures
        (1u64 << n) >= 1,
        bit((((1u64 << n) - 1) as u64), i) == (i < n),
{
}

/// Bit `i` of `low_mask(n)` is set exactly when `i < n`.
pub proof fn lemma_bit_low_mask(n: nat, i: u64)
    requires
        i < 64,
    ensures
        bit(low_mask(n), i) == (i < n),
{
    if n >= 64 {
        lemma_bit_ops(0, 0, i);
    } else {
        lemma_bit_shifted_mask(n as u64, i);
    }
}

/// A word masked to its `n` lowest bits has at most `n` bits set.
pub proof fn lemma_masked_count(x: u64, n: nat, k: nat)
    requires
        k <= 64,
    ensures
        count_bits(x & low_mask(n), k) <= k,
        count_bits(x & low_mask(n), k) <= n,
    decreases k,
{
    if k > 0 {
        let i = (k - 1) as u64;
        lemma_masked_count(x, n, (k - 1) as nat);
        lemma_bit_low_mask(n, i);
        lemma_bit_ops(x, low_mask(n), i);
    }
}

/// A word whose complement is zero has every bit set.
pub proof fn lemma_complement_zero(x: u64)
    by (bit_vector)
    requires
        !x == 0,
    ensures
        x == 0xffff_ffff_ffff_ffffu64,
{
}

/// The carry that enters position `k` when `a` and `b` are added.
pub open spec fn carry_in(a: u64, b: u64, k: nat) -> bool
    decreases k,
{
    if k == 0 {
        false
    } else {
        let i = (k - 1) as u64;
        let c = carry_in(a, b, (k - 1) as nat);
        (bit(a, i) && bit(b, i)) || (c && (bit(a, i) || bit(b, i)))
    }
}

/// In the sum of two words, the carries are the bits in which the sum
/// differs from the bitwise exclusive or, and each carry is the majority of
/// the three bits one position below.
pub proof fn lemma_adder_carry(a: u64, b: u64, x: u64, i: u64)
    by (bit_vector)
    requires
        x == wrapping_sum(a, b),
        i < 64,
    ensures
        !bit(x ^ a ^ b, 0),
        0 < i ==> bit(x ^ a ^ b, i) == ((bit(a, (i - 1) as u64) && bit(b, (i - 1) as u64)) || (bit(
            x ^ a ^ b,
            (i - 1) as u64,
        ) && (bit(a, (i - 1) as u64) || bit(b, (i - 1) as u64)))),
        bit(x, i) == ((bit(a, i) != bit(b, i)) != bit(x ^ a ^ b, i)),
{
}

/// Each bit of a sum is the exclusive or of the two bits added and the
/// carry that enters the position.
pub proof fn lemma_adder_bit(a: u64, b: u64, x: u64, i: u64)
    requires
        x == wrapping_sum(a, b),
        i < 64,
    ensures
        bit(x ^ a ^ b, i) == carry_in(a, b, i as nat),
        bit(x, i) == ((bit(a, i) != bit(b, i)) != carry_in(a, b, i as nat)),
    decreases i,
{
    lemma_adder_carry(a, b, x, i);
    if i > 0 {
        lemma_adder_bit(a, b, x, (i - 1) as u64);
    }
}

} // verus!
