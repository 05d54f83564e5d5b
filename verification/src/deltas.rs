//! A column of distances written as steps between neighbours: a word of
//! rises (`+1`) and a word whose clear bits are falls (`-1`). The least sum
//! of a run of steps from the start is what pruning needs, and cancelling
//! each fall against an earlier rise leaves it unchanged.
use crate::bits::{bit, carry_in, count_bits, lemma_adder_bit, lemma_bit_ops, wrapping_sum};
use vstd::prelude::*;

verus! {

/// The step at position `i`: `+1` where `up` has the bit, `-1` where `keep`
/// lacks it, both where both hold.
pub open spec fn step_at(up: u64, keep: u64, i: u64) -> int {
    (if bit(up, i) {
        1int
    } else {
        0int
    }) - (if bit(keep, i) {
        0int
    } else {
        1int
    })
}

/// Sum of the first `k` steps.
pub open spec fn prefix_sum(up: u64, keep: u64, k: nat) -> int
    decreases k,
{
    if k == 0 {
        0
    } else {
        prefix_sum(up, keep, (k - 1) as nat) + step_at(up, keep, (k - 1) as u64)
    }
}

/// The least of the sums of the first `0..=k` steps.
pub open spec fn prefix_min(up: u64, keep: u64, k: nat) -> int
    decreases k,
{
    if k == 0 {
        0
    } else {
        let m = prefix_min(up, keep, (k - 1) as nat);
        let s = prefix_sum(up, keep, k);
        if m <= s {
            m
        } else {
            s
        }
    }
}

/// The least prefix sum is at most the last one, and at most zero.
pub proof fn lemma_prefix_min_le(up: u64, keep: u64, k: nat)
    ensures
        prefix_min(up, keep, k) <= prefix_sum(up, keep, k),
        prefix_min(up, keep, k) <= 0,
    decreases k,
{
    if k > 0 {
        lemma_prefix_min_le(up, keep, (k - 1) as nat);
    }
}

/// Adding the rises to the word of kept positions lets each run of rises
/// cancel the first fall above it. Up to position `k` the sums change only
/// by a carry still under way, and the least sum does not change.
pub proof fn lemma_absorb_prefix(up: u64, keep: u64, x: u64, k: nat)
    requires
        up & !keep == 0,
        x == wrapping_sum(keep, up),
        k <= 64,
    ensures
        prefix_sum(up & x, keep | x, k) == prefix_sum(up, keep, k) - if carry_in(keep, up, k) {
            1int
        } else {
            0int
        },
        prefix_min(up & x, keep | x, k) == prefix_min(up, keep, k),
        carry_in(keep, up, k) ==> prefix_sum(up, keep, k) > prefix_min(up, keep, k),
    decreases k,
{
    if k > 0 {
        let i = (k - 1) as u64;
        lemma_absorb_prefix(up, keep, x, (k - 1) as nat);
        lemma_prefix_min_le(up, keep, (k - 1) as nat);
        lemma_adder_bit(keep, up, x, i);
        lemma_bit_ops(up, x, i);
        lemma_bit_ops(keep, x, i);
        lemma_bit_ops(up, !keep, i);
        lemma_bit_ops(keep, keep, i);
        assert(!(bit(up, i) && !bit(keep, i)));
    }
}

/// One round of cancelling keeps the least sum over the whole word.
pub proof fn lemma_absorb(up: u64, keep: u64, x: u64)
    requires
        up & !keep == 0,
        x == wrapping_sum(keep, up),
    ensures
        prefix_min(up & x, keep | x, 64) == prefix_min(up, keep, 64),
{
    lemma_absorb_prefix(up, keep, x, 64);
}

/// One round of cancelling removes at least the lowest rise, and leaves the
/// rises on kept positions.
pub proof fn lemma_absorb_progress(up: u64, keep: u64, x: u64)
    by (bit_vector)
    requires
        up & !keep == 0,
        up != 0,
        x == wrapping_sum(keep, up),
    ensures
        (up & x) < up,
        (up & x) & !(keep | x) == 0,
{
}

/// Without rises every step is a fall or nothing: the least sum is the last
/// one, the number of falls taken from zero.
pub proof fn lemma_only_falls(keep: u64, k: nat)
    requires
        k <= 64,
    ensures
        prefix_sum(0, keep, k) == count_bits(keep, k) - k,
        prefix_min(0, keep, k) == prefix_sum(0, keep, k),
    decreases k,
{
    if k > 0 {
        lemma_only_falls(keep, (k - 1) as nat);
        lemma_bit_ops(0, 0, (k - 1) as u64);
    }
}

/// Without falls no sum is below zero: the least sum is the empty one.
pub proof fn lemma_only_rises(up: u64, k: nat)
    requires
        k <= 64,
    ensures
        prefix_sum(up, 0xffff_ffff_ffff_ffffu64, k) >= 0,
        prefix_min(up, 0xffff_ffff_ffff_ffffu64, k) == 0,
        count_bits(0xffff_ffff_ffff_ffffu64, k) == k,
    decreases k,
{
    if k > 0 {
        lemma_only_rises(up, (k - 1) as nat);
        lemma_bit_ops(0, 0, (k - 1) as u64);
    }
}

} // verus!
