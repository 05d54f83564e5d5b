//! The bit-parallel column: how two words hold a column of the distance
//! table of a pattern of at most 64 characters, and why the word operations
//! of one step turn the column of a text into that of the text with one more
//! character.
use crate::bits::{bit, count_bits, lemma_bit_low_mask, lemma_bit_ops, low_mask, wrapping_sum};
use crate::deltas::{prefix_min, prefix_sum};
use crate::metric::{
    cell, col_min, lemma_cell_ends, lemma_cell_horizontal, lemma_cell_start, lemma_cell_step,
    lemma_cell_vertical, min2, min3,
};
use vstd::prelude::*;

verus! {

/// Bit `i` of `vp` says that entry `i + 1` of the column of `t` is one more
/// than entry `i`, bit `i` of `vn` that it is one less.
pub open spec fn encodes(p: Seq<char>, t: Seq<char>, vp: u64, vn: u64, i: u64) -> bool {
    &&& bit(vp, i) == (cell(p, t, i + 1) == cell(p, t, i as int) + 1)
    &&& bit(vn, i) == (cell(p, t, i + 1) + 1 == cell(p, t, i as int))
}

/// The words encode the whole column of `t`.
pub open spec fn encodes_column(p: Seq<char>, t: Seq<char>, vp: u64, vn: u64) -> bool {
    forall|i: u64| i < p.len() ==> #[trigger] encodes(p, t, vp, vn, i)
}

/// Bit `i` of `pm` says that character `i` of the pattern is `c`.
pub open spec fn marks(p: Seq<char>, c: char, pm: u64) -> bool {
    forall|i: u64| i < p.len() && i < 64 ==> #[trigger] bit(pm, i) == (p[i as int] == c)
}

/// The words that one step computes from the match word `pm` and the old
/// column `vp`, `vn`.
pub open spec fn step_words(pm: u64, vp: u64, vn: u64) -> (u64, u64, u64, u64, u64) {
    let d0 = ((wrapping_sum(pm & vp, vp) ^ vp) | pm) | vn;
    let hp = ((vn | !(d0 | vp)) << 1) | 1;
    let hn = (d0 & vp) << 1;
    (d0, hp, hn, hn | !(d0 | hp), hp & d0)
}

/// What the words of a step hold at position `i`, bit by bit.
pub proof fn lemma_step_bits(pm: u64, vp: u64, vn: u64, i: u64)
    by (bit_vector)
    requires
        vp & vn == 0,
        i < 64,
    ensures
        ({
            let (d0, hp, hn, vp2, vn2) = step_words(pm, vp, vn);
            &&& vp2 & vn2 == 0
            &&& bit(hp, i) == (i == 0 || bit(vn, (i - 1) as u64) || !(bit(d0, (i - 1) as u64)
                || bit(vp, (i - 1) as u64)))
            &&& bit(hn, i) == (i > 0 && bit(d0, (i - 1) as u64) && bit(vp, (i - 1) as u64))
            &&& bit(d0, i) == (bit(pm, i) || bit(vn, i) || bit(hn, i))
            &&& bit(vp2, i) == (bit(hn, i) || !(bit(d0, i) || bit(hp, i)))
            &&& bit(vn2, i) == (bit(hp, i) && bit(d0, i))
        }),
{
}

/// The step at one position, on numbers: `a`, `b` are two neighbouring
/// entries of the old column, `a1`, `b1` those of the new one, and the bits
/// are those of the words at that position.
pub proof fn lemma_step_entry(
    a: int,
    b: int,
    a1: int,
    b1: int,
    same: bool,
    vp: bool,
    vn: bool,
    hp: bool,
    hn: bool,
    d0: bool,
)
    requires
        0 <= a && 0 <= b && 0 <= a1,
        b1 == min3((a + if same { 0int } else { 1int }) as nat, (b + 1) as nat, (a1 + 1) as nat),
        b <= a + 1 && a <= b + 1,
        a1 <= a + 1 && a <= a1 + 1,
        vp == (b == a + 1),
        vn == (b + 1 == a),
        hp == (a1 == a + 1),
        hn == (a1 + 1 == a),
        d0 == (same || vn || hn),
    ensures
        d0 == (b1 == a),
        (hn || !(d0 || hp)) == (b1 == a1 + 1),
        (hp && d0) == (b1 + 1 == a1),
        (vn || !(d0 || vp)) == (b1 == b + 1),
        (d0 && vp) == (b1 + 1 == b),
{
}

/// The words of a step encode the first `k` positions of the new column, and
/// the horizontal words say at position `k` how the entry moved.
pub proof fn lemma_step_prefix(
    p: Seq<char>,
    t: Seq<char>,
    c: char,
    pm: u64,
    vp: u64,
    vn: u64,
    k: u64,
)
    requires
        p.len() <= 64,
        k <= p.len(),
        vp & vn == 0,
        encodes_column(p, t, vp, vn),
        marks(p, c, pm),
    ensures
        forall|i: u64| i < k ==> #[trigger] encodes(p, t.push(c), step_words(pm, vp, vn).3, step_words(pm, vp, vn).4, i),
        k < 64 ==> {
            &&& bit(step_words(pm, vp, vn).1, k) == (cell(p, t.push(c), k as int) == cell(p, t, k as int) + 1)
            &&& bit(step_words(pm, vp, vn).2, k) == (cell(p, t.push(c), k as int) + 1 == cell(p, t, k as int))
        },
    decreases k,
{
    let t1 = t.push(c);
    if k == 0 {
        lemma_step_bits(pm, vp, vn, 0);
        lemma_cell_ends(p, t);
        lemma_cell_ends(p, t1);
    } else {
        let i = (k - 1) as u64;
        lemma_step_prefix(p, t, c, pm, vp, vn, i);
        lemma_step_bits(pm, vp, vn, i);
        if k < 64 {
            lemma_step_bits(pm, vp, vn, k);
        }
        lemma_cell_step(p, t, c, i as int);
        lemma_cell_vertical(p, t, i as int);
        lemma_cell_horizontal(p, t, c, i as int);
        assert(encodes(p, t, vp, vn, i));
        let (d0, hp, hn, vp2, vn2) = step_words(pm, vp, vn);
        lemma_step_entry(
            cell(p, t, i as int) as int,
            cell(p, t, i + 1) as int,
            cell(p, t1, i as int) as int,
            cell(p, t1, i + 1) as int,
            p[i as int] == c,
            bit(vp, i),
            bit(vn, i),
            bit(hp, i),
            bit(hn, i),
            bit(d0, i),
        );
        assert(encodes(p, t1, vp2, vn2, i));
    }
}

/// One step of the bit-parallel column is one more character of text.
pub proof fn lemma_step_column(p: Seq<char>, t: Seq<char>, c: char, pm: u64, vp: u64, vn: u64)
    requires
        p.len() <= 64,
        vp & vn == 0,
        encodes_column(p, t, vp, vn),
        marks(p, c, pm),
    ensures
        encodes_column(p, t.push(c), step_words(pm, vp, vn).3, step_words(pm, vp, vn).4),
        step_words(pm, vp, vn).3 & step_words(pm, vp, vn).4 == 0,
{
    lemma_step_prefix(p, t, c, pm, vp, vn, p.len() as u64);
    lemma_step_bits(pm, vp, vn, 0);
}

/// The column of the empty text rises by one at every position.
pub proof fn lemma_start_column(p: Seq<char>)
    requires
        p.len() <= 64,
    ensures
        encodes_column(p, Seq::<char>::empty(), low_mask(p.len()), 0),
        low_mask(p.len()) & 0 == 0,
{
    let e = Seq::<char>::empty();
    assert forall|i: u64| i < p.len() implies #[trigger] encodes(p, e, low_mask(p.len()), 0, i) by {
        lemma_cell_start(p, i as int);
        lemma_cell_start(p, i + 1);
        lemma_bit_low_mask(p.len(), i);
        lemma_bit_ops(0, 0, i);
    }
    let m = low_mask(p.len());
    assert(m & 0 == 0) by (bit_vector);
}

/// Entry `k` of an encoded column is the first entry, plus the rises and
/// less the falls below `k`; above the pattern's length the masked words
/// hold nothing.
pub proof fn lemma_column_sum(p: Seq<char>, t: Seq<char>, vp: u64, vn: u64, k: nat)
    requires
        p.len() <= 64,
        k <= 64,
        encodes_column(p, t, vp, vn),
    ensures
        cell(p, t, min2(k, p.len()) as int) == cell(p, t, 0) + count_bits(
            vp & low_mask(p.len()),
            k,
        ) - count_bits(vn & low_mask(p.len()), k),
    decreases k,
{
    if k > 0 {
        let i = (k - 1) as u64;
        lemma_column_sum(p, t, vp, vn, (k - 1) as nat);
        lemma_bit_low_mask(p.len(), i);
        lemma_bit_ops(vp, low_mask(p.len()), i);
        lemma_bit_ops(vn, low_mask(p.len()), i);
        if i < p.len() {
            assert(encodes(p, t, vp, vn, i));
            lemma_cell_vertical(p, t, i as int);
        }
    }
}

/// The least entry among the first `k + 1` of an encoded column is the first
/// entry plus the least prefix sum of its steps.
pub proof fn lemma_column_min(p: Seq<char>, t: Seq<char>, vp: u64, vn: u64, k: nat)
    requires
        p.len() <= 64,
        k <= 64,
        encodes_column(p, t, vp, vn),
    ensures
        cell(p, t, min2(k, p.len()) as int) == cell(p, t, 0) + prefix_sum(
            vp & low_mask(p.len()),
            !(vn & low_mask(p.len())),
            k,
        ),
        col_min(p, t, min2(k, p.len()) as int) == cell(p, t, 0) + prefix_min(
            vp & low_mask(p.len()),
            !(vn & low_mask(p.len())),
            k,
        ),
    decreases k,
{
    if k > 0 {
        let i = (k - 1) as u64;
        let m = low_mask(p.len());
        lemma_column_min(p, t, vp, vn, (k - 1) as nat);
        lemma_bit_low_mask(p.len(), i);
        lemma_bit_ops(vp, m, i);
        lemma_bit_ops(vn, m, i);
        lemma_bit_ops(vn & m, 0, i);
        if i < p.len() {
            assert(encodes(p, t, vp, vn, i));
            lemma_cell_vertical(p, t, i as int);
        }
    }
}

/// The masked rises stand on positions that the complement of the masked
/// falls keeps.
pub proof fn lemma_masked_disjoint(vp: u64, vn: u64, m: u64)
    by (bit_vector)
    requires
        vp & vn == 0,
    ensures
        (vp & m) & !!(vn & m) == 0,
{
}

} // verus!
