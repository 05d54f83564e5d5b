//! The edit distance as a mathematical function on sequences of characters,
//! and the facts about it that the rest of the library relies on.
use vstd::prelude::*;

verus! {

/// The smaller of two natural numbers.
pub open spec fn min2(a: nat, b: nat) -> nat {
    if a <= b {
        a
    } else {
        b
    }
}

/// The smallest of three natural numbers.
pub open spec fn min3(a: nat, b: nat, c: nat) -> nat {
    min2(min2(a, b), c)
}

/// Cost of aligning character `x` with character `y`.
pub open spec fn subst_cost(x: char, y: char) -> nat {
    if x == y {
        0
    } else {
        1
    }
}

/// Levenshtein distance: the least number of single-character insertions,
/// deletions and substitutions that turn `a` into `b`, by its recurrence on
/// the last characters. Against an empty string every character counts; else
/// the last characters are aligned, at the cost of a substitution where they
/// differ, or the last character of one of the strings is left out, at the
/// cost of one. That this is the least number of edits is shown where edits
/// are defined, one at a time.
pub open spec fn lev(a: Seq<char>, b: Seq<char>) -> nat
    decreases a.len() + b.len(),
{
    if a.len() == 0 {
        b.len()
    } else if b.len() == 0 {
        a.len()
    } else {
        min3(
            lev(a.drop_last(), b.drop_last()) + subst_cost(a.last(), b.last()),
            lev(a.drop_last(), b) + 1,
            lev(a, b.drop_last()) + 1,
        )
    }
}

/// The distance is symmetric.
pub proof fn lemma_lev_symmetric(a: Seq<char>, b: Seq<char>)
    ensures
        lev(a, b) == lev(b, a),
    decreases a.len() + b.len(),
{
    if a.len() != 0 && b.len() != 0 {
        lemma_lev_symmetric(a.drop_last(), b.drop_last());
        lemma_lev_symmetric(a.drop_last(), b);
        lemma_lev_symmetric(a, b.drop_last());
    }
}

/// A string is at distance zero from itself.
pub proof fn lemma_lev_self(a: Seq<char>)
    ensures
        lev(a, a) == 0,
    decreases a.len(),
{
    if a.len() != 0 {
        lemma_lev_self(a.drop_last());
    }
}

/// The distance to the empty string is the length.
pub proof fn lemma_lev_empty(a: Seq<char>)
    ensures
        lev(a, Seq::<char>::empty()) == a.len(),
        lev(Seq::<char>::empty(), a) == a.len(),
{
}

/// The distance never exceeds the length of the longer string.
pub proof fn lemma_lev_upper(a: Seq<char>, b: Seq<char>)
    ensures
        lev(a, b) <= a.len() || lev(a, b) <= b.len(),
        lev(a, b) <= a.len() + b.len(),
    decreases a.len() + b.len(),
{
    if a.len() != 0 && b.len() != 0 {
        lemma_lev_upper(a.drop_last(), b.drop_last());
    }
}

/// The distance is at least the difference of the two lengths.
pub proof fn lemma_lev_lower(a: Seq<char>, b: Seq<char>)
    ensures
        lev(a, b) + b.len() >= a.len(),
        lev(a, b) + a.len() >= b.len(),
    decreases a.len() + b.len(),
{
    if a.len() != 0 && b.len() != 0 {
        lemma_lev_lower(a.drop_last(), b.drop_last());
        lemma_lev_lower(a.drop_last(), b);
        lemma_lev_lower(a, b.drop_last());
    }
}

/// Only equal strings are at distance zero.
pub proof fn lemma_lev_zero(a: Seq<char>, b: Seq<char>)
    requires
        lev(a, b) == 0,
    ensures
        a == b,
    decreases a.len() + b.len(),
{
    if a.len() == 0 || b.len() == 0 {
        assert(a =~= b);
    } else {
        lemma_lev_zero(a.drop_last(), b.drop_last());
        assert(a =~= a.drop_last().push(a.last()));
        assert(b =~= b.drop_last().push(b.last()));
    }
}

/// The distance is zero exactly between equal strings.
pub proof fn lemma_lev_zero_iff(a: Seq<char>, b: Seq<char>)
    ensures
        lev(a, b) == 0 <==> a == b,
{
    if lev(a, b) == 0 {
        lemma_lev_zero(a, b);
    }
    if a == b {
        lemma_lev_self(a);
    }
}

/// Triangle inequality: going through an intermediate string is never
/// shorter than going directly.
pub proof fn lemma_lev_triangle(a: Seq<char>, b: Seq<char>, c: Seq<char>)
    ensures
        lev(a, c) <= lev(a, b) + lev(b, c),
    decreases a.len() + b.len() + c.len(),
{
    if b.len() == 0 {
        lemma_lev_upper(a, c);
    } else if a.len() == 0 {
        lemma_lev_lower(b, c);
    } else if c.len() == 0 {
        lemma_lev_lower(a, b);
    } else {
        let a1 = a.drop_last();
        let b1 = b.drop_last();
        let c1 = c.drop_last();
        lemma_lev_triangle(a1, b, c);
        lemma_lev_triangle(a, b, c1);
        lemma_lev_triangle(a1, b1, c1);
        lemma_lev_triangle(a, b1, c);
        lemma_lev_triangle(a1, b1, c);
        lemma_lev_triangle(a, b1, c1);
    }
}

/// A consequence of the triangle inequality and symmetry: the distances from
/// two strings to a common third one bound the distance between the two from
/// below.
pub proof fn lemma_lev_reverse_triangle(q: Seq<char>, v: Seq<char>, w: Seq<char>)
    ensures
        lev(q, w) + lev(q, v) >= lev(w, v),
        lev(q, w) + lev(w, v) >= lev(q, v),
{
    lemma_lev_triangle(w, q, v);
    lemma_lev_symmetric(w, q);
    lemma_lev_triangle(q, w, v);
}

/// Distance between the first `i` characters of `p` and the whole of `t`:
/// entry `i` of the column that the text `t` has in the distance table of `p`.
pub open spec fn cell(p: Seq<char>, t: Seq<char>, i: int) -> nat {
    lev(p.take(i), t)
}

/// The least of the entries `0..=k` of the column of `t`.
pub open spec fn col_min(p: Seq<char>, t: Seq<char>, k: int) -> nat
    decreases k,
{
    if k <= 0 {
        cell(p, t, 0)
    } else {
        min2(col_min(p, t, k - 1), cell(p, t, k))
    }
}

/// The least distance between `t` and any prefix of `p`. No text that starts
/// with `t` is closer to `p` than this.
pub open spec fn reach(p: Seq<char>, t: Seq<char>) -> nat {
    col_min(p, t, p.len() as int)
}

/// The first entry of a column is the length of the text, the last one the
/// distance between the pattern and the text.
pub proof fn lemma_cell_ends(p: Seq<char>, t: Seq<char>)
    ensures
        cell(p, t, 0) == t.len(),
        cell(p, t, p.len() as int) == lev(p, t),
{
    assert(p.take(p.len() as int) =~= p);
}

/// The column of the empty text counts the characters of the pattern.
pub proof fn lemma_cell_start(p: Seq<char>, i: int)
    requires
        0 <= i <= p.len(),
    ensures
        cell(p, Seq::<char>::empty(), i) == i,
{
}

/// One more character of text: each entry of the new column is the least of
/// three neighbours.
pub proof fn lemma_cell_step(p: Seq<char>, t: Seq<char>, c: char, i: int)
    requires
        0 <= i < p.len(),
    ensures
        cell(p, t.push(c), 0) == t.len() + 1,
        cell(p, t.push(c), i + 1) == min3(
            cell(p, t, i) + subst_cost(p[i], c),
            cell(p, t, i + 1) + 1,
            cell(p, t.push(c), i) + 1,
        ),
{
    let a = p.take(i + 1);
    let b = t.push(c);
    assert(a.drop_last() =~= p.take(i));
    assert(b.drop_last() =~= t);
    assert(a.last() == p[i]);
    assert(b.last() == c);
}

/// Appending one character to a string moves it by one edit at most.
pub proof fn lemma_lev_push(a: Seq<char>, x: char)
    ensures
        lev(a.push(x), a) <= 1,
{
    lemma_lev_self(a);
    assert(a.push(x).drop_last() =~= a);
}

/// Neighbouring entries of a column differ by one at most.
pub proof fn lemma_cell_vertical(p: Seq<char>, t: Seq<char>, i: int)
    requires
        0 <= i < p.len(),
    ensures
        cell(p, t, i + 1) <= cell(p, t, i) + 1,
        cell(p, t, i) <= cell(p, t, i + 1) + 1,
{
    let a = p.take(i);
    let b = p.take(i + 1);
    assert(b =~= a.push(p[i]));
    lemma_lev_push(a, p[i]);
    lemma_lev_symmetric(b, a);
    lemma_lev_triangle(b, a, t);
    lemma_lev_triangle(a, b, t);
}

/// One more character of text moves each entry of the column by one at
/// most.
pub proof fn lemma_cell_horizontal(p: Seq<char>, t: Seq<char>, c: char, i: int)
    ensures
        cell(p, t.push(c), i) <= cell(p, t, i) + 1,
        cell(p, t, i) <= cell(p, t.push(c), i) + 1,
{
    let a = p.take(i);
    lemma_lev_push(t, c);
    lemma_lev_symmetric(t.push(c), t);
    lemma_lev_triangle(a, t, t.push(c));
    lemma_lev_triangle(a, t.push(c), t);
}

/// Every entry of a column is at least the column's least entry.
pub proof fn lemma_col_min_le(p: Seq<char>, t: Seq<char>, k: int, i: int)
    requires
        0 <= i <= k,
    ensures
        col_min(p, t, k) <= cell(p, t, i),
    decreases k,
{
    if i < k {
        lemma_col_min_le(p, t, k - 1, i);
    }
}

/// The least entry of a column is one of its entries.
pub proof fn lemma_col_min_witness(p: Seq<char>, t: Seq<char>, k: int) -> (i: int)
    requires
        0 <= k,
    ensures
        0 <= i <= k,
        col_min(p, t, k) == cell(p, t, i),
    decreases k,
{
    if k == 0 {
        0
    } else if col_min(p, t, k) == cell(p, t, k) {
        k
    } else {
        lemma_col_min_witness(p, t, k - 1)
    }
}

/// One more character of text never lowers the least entry of the column.
pub proof fn lemma_col_min_step(p: Seq<char>, t: Seq<char>, c: char, k: int)
    requires
        0 <= k <= p.len(),
    ensures
        col_min(p, t, k) <= col_min(p, t.push(c), k),
    decreases k,
{
    if k > 0 {
        lemma_col_min_step(p, t, c, k - 1);
        lemma_cell_step(p, t, c, k - 1);
        lemma_col_min_le(p, t, k - 1, k - 1);
        lemma_col_min_le(p, t.push(c), k - 1, k - 1);
    }
}

/// However a text goes on, its distance to the pattern stays at or above
/// `reach`.
pub proof fn lemma_reach_sound(p: Seq<char>, t: Seq<char>, s: Seq<char>)
    ensures
        reach(p, t) <= reach(p, t + s),
        reach(p, t) <= lev(p, t + s),
    decreases s.len(),
{
    let n = p.len() as int;
    if s.len() == 0 {
        assert(t + s =~= t);
    } else {
        let s1 = s.drop_last();
        lemma_reach_sound(p, t, s1);
        lemma_col_min_step(p, t + s1, s.last(), n);
        assert((t + s1).push(s.last()) =~= t + s);
    }
    lemma_col_min_le(p, t + s, n, n);
    lemma_cell_ends(p, t + s);
}

/// The same ending on both strings brings them no farther apart.
pub proof fn lemma_lev_append(a: Seq<char>, b: Seq<char>, s: Seq<char>)
    ensures
        lev(a + s, b + s) <= lev(a, b),
    decreases s.len(),
{
    if s.len() == 0 {
        assert(a + s =~= a);
        assert(b + s =~= b);
    } else {
        let s1 = s.drop_last();
        lemma_lev_append(a, b, s1);
        assert((a + s).drop_last() =~= a + s1);
        assert((b + s).drop_last() =~= b + s1);
        assert((a + s).last() == (b + s).last());
    }
}

/// Some way for the text to go on brings it as close to the pattern as
/// `reach` says: the rest of the pattern after the prefix that the text is
/// closest to.
pub proof fn lemma_reach_attained(p: Seq<char>, t: Seq<char>) -> (s: Seq<char>)
    ensures
        lev(p, t + s) == reach(p, t),
{
    let n = p.len() as int;
    let i = lemma_col_min_witness(p, t, n);
    let s = p.skip(i);
    lemma_lev_append(p.take(i), t, s);
    assert(p.take(i) + s =~= p);
    lemma_reach_sound(p, t, s);
    s
}

/// A budget of edits can still be met by some continuation of the text
/// exactly when `reach` is within the budget.
pub proof fn lemma_reach_budget(p: Seq<char>, t: Seq<char>, budget: nat)
    ensures
        reach(p, t) <= budget <==> exists|s: Seq<char>| lev(p, #[trigger] (t + s)) <= budget,
{
    if reach(p, t) <= budget {
        let s = lemma_reach_attained(p, t);
        assert(lev(p, t + s) <= budget);
    }
    if exists|s: Seq<char>| lev(p, #[trigger] (t + s)) <= budget {
        let s = choose|s: Seq<char>| lev(p, #[trigger] (t + s)) <= budget;
        lemma_reach_sound(p, t, s);
    }
}

/// The number of edits that a query allows: the bound given, or any number
/// that a `u32` holds.
pub open spec fn edit_budget(max_edits: Option<u32>) -> nat {
    match max_edits {
        Some(m) => m as nat,
        None => u32::MAX as nat,
    }
}

/// Some string of `vals` is within `bound` edits of `q`.
pub open spec fn within(q: Seq<char>, vals: Seq<Seq<char>>, bound: nat) -> bool {
    exists|i: int| 0 <= i < vals.len() && lev(q, #[trigger] vals[i]) <= bound
}

/// `s` is a string of `vals` at distance `d` from `q`, and no string of
/// `vals` is closer to `q`.
pub open spec fn nearest(q: Seq<char>, vals: Seq<Seq<char>>, s: Seq<char>, d: nat) -> bool {
    &&& vals.contains(s)
    &&& d == lev(q, s)
    &&& forall|i: int| 0 <= i < vals.len() ==> d <= lev(q, #[trigger] vals[i])
}

/// Entry `k` of `vals` is at distance `d` from `q`, every earlier entry is
/// farther from `q`, and no later one is closer.
pub open spec fn nearest_at(q: Seq<char>, vals: Seq<Seq<char>>, k: int, d: nat) -> bool {
    &&& 0 <= k < vals.len()
    &&& d == lev(q, vals[k])
    &&& forall|i: int| 0 <= i < k ==> d < lev(q, #[trigger] vals[i])
    &&& forall|i: int| k <= i < vals.len() ==> d <= lev(q, #[trigger] vals[i])
}

/// `s` is the first of the strings of `vals` that are nearest to `q`, at
/// distance `d`.
pub open spec fn first_nearest(q: Seq<char>, vals: Seq<Seq<char>>, s: Seq<char>, d: nat) -> bool {
    exists|k: int| #[trigger] nearest_at(q, vals, k, d) && vals[k] == s
}

/// The first of the nearest strings is a nearest string.
pub proof fn lemma_first_nearest(q: Seq<char>, vals: Seq<Seq<char>>, s: Seq<char>, d: nat)
    requires
        first_nearest(q, vals, s, d),
    ensures
        nearest(q, vals, s, d),
{
    let k = choose|k: int| #[trigger] nearest_at(q, vals, k, d) && vals[k] == s;
    assert(vals[k] == s);
}

/// A string within the bound is in one of two sequences exactly when it is
/// in the two put together.
pub proof fn lemma_within_concat(q: Seq<char>, a: Seq<Seq<char>>, b: Seq<Seq<char>>, bound: nat)
    ensures
        within(q, a + b, bound) <==> within(q, a, bound) || within(q, b, bound),
{
    if within(q, a, bound) {
        let i = choose|i: int| 0 <= i < a.len() && lev(q, #[trigger] a[i]) <= bound;
        assert((a + b)[i] == a[i]);
    }
    if within(q, b, bound) {
        let i = choose|i: int| 0 <= i < b.len() && lev(q, #[trigger] b[i]) <= bound;
        assert((a + b)[a.len() + i] == b[i]);
    }
    if within(q, a + b, bound) {
        let i = choose|i: int| 0 <= i < (a + b).len() && lev(q, #[trigger] (a + b)[i]) <= bound;
        if i < a.len() {
            assert(a[i] == (a + b)[i]);
        } else {
            assert(b[i - a.len()] == (a + b)[i]);
        }
    }
}

/// The first nearest string stays so when strings that are no closer come
/// after.
pub proof fn lemma_nearest_keep(
    q: Seq<char>,
    a: Seq<Seq<char>>,
    b: Seq<Seq<char>>,
    k: int,
    d: nat,
)
    requires
        nearest_at(q, a, k, d),
        d > 0 ==> !within(q, b, (d - 1) as nat),
    ensures
        nearest_at(q, a + b, k, d),
{
    assert forall|i: int| 0 <= i < (a + b).len() implies (if i < k {
        d < lev(q, #[trigger] (a + b)[i])
    } else {
        d <= lev(q, (a + b)[i])
    }) by {
        if i < a.len() {
            assert((a + b)[i] == a[i]);
        } else {
            assert((a + b)[i] == b[i - a.len()]);
        }
    }
    assert((a + b)[k] == a[k]);
}

/// The first nearest string of the later strings is that of all, when the
/// earlier ones are farther.
pub proof fn lemma_nearest_move(
    q: Seq<char>,
    a: Seq<Seq<char>>,
    b: Seq<Seq<char>>,
    k: int,
    d: nat,
)
    requires
        nearest_at(q, b, k, d),
        !within(q, a, d),
    ensures
        nearest_at(q, a + b, a.len() + k, d),
{
    assert forall|i: int| 0 <= i < (a + b).len() implies (if i < a.len() + k {
        d < lev(q, #[trigger] (a + b)[i])
    } else {
        d <= lev(q, (a + b)[i])
    }) by {
        if i < a.len() {
            assert((a + b)[i] == a[i]);
        } else {
            assert((a + b)[i] == b[i - a.len()]);
        }
    }
    assert((a + b)[a.len() + k] == b[k]);
}

/// The character sequences of a sequence of string slices.
pub open spec fn texts(v: Seq<&str>) -> Seq<Seq<char>> {
    Seq::new(v.len(), |i: int| v[i]@)
}

/// The character sequences of a sequence of strings.
pub open spec fn string_texts(v: Seq<String>) -> Seq<Seq<char>> {
    Seq::new(v.len(), |i: int| v[i]@)
}

} // verus!
