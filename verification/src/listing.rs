//! Listings: the strings of an index in the order in which it hands them
//! out. The strings below one child stand together, so where a new string
//! goes can be said on the listing alone.
use crate::metric::{lemma_lev_zero, lev};
use vstd::prelude::*;

verus! {

/// `new` is `old` with `v` put in at some position.
pub open spec fn inserted(old: Seq<Seq<char>>, new: Seq<Seq<char>>, v: Seq<char>) -> bool {
    exists|k: int| 0 <= k <= old.len() && new == #[trigger] old.insert(k, v)
}

/// A string is in `a + b` exactly when it is in `a` or in `b`.
pub proof fn lemma_concat_contains(a: Seq<Seq<char>>, b: Seq<Seq<char>>, v: Seq<char>)
    ensures
        (a + b).contains(v) <==> a.contains(v) || b.contains(v),
{
    if a.contains(v) {
        let i = choose|i: int| 0 <= i < a.len() && a[i] == v;
        assert((a + b)[i] == v);
    }
    if b.contains(v) {
        let i = choose|i: int| 0 <= i < b.len() && b[i] == v;
        assert((a + b)[a.len() + i] == v);
    }
    if (a + b).contains(v) {
        let i = choose|i: int| 0 <= i < (a + b).len() && (a + b)[i] == v;
        if i < a.len() {
            assert(a[i] == v);
        } else {
            assert(b[i - a.len()] == v);
        }
    }
}

/// What putting `v` in does to membership and length.
pub proof fn lemma_inserted(old: Seq<Seq<char>>, new: Seq<Seq<char>>, v: Seq<char>)
    requires
        inserted(old, new, v),
    ensures
        new.len() == old.len() + 1,
        forall|w: Seq<char>| new.contains(w) <==> (w == v || old.contains(w)),
{
    let k = choose|k: int| 0 <= k <= old.len() && new == #[trigger] old.insert(k, v);
    assert forall|w: Seq<char>| new.contains(w) <==> (w == v || old.contains(w)) by {
        assert(new[k] == v);
        if old.contains(w) {
            let i = choose|i: int| 0 <= i < old.len() && old[i] == w;
            if i < k {
                assert(new[i] == w);
            } else {
                assert(new[i + 1] == w);
            }
        }
        if new.contains(w) && w != v {
            let i = choose|i: int| 0 <= i < new.len() && new[i] == w;
            if i < k {
                assert(old[i] == w);
            } else {
                assert(old[i - 1] == w);
            }
        }
    }
}

/// Two listings without repeated strings and without a string in common
/// make up a listing without repeated strings.
pub proof fn lemma_distinct_concat(a: Seq<Seq<char>>, b: Seq<Seq<char>>)
    requires
        a.no_duplicates(),
        b.no_duplicates(),
        forall|w: Seq<char>| !(a.contains(w) && b.contains(w)),
    ensures
        (a + b).no_duplicates(),
{
    assert forall|i: int, j: int| 0 <= i < a.len() && 0 <= j < b.len() implies a[i] != b[j] by {
        assert(a.contains(a[i]));
        assert(b.contains(b[j]));
    }
    vstd::seq_lib::lemma_no_dup_in_concat(a, b);
}

/// Putting `v` into the middle one of three parts puts it into the whole.
pub proof fn lemma_inserted_within(
    a: Seq<Seq<char>>,
    b: Seq<Seq<char>>,
    b2: Seq<Seq<char>>,
    c: Seq<Seq<char>>,
    v: Seq<char>,
)
    requires
        inserted(b, b2, v),
    ensures
        inserted(a + b + c, a + b2 + c, v),
{
    let k = choose|k: int| 0 <= k <= b.len() && b2 == #[trigger] b.insert(k, v);
    assert(a + b2 + c =~= (a + b + c).insert(a.len() + k, v));
}

/// The position of the first string of `s` that `p` holds of; the length of
/// `s` if there is none.
pub open spec fn run_start(s: Seq<Seq<char>>, p: spec_fn(Seq<char>) -> bool) -> int
    decreases s.len(),
{
    if s.len() == 0 || p(s[0]) {
        0
    } else {
        1 + run_start(s.skip(1), p)
    }
}

/// The number of strings at the start of `s` that `p` holds of.
pub open spec fn run_len(s: Seq<Seq<char>>, p: spec_fn(Seq<char>) -> bool) -> int
    decreases s.len(),
{
    if s.len() == 0 || !p(s[0]) {
        0
    } else {
        1 + run_len(s.skip(1), p)
    }
}

/// The strings of `s` before the first run of strings that `p` holds of.
pub open spec fn before_run(s: Seq<Seq<char>>, p: spec_fn(Seq<char>) -> bool) -> Seq<Seq<char>> {
    s.take(run_start(s, p))
}

/// The first run of strings of `s` that `p` holds of.
pub open spec fn the_run(s: Seq<Seq<char>>, p: spec_fn(Seq<char>) -> bool) -> Seq<Seq<char>> {
    s.skip(run_start(s, p)).take(run_len(s.skip(run_start(s, p)), p))
}

/// The strings of `s` after the first run of strings that `p` holds of.
pub open spec fn after_run(s: Seq<Seq<char>>, p: spec_fn(Seq<char>) -> bool) -> Seq<Seq<char>> {
    s.skip(run_start(s, p)).skip(run_len(s.skip(run_start(s, p)), p))
}

/// A run starts and ends inside the listing.
pub proof fn lemma_run_bounds(s: Seq<Seq<char>>, p: spec_fn(Seq<char>) -> bool)
    ensures
        0 <= run_start(s, p) <= s.len(),
        0 <= run_len(s, p) <= s.len(),
    decreases s.len(),
{
    if s.len() > 0 {
        lemma_run_bounds(s.skip(1), p);
    }
}

/// The three parts make up the listing.
pub proof fn lemma_run_parts(s: Seq<Seq<char>>, p: spec_fn(Seq<char>) -> bool)
    ensures
        before_run(s, p) + the_run(s, p) + after_run(s, p) == s,
        before_run(s, p).len() + the_run(s, p).len() + after_run(s, p).len() == s.len(),
{
    lemma_run_bounds(s, p);
    lemma_run_bounds(s.skip(run_start(s, p)), p);
    assert(before_run(s, p) + the_run(s, p) + after_run(s, p) =~= s);
}

/// Strings that `p` does not hold of come before the run.
pub proof fn lemma_run_start_skips(
    a: Seq<Seq<char>>,
    b: Seq<Seq<char>>,
    p: spec_fn(Seq<char>) -> bool,
)
    requires
        forall|i: int| 0 <= i < a.len() ==> !p(#[trigger] a[i]),
    ensures
        run_start(a + b, p) == a.len() + run_start(b, p),
    decreases a.len(),
{
    if a.len() == 0 {
        assert(a + b =~= b);
    } else {
        assert((a + b)[0] == a[0]);
        assert((a + b).skip(1) =~= a.skip(1) + b);
        assert forall|i: int| 0 <= i < a.skip(1).len() implies !p(#[trigger] a.skip(1)[i]) by {
            assert(a.skip(1)[i] == a[i + 1]);
        }
        lemma_run_start_skips(a.skip(1), b, p);
    }
}

/// Strings that `p` holds of are in the run.
pub proof fn lemma_run_len_takes(
    b: Seq<Seq<char>>,
    c: Seq<Seq<char>>,
    p: spec_fn(Seq<char>) -> bool,
)
    requires
        forall|i: int| 0 <= i < b.len() ==> p(#[trigger] b[i]),
    ensures
        run_len(b + c, p) == b.len() + run_len(c, p),
    decreases b.len(),
{
    if b.len() == 0 {
        assert(b + c =~= c);
    } else {
        assert((b + c)[0] == b[0]);
        assert((b + c).skip(1) =~= b.skip(1) + c);
        assert forall|i: int| 0 <= i < b.skip(1).len() implies p(#[trigger] b.skip(1)[i]) by {
            assert(b.skip(1)[i] == b[i + 1]);
        }
        lemma_run_len_takes(b.skip(1), c, p);
    }
}

/// A listing made of strings that `p` does not hold of, then at least one
/// string that it holds of, then again strings that it does not hold of, has
/// the middle part as its run.
pub proof fn lemma_run_found(
    a: Seq<Seq<char>>,
    b: Seq<Seq<char>>,
    c: Seq<Seq<char>>,
    p: spec_fn(Seq<char>) -> bool,
)
    requires
        forall|i: int| 0 <= i < a.len() ==> !p(#[trigger] a[i]),
        forall|i: int| 0 <= i < b.len() ==> p(#[trigger] b[i]),
        forall|i: int| 0 <= i < c.len() ==> !p(#[trigger] c[i]),
        b.len() > 0,
    ensures
        before_run(a + b + c, p) == a,
        the_run(a + b + c, p) == b,
        after_run(a + b + c, p) == c,
{
    let s = a + b + c;
    assert(s =~= a + (b + c));
    lemma_run_start_skips(a, b + c, p);
    assert((b + c)[0] == b[0]);
    assert(s.skip(a.len() as int) =~= b + c);
    lemma_run_len_takes(b, c, p);
    assert(run_len(c, p) == 0);
    assert(before_run(s, p) =~= a);
    assert(the_run(s, p) =~= b);
    assert(after_run(s, p) =~= c);
}

/// A listing of strings that `p` does not hold of has no run: all of it
/// comes before.
pub proof fn lemma_run_absent(s: Seq<Seq<char>>, p: spec_fn(Seq<char>) -> bool)
    requires
        forall|i: int| 0 <= i < s.len() ==> !p(#[trigger] s[i]),
    ensures
        before_run(s, p) == s,
        the_run(s, p) == Seq::<Seq<char>>::empty(),
        after_run(s, p) == Seq::<Seq<char>>::empty(),
{
    let e = Seq::<Seq<char>>::empty();
    lemma_run_start_skips(s, e, p);
    assert(s + e =~= s);
    assert(s.skip(s.len() as int) =~= e);
    assert(before_run(s, p) =~= s);
    assert(the_run(s, p) =~= e);
    assert(after_run(s, p) =~= e);
}

/// Whether a string is at distance `d` from `root`.
pub open spec fn at_distance(root: Seq<char>, d: nat) -> spec_fn(Seq<char>) -> bool {
    |x: Seq<char>| lev(x, root) == d
}

/// Whether a string has the character `c` at position `k`.
pub open spec fn goes_on_with(k: nat, c: char) -> spec_fn(Seq<char>) -> bool {
    |x: Seq<char>| x.len() > k && x[k as int] == c
}

/// The listing of a BK-tree with the listing `s`, once `v` is stored in it.
///
/// The first string of a listing is the root. Behind it the strings at one
/// distance from the root stand together, as the listing of one child. An
/// empty tree takes `v` as its root; a tree whose root is `v` stays as it is;
/// otherwise `v` is stored in the child at the distance that `v` has from the
/// root, and where there is no such child it becomes one, behind all others.
pub open spec fn bk_insert(s: Seq<Seq<char>>, v: Seq<char>) -> Seq<Seq<char>>
    decreases s.len(),
{
    if s.len() == 0 {
        seq![v]
    } else if lev(v, s[0]) == 0 {
        s
    } else {
        let rest = s.skip(1);
        let p = at_distance(s[0], lev(v, s[0]));
        proof {
            lemma_run_parts(rest, p);
        }
        seq![s[0]] + before_run(rest, p) + bk_insert(the_run(rest, p), v) + after_run(rest, p)
    }
}

/// The listing of a BK-tree with the listing `s`, once each of `items` is
/// stored in it, in their order.
pub open spec fn bk_insert_all(s: Seq<Seq<char>>, items: Seq<Seq<char>>) -> Seq<Seq<char>>
    decreases items.len(),
{
    if items.len() == 0 {
        s
    } else {
        bk_insert(bk_insert_all(s, items.drop_last()), items.last())
    }
}

/// The listing of the node of a trie that `k` characters lead to, with the
/// listing `s`, once `v` is stored below it.
///
/// The string that ends at the node, if there is one, comes first. Behind it
/// the strings that go on with one character stand together, as the listing
/// of one child. A `v` of `k` characters ends at the node, and is stored
/// unless it is there; a longer one is stored in the child of its next
/// character, and where there is no such child it becomes one, behind all
/// others.
pub open spec fn trie_insert(s: Seq<Seq<char>>, v: Seq<char>, k: nat) -> Seq<Seq<char>>
    decreases v.len() - k,
{
    if k >= v.len() {
        if s.len() > 0 && s[0] == v {
            s
        } else {
            seq![v] + s
        }
    } else {
        let p = goes_on_with(k, v[k as int]);
        before_run(s, p) + trie_insert(the_run(s, p), v, k + 1) + after_run(s, p)
    }
}

/// The listing of a trie with the listing `s`, once each of `items` is
/// stored in it, in their order.
pub open spec fn trie_insert_all(s: Seq<Seq<char>>, items: Seq<Seq<char>>) -> Seq<Seq<char>>
    decreases items.len(),
{
    if items.len() == 0 {
        s
    } else {
        trie_insert(trie_insert_all(s, items.drop_last()), items.last(), 0)
    }
}

/// Storing `v` in a BK-tree whose root is `root`, where the strings `b` at
/// the distance of `v` from the root stand between strings `a` and `c` at
/// other distances, stores it among `b`.
pub proof fn lemma_bk_insert_in_run(
    root: Seq<char>,
    a: Seq<Seq<char>>,
    b: Seq<Seq<char>>,
    c: Seq<Seq<char>>,
    v: Seq<char>,
)
    requires
        lev(v, root) != 0,
        b.len() > 0,
        forall|i: int| 0 <= i < a.len() ==> lev(#[trigger] a[i], root) != lev(v, root),
        forall|i: int| 0 <= i < b.len() ==> lev(#[trigger] b[i], root) == lev(v, root),
        forall|i: int| 0 <= i < c.len() ==> lev(#[trigger] c[i], root) != lev(v, root),
    ensures
        bk_insert(seq![root] + a + b + c, v) == seq![root] + a + bk_insert(b, v) + c,
{
    let s = seq![root] + a + b + c;
    let p = at_distance(root, lev(v, root));
    assert(s[0] == root);
    assert(s.skip(1) =~= a + b + c);
    lemma_run_found(a, b, c, p);
    assert(seq![root] + a + bk_insert(b, v) + c =~= seq![root] + before_run(s.skip(1), p)
        + bk_insert(the_run(s.skip(1), p), v) + after_run(s.skip(1), p));
}

/// Storing `v` in a BK-tree whose root is `root`, where no string is at the
/// distance of `v` from the root, puts it behind all others.
pub proof fn lemma_bk_insert_behind(root: Seq<char>, a: Seq<Seq<char>>, v: Seq<char>)
    requires
        lev(v, root) != 0,
        forall|i: int| 0 <= i < a.len() ==> lev(#[trigger] a[i], root) != lev(v, root),
    ensures
        bk_insert(seq![root] + a, v) == seq![root] + a + seq![v],
{
    let s = seq![root] + a;
    let p = at_distance(root, lev(v, root));
    let e = Seq::<Seq<char>>::empty();
    assert(s[0] == root);
    assert(s.skip(1) =~= a);
    lemma_run_absent(a, p);
    assert(bk_insert(e, v) == seq![v]);
    assert(seq![root] + a + seq![v] =~= seq![root] + a + seq![v] + e);
}

/// Storing `v` below a node of a trie, where the strings `b` that go on
/// with the next character of `v` stand between strings `a` and `c` that do
/// not, stores it among `b`.
pub proof fn lemma_trie_insert_in_run(
    a: Seq<Seq<char>>,
    b: Seq<Seq<char>>,
    c: Seq<Seq<char>>,
    v: Seq<char>,
    k: nat,
)
    requires
        k < v.len(),
        b.len() > 0,
        forall|i: int| 0 <= i < a.len() ==> !goes_on_with(k, v[k as int])(#[trigger] a[i]),
        forall|i: int| 0 <= i < b.len() ==> goes_on_with(k, v[k as int])(#[trigger] b[i]),
        forall|i: int| 0 <= i < c.len() ==> !goes_on_with(k, v[k as int])(#[trigger] c[i]),
    ensures
        trie_insert(a + b + c, v, k) == a + trie_insert(b, v, k + 1) + c,
{
    lemma_run_found(a, b, c, goes_on_with(k, v[k as int]));
}

/// Storing `v` below a node of a trie, where no string goes on with the
/// next character of `v`, puts it behind all others.
pub proof fn lemma_trie_insert_behind(a: Seq<Seq<char>>, v: Seq<char>, k: nat)
    requires
        k < v.len(),
        forall|i: int| 0 <= i < a.len() ==> !goes_on_with(k, v[k as int])(#[trigger] a[i]),
    ensures
        trie_insert(a, v, k) == a + trie_insert(Seq::empty(), v, k + 1),
{
    let e = Seq::<Seq<char>>::empty();
    lemma_run_absent(a, goes_on_with(k, v[k as int]));
    assert(a + trie_insert(e, v, k + 1) + e =~= a + trie_insert(e, v, k + 1));
}

/// Storing `v` in a BK-tree leaves the listing as it is, where `v` is in
/// it, or puts `v` in at one position and moves nothing else.
pub proof fn lemma_bk_insert_shape(s: Seq<Seq<char>>, v: Seq<char>)
    ensures
        (bk_insert(s, v) == s && s.contains(v)) || inserted(s, bk_insert(s, v), v),
    decreases s.len(),
{
    if s.len() == 0 {
        assert(bk_insert(s, v) =~= s.insert(0, v));
    } else if lev(v, s[0]) == 0 {
        lemma_lev_zero(v, s[0]);
    } else {
        let rest = s.skip(1);
        let p = at_distance(s[0], lev(v, s[0]));
        let a = seq![s[0]] + before_run(rest, p);
        let b = the_run(rest, p);
        let c = after_run(rest, p);
        lemma_run_parts(rest, p);
        lemma_bk_insert_shape(b, v);
        assert(a + b + c =~= s) by {
            assert(seq![s[0]] + rest =~= s);
            assert(a + b + c =~= seq![s[0]] + (before_run(rest, p) + b + c));
        }
        assert(bk_insert(s, v) == a + bk_insert(b, v) + c);
        if bk_insert(b, v) == b {
            lemma_concat_contains(a, b, v);
            lemma_concat_contains(a + b, c, v);
        } else {
            lemma_inserted_within(a, b, bk_insert(b, v), c, v);
        }
    }
}

/// After `v` is stored in a BK-tree, its listing holds `v` and what it held
/// before.
pub proof fn lemma_bk_insert_contains(s: Seq<Seq<char>>, v: Seq<char>)
    ensures
        bk_insert(s, v).len() == s.len() || bk_insert(s, v).len() == s.len() + 1,
        bk_insert(s, v).contains(v),
        forall|w: Seq<char>| #[trigger]
            bk_insert(s, v).contains(w) <==> (w == v || s.contains(w)),
{
    lemma_bk_insert_shape(s, v);
    if inserted(s, bk_insert(s, v), v) {
        lemma_inserted(s, bk_insert(s, v), v);
    }
}

/// After each of `items` is stored in a BK-tree, its listing holds them and
/// what it held before.
pub proof fn lemma_bk_insert_all_contains(s: Seq<Seq<char>>, items: Seq<Seq<char>>)
    ensures
        forall|w: Seq<char>|
            bk_insert_all(s, items).contains(w) <==> (items.contains(w) || s.contains(w)),
    decreases items.len(),
{
    if items.len() > 0 {
        let front = items.drop_last();
        let last = items.last();
        let mid = bk_insert_all(s, front);
        lemma_bk_insert_all_contains(s, front);
        lemma_bk_insert_contains(mid, last);
        assert forall|w: Seq<char>|
            bk_insert_all(s, items).contains(w) <==> (items.contains(w) || s.contains(w)) by {
            assert(items =~= front + seq![last]);
            lemma_concat_contains(front, seq![last], w);
            assert(seq![last][0] == last);
            assert(mid.contains(w) <==> (front.contains(w) || s.contains(w)));
        }
    }
}

/// Storing `v` in a trie leaves the listing as it is, where `v` is in it, or
/// puts `v` in at one position and moves nothing else.
pub proof fn lemma_trie_insert_shape(s: Seq<Seq<char>>, v: Seq<char>, k: nat)
    ensures
        (trie_insert(s, v, k) == s && s.contains(v)) || inserted(s, trie_insert(s, v, k), v),
    decreases v.len() - k,
{
    if k >= v.len() {
        if s.len() > 0 && s[0] == v {
        } else {
            assert(trie_insert(s, v, k) =~= s.insert(0, v));
        }
    } else {
        let p = goes_on_with(k, v[k as int]);
        let a = before_run(s, p);
        let b = the_run(s, p);
        let c = after_run(s, p);
        lemma_run_parts(s, p);
        lemma_trie_insert_shape(b, v, k + 1);
        if trie_insert(b, v, k + 1) == b {
            lemma_concat_contains(a, b, v);
            lemma_concat_contains(a + b, c, v);
        } else {
            lemma_inserted_within(a, b, trie_insert(b, v, k + 1), c, v);
        }
    }
}

/// After `v` is stored in a trie, its listing holds `v` and what it held
/// before.
pub proof fn lemma_trie_insert_contains(s: Seq<Seq<char>>, v: Seq<char>, k: nat)
    ensures
        trie_insert(s, v, k).len() == s.len() || trie_insert(s, v, k).len() == s.len() + 1,
        trie_insert(s, v, k).contains(v),
        forall|w: Seq<char>| #[trigger]
            trie_insert(s, v, k).contains(w) <==> (w == v || s.contains(w)),
{
    lemma_trie_insert_shape(s, v, k);
    if inserted(s, trie_insert(s, v, k), v) {
        lemma_inserted(s, trie_insert(s, v, k), v);
    }
}

/// After each of `items` is stored in a trie, its listing holds them and
/// what it held before.
pub proof fn lemma_trie_insert_all_contains(s: Seq<Seq<char>>, items: Seq<Seq<char>>)
    ensures
        forall|w: Seq<char>|
            trie_insert_all(s, items).contains(w) <==> (items.contains(w) || s.contains(w)),
    decreases items.len(),
{
    if items.len() > 0 {
        let front = items.drop_last();
        let last = items.last();
        let mid = trie_insert_all(s, front);
        lemma_trie_insert_all_contains(s, front);
        lemma_trie_insert_contains(mid, last, 0);
        assert forall|w: Seq<char>|
            trie_insert_all(s, items).contains(w) <==> (items.contains(w) || s.contains(w)) by {
            assert(items =~= front + seq![last]);
            lemma_concat_contains(front, seq![last], w);
            assert(seq![last][0] == last);
            assert(mid.contains(w) <==> (front.contains(w) || s.contains(w)));
        }
    }
}

} // verus!
