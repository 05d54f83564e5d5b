//! Edits, one at a time: why the distance of the recurrence is the least
//! number of single-character insertions, deletions and substitutions that
//! turn one string into another.
use crate::metric::{
    lemma_lev_append, lemma_lev_push, lemma_lev_self, lemma_lev_symmetric, lemma_lev_triangle, lev,
};
use vstd::prelude::*;

verus! {

/// `t` is `s` with one character put in.
pub open spec fn one_insertion(s: Seq<char>, t: Seq<char>) -> bool {
    exists|i: int, c: char| 0 <= i <= s.len() && t == #[trigger] s.insert(i, c)
}

/// `t` is `s` with one character left out.
pub open spec fn one_deletion(s: Seq<char>, t: Seq<char>) -> bool {
    exists|i: int| 0 <= i < s.len() && t == #[trigger] s.remove(i)
}

/// `t` is `s` with one character replaced.
pub open spec fn one_substitution(s: Seq<char>, t: Seq<char>) -> bool {
    exists|i: int, c: char| 0 <= i < s.len() && t == #[trigger] s.update(i, c)
}

/// `t` is `s` after one edit.
pub open spec fn one_edit(s: Seq<char>, t: Seq<char>) -> bool {
    one_insertion(s, t) || one_deletion(s, t) || one_substitution(s, t)
}

/// The strings of `path` lead from `a` to `b`, each by one edit to the next.
pub open spec fn edit_path(path: Seq<Seq<char>>, a: Seq<char>, b: Seq<char>) -> bool {
    &&& path.len() > 0
    &&& path[0] == a
    &&& path[path.len() - 1] == b
    &&& forall|i: int| 0 <= i < path.len() - 1 ==> one_edit(#[trigger] path[i], path[i + 1])
}

/// One edit moves a string by a distance of one at most.
pub proof fn lemma_one_edit(s: Seq<char>, t: Seq<char>)
    requires
        one_edit(s, t),
    ensures
        lev(s, t) <= 1,
{
    if one_insertion(s, t) {
        let (i, c) = choose|i: int, c: char| 0 <= i <= s.len() && t == #[trigger] s.insert(i, c);
        let head = s.take(i);
        let tail = s.skip(i);
        assert(s =~= head + tail);
        assert(t =~= head.push(c) + tail);
        lemma_lev_push(head, c);
        lemma_lev_symmetric(head.push(c), head);
        lemma_lev_append(head, head.push(c), tail);
    } else if one_deletion(s, t) {
        let i = choose|i: int| 0 <= i < s.len() && t == #[trigger] s.remove(i);
        let head = s.take(i);
        let tail = s.skip(i + 1);
        assert(s =~= head.push(s[i]) + tail);
        assert(t =~= head + tail);
        lemma_lev_push(head, s[i]);
        lemma_lev_append(head.push(s[i]), head, tail);
    } else {
        let (i, c) = choose|i: int, c: char| 0 <= i < s.len() && t == #[trigger] s.update(i, c);
        let head = s.take(i);
        let tail = s.skip(i + 1);
        assert(s =~= head.push(s[i]) + tail);
        assert(t =~= head.push(c) + tail);
        lemma_lev_self(head);
        assert(head.push(s[i]).drop_last() =~= head);
        assert(head.push(c).drop_last() =~= head);
        lemma_lev_append(head.push(s[i]), head.push(c), tail);
    }
}

/// No way from `a` to `b` takes fewer edits than the distance.
pub proof fn lemma_edits_at_least(path: Seq<Seq<char>>, a: Seq<char>, b: Seq<char>)
    requires
        edit_path(path, a, b),
    ensures
        lev(a, b) <= path.len() - 1,
    decreases path.len(),
{
    if path.len() == 1 {
        lemma_lev_self(a);
    } else {
        let front = path.drop_last();
        let m = front[front.len() - 1];
        assert(one_edit(path[path.len() - 2], path[path.len() - 1]));
        assert forall|i: int| 0 <= i < front.len() - 1 implies one_edit(
            #[trigger] front[i],
            front[i + 1],
        ) by {
            assert(one_edit(path[i], path[i + 1]));
        }
        lemma_edits_at_least(front, a, m);
        lemma_one_edit(m, b);
        lemma_lev_triangle(a, m, b);
    }
}

/// An edit stays an edit when the same character stands behind both strings.
pub proof fn lemma_one_edit_push(s: Seq<char>, t: Seq<char>, x: char)
    requires
        one_edit(s, t),
    ensures
        one_edit(s.push(x), t.push(x)),
{
    if one_insertion(s, t) {
        let (i, c) = choose|i: int, c: char| 0 <= i <= s.len() && t == #[trigger] s.insert(i, c);
        assert(t.push(x) =~= s.push(x).insert(i, c));
    } else if one_deletion(s, t) {
        let i = choose|i: int| 0 <= i < s.len() && t == #[trigger] s.remove(i);
        assert(t.push(x) =~= s.push(x).remove(i));
    } else {
        let (i, c) = choose|i: int, c: char| 0 <= i < s.len() && t == #[trigger] s.update(i, c);
        assert(t.push(x) =~= s.push(x).update(i, c));
    }
}

/// A way from `a` to `b` in as many edits as the distance says.
pub proof fn lemma_edits_attained(a: Seq<char>, b: Seq<char>) -> (path: Seq<Seq<char>>)
    ensures
        edit_path(path, a, b),
        path.len() - 1 == lev(a, b),
    decreases a.len() + b.len(),
{
    if a.len() == 0 && b.len() == 0 {
        assert(a =~= b);
        seq![a]
    } else if a.len() == 0 {
        let front = lemma_edits_attained(a, b.drop_last());
        assert(b =~= b.drop_last().insert(b.len() - 1, b.last()));
        assert(one_insertion(b.drop_last(), b));
        lemma_path_then(front, a, b.drop_last(), b);
        front.push(b)
    } else if b.len() == 0 || lev(a, b) == lev(a.drop_last(), b) + 1 {
        let rest = lemma_edits_attained(a.drop_last(), b);
        assert(a.drop_last() =~= a.remove(a.len() - 1));
        assert(one_deletion(a, a.drop_last()));
        lemma_path_after(rest, a, a.drop_last(), b);
        seq![a] + rest
    } else if lev(a, b) == lev(a, b.drop_last()) + 1 {
        let front = lemma_edits_attained(a, b.drop_last());
        assert(b =~= b.drop_last().insert(b.len() - 1, b.last()));
        assert(one_insertion(b.drop_last(), b));
        lemma_path_then(front, a, b.drop_last(), b);
        front.push(b)
    } else {
        let x = a.last();
        let inner = lemma_edits_attained(a.drop_last(), b.drop_last());
        let lifted = Seq::new(inner.len(), |i: int| inner[i].push(x));
        assert(a =~= a.drop_last().push(x));
        assert forall|i: int| 0 <= i < lifted.len() - 1 implies one_edit(
            #[trigger] lifted[i],
            lifted[i + 1],
        ) by {
            assert(one_edit(inner[i], inner[i + 1]));
            lemma_one_edit_push(inner[i], inner[i + 1], x);
        }
        let m = b.drop_last().push(x);
        assert(edit_path(lifted, a, m));
        if x == b.last() {
            assert(m =~= b);
            lifted
        } else {
            assert(b =~= m.update(m.len() - 1, b.last()));
            assert(one_substitution(m, b));
            lemma_path_then(lifted, a, m, b);
            lifted.push(b)
        }
    }
}

/// A way from `a` to `m` and one more edit make a way from `a` to `b`.
pub proof fn lemma_path_then(path: Seq<Seq<char>>, a: Seq<char>, m: Seq<char>, b: Seq<char>)
    requires
        edit_path(path, a, m),
        one_edit(m, b),
    ensures
        edit_path(path.push(b), a, b),
{
    let longer = path.push(b);
    assert forall|i: int| 0 <= i < longer.len() - 1 implies one_edit(
        #[trigger] longer[i],
        longer[i + 1],
    ) by {
        if i < path.len() - 1 {
            assert(one_edit(path[i], path[i + 1]));
        }
    }
}

/// One edit and a way from `m` to `b` make a way from `a` to `b`.
pub proof fn lemma_path_after(path: Seq<Seq<char>>, a: Seq<char>, m: Seq<char>, b: Seq<char>)
    requires
        one_edit(a, m),
        edit_path(path, m, b),
    ensures
        edit_path(seq![a] + path, a, b),
{
    let longer = seq![a] + path;
    assert forall|i: int| 0 <= i < longer.len() - 1 implies one_edit(
        #[trigger] longer[i],
        longer[i + 1],
    ) by {
        if i > 0 {
            assert(one_edit(path[i - 1], path[i]));
        }
    }
}

/// The distance between two strings is the least number of edits that turn
/// one into the other: some way takes that many, and none takes fewer.
pub proof fn lemma_lev_is_least_edits(a: Seq<char>, b: Seq<char>)
    ensures
        exists|path: Seq<Seq<char>>| #[trigger] edit_path(path, a, b) && path.len() - 1 == lev(a, b),
        forall|path: Seq<Seq<char>>| #[trigger] edit_path(path, a, b) ==> lev(a, b) <= path.len() - 1,
{
    let path = lemma_edits_attained(a, b);
    assert(edit_path(path, a, b) && path.len() - 1 == lev(a, b));
    assert forall|path: Seq<Seq<char>>| #[trigger] edit_path(path, a, b) implies lev(a, b)
        <= path.len() - 1 by {
        lemma_edits_at_least(path, a, b);
    }
}

} // verus!
