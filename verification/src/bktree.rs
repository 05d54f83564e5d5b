//! A BK-tree: strings arranged by their distances to one another, so that a
//! best-match query can leave out whole subtrees.
use crate::levenshtein::{levenshtein, LevenshteinAutomaton, MAX_LEN};
use crate::listing::{
    bk_insert, bk_insert_all, lemma_bk_insert_behind, lemma_bk_insert_contains,
    lemma_bk_insert_in_run, lemma_concat_contains, lemma_distinct_concat,
};
use crate::metric::{
    edit_budget, lemma_lev_reverse_triangle, lemma_lev_self, lemma_lev_symmetric,
    lemma_lev_zero, lev, nearest, string_texts, texts, within,
};
use std::collections::HashMap;
use vstd::prelude::*;

verus! {

broadcast use vstd::std_specs::hash::group_hash_axioms;

/// `u32::abs_diff` returns the difference between the larger and the
/// smaller of the two numbers.
pub assume_specification[ u32::abs_diff ](a: u32, b: u32) -> (r: u32)
    ensures
        r == if a >= b {
            a - b
        } else {
            b - a
        },
;

/// The number of strings in the subtrees waiting on a stack.
spec fn waiting(stack: Seq<&Tree>) -> nat
    decreases stack.len(),
{
    if stack.len() == 0 {
        0
    } else {
        waiting(stack.drop_last()) + stack.last().values().len()
    }
}

/// The string `v` is in one of the subtrees on the stack.
spec fn on_stack(stack: Seq<&Tree>, v: Seq<char>) -> bool {
    exists|j: int| 0 <= j < stack.len() && (#[trigger] stack[j]).values().contains(v)
}

/// The string `v` is below one of the children from position `from` on.
spec fn below(cs: Seq<(u32, Tree)>, from: int, v: Seq<char>) -> bool {
    exists|i: int| from <= i < cs.len() && (#[trigger] cs[i]).1.values().contains(v)
}

/// A node of the tree with the subtrees below it. Each child is keyed by the
/// distance that all strings below it have to this node's value.
#[derive(Debug)]
pub struct Tree {
    value: String,
    // Expensive to iterate over HashMap as O(capacity) rather than O(len)
    children_index: HashMap<u32, usize>,
    children: Vec<(u32, Tree)>,
}

impl Tree {
    /// The strings of the subtree: the node's own, then those of each child
    /// in turn.
    pub closed spec fn values(&self) -> Seq<Seq<char>>
        decreases self,
    {
        seq![self.value@] + Self::values_of(self.children@, self.children@.len() as int)
    }

    /// The strings of the first `n` children.
    pub closed spec fn values_of(cs: Seq<(u32, Tree)>, n: int) -> Seq<Seq<char>>
        decreases cs, n,
    {
        if n <= 0 || n > cs.len() {
            Seq::empty()
        } else {
            Self::values_of(cs, n - 1) + cs[n - 1].1.values()
        }
    }

    /// The index finds each child by its key, and holds nothing else.
    pub closed spec fn index_ok(index: Map<u32, usize>, cs: Seq<(u32, Tree)>) -> bool {
        &&& forall|i: int|
            0 <= i < cs.len() ==> index.contains_key((#[trigger] cs[i]).0) && index[cs[i].0] == i
        &&& forall|d: u32| #[trigger]
            index.contains_key(d) ==> index[d] < cs.len() && cs[index[d] as int].0 == d
    }

    /// The subtree is well formed: no string is longer than `MAX_LEN`, and
    /// every string below a child is at the child's key from this node's
    /// value.
    pub closed spec fn wf(&self) -> bool
        decreases self,
    {
        &&& self.value@.len() <= MAX_LEN
        &&& Self::index_ok(self.children_index@, self.children@)
        &&& forall|i: int|
            0 <= i < self.children@.len() ==> {
                &&& (#[trigger] self.children@[i]).0 > 0
                &&& self.children@[i].1.wf()
                &&& forall|v: Seq<char>| #[trigger]
                    self.children@[i].1.values().contains(v) ==> lev(v, self.value@)
                        == self.children@[i].0
            }
    }

    /// A string is below the first `n` children exactly when it is below
    /// one of them.
    proof fn lemma_values_of_contains(cs: Seq<(u32, Tree)>, n: int, v: Seq<char>)
        requires
            0 <= n <= cs.len(),
        ensures
            Self::values_of(cs, n).contains(v) <==> exists|i: int|
                0 <= i < n && (#[trigger] cs[i]).1.values().contains(v),
        decreases n,
    {
        if n > 0 {
            Self::lemma_values_of_contains(cs, n - 1, v);
            lemma_concat_contains(Self::values_of(cs, n - 1), cs[n - 1].1.values(), v);
            if cs[n - 1].1.values().contains(v) {
                assert(0 <= n - 1 < n && cs[n - 1].1.values().contains(v));
            }
        }
    }

    /// A string is in the subtree exactly when it is the node's value or in
    /// the subtree of one of the children.
    proof fn lemma_values_contains(&self, v: Seq<char>)
        ensures
            self.values().contains(v) <==> v == self.value@ || exists|i: int|
                0 <= i < self.children@.len() && (#[trigger] self.children@[i]).1.values().contains(v),
    {
        let n = self.children@.len() as int;
        Self::lemma_values_of_contains(self.children@, n, v);
        lemma_concat_contains(seq![self.value@], Self::values_of(self.children@, n), v);
        assert(seq![self.value@][0] == self.value@);
    }

    /// The strings below the children depend on the children's strings
    /// alone.
    proof fn lemma_values_of_same(cs: Seq<(u32, Tree)>, cs2: Seq<(u32, Tree)>, n: int)
        requires
            0 <= n <= cs.len(),
            n <= cs2.len(),
            forall|i: int| 0 <= i < n ==> (#[trigger] cs2[i]).1.values() == cs[i].1.values(),
        ensures
            Self::values_of(cs2, n) == Self::values_of(cs, n),
        decreases n,
    {
        if n > 0 {
            Self::lemma_values_of_same(cs, cs2, n - 1);
            assert(cs2[n - 1].1.values() == cs[n - 1].1.values());
        }
    }

    /// The strings below more children are at least as many.
    proof fn lemma_values_of_grows(cs: Seq<(u32, Tree)>, m: int, n: int)
        requires
            0 <= m <= n <= cs.len(),
        ensures
            Self::values_of(cs, m).len() <= Self::values_of(cs, n).len(),
        decreases n,
    {
        if m < n {
            Self::lemma_values_of_grows(cs, m, n - 1);
        }
    }

    /// No string stands twice below the first `n` children.
    proof fn lemma_children_distinct(&self, n: int)
        requires
            self.wf(),
            0 <= n <= self.children@.len(),
        ensures
            Self::values_of(self.children@, n).no_duplicates(),
        decreases self, n,
    {
        let cs = self.children@;
        if n > 0 {
            let a = Self::values_of(cs, n - 1);
            let b = cs[n - 1].1.values();
            self.lemma_children_distinct(n - 1);
            assert(cs[n - 1].1.wf());
            cs[n - 1].1.lemma_values_distinct();
            assert forall|w: Seq<char>| !(a.contains(w) && b.contains(w)) by {
                if a.contains(w) && b.contains(w) {
                    Self::lemma_values_of_contains(cs, n - 1, w);
                    let j = choose|j: int|
                        0 <= j < n - 1 && (#[trigger] cs[j]).1.values().contains(w);
                    assert(self.children_index@[cs[j].0] == j);
                    assert(self.children_index@[cs[n - 1].0] == n - 1);
                }
            }
            lemma_distinct_concat(a, b);
        }
    }

    /// No string stands twice in a well-formed subtree.
    pub proof fn lemma_distinct(&self)
        requires
            self.wf(),
        ensures
            self.values().no_duplicates(),
    {
        self.lemma_values_distinct();
    }

    /// No string stands twice in the node's own value and the strings below
    /// its children.
    proof fn lemma_values_distinct(&self)
        requires
            self.wf(),
        ensures
            self.values().no_duplicates(),
        decreases self, self.children@.len() + 1,
    {
        let cs = self.children@;
        let n = cs.len() as int;
        let a = seq![self.value@];
        let b = Self::values_of(cs, n);
        self.lemma_children_distinct(n);
        assert forall|w: Seq<char>| !(a.contains(w) && b.contains(w)) by {
            if a.contains(w) && b.contains(w) {
                assert(a[0] == self.value@);
                Self::lemma_values_of_contains(cs, n, w);
                lemma_lev_self(w);
            }
        }
        lemma_distinct_concat(a, b);
    }

    fn new(value: String) -> (r: Self)
        requires
            value@.len() <= MAX_LEN,
        ensures
            r.wf(),
            r.values() == seq![value@],
    {
        let r = Self { value, children_index: HashMap::new(), children: Vec::new() };
        assert(r.values() =~= seq![value@]);
        r
    }

    /// The strings of the children from position `m` up to position `n`.
    pub closed spec fn values_from(cs: Seq<(u32, Tree)>, m: int, n: int) -> Seq<Seq<char>>
        decreases n,
    {
        if m < 0 || n <= m || n > cs.len() {
            Seq::empty()
        } else {
            Self::values_from(cs, m, n - 1) + cs[n - 1].1.values()
        }
    }

    /// The strings of the first `n` children are those of the first `m` and
    /// then those of the others.
    proof fn lemma_values_split(cs: Seq<(u32, Tree)>, m: int, n: int)
        requires
            0 <= m <= n <= cs.len(),
        ensures
            Self::values_of(cs, n) == Self::values_of(cs, m) + Self::values_from(cs, m, n),
        decreases n,
    {
        if m < n {
            Self::lemma_values_split(cs, m, n - 1);
            assert(Self::values_of(cs, n) =~= Self::values_of(cs, m) + Self::values_from(cs, m, n));
        } else {
            assert(Self::values_of(cs, n) =~= Self::values_of(cs, m) + Self::values_from(cs, m, n));
        }
    }

    /// A string below the children from `m` up to `n` is below one of them.
    proof fn lemma_values_from_contains(cs: Seq<(u32, Tree)>, m: int, n: int, v: Seq<char>)
        requires
            0 <= m <= n <= cs.len(),
            Self::values_from(cs, m, n).contains(v),
        ensures
            exists|i: int| m <= i < n && (#[trigger] cs[i]).1.values().contains(v),
        decreases n,
    {
        if m < n {
            lemma_concat_contains(Self::values_from(cs, m, n - 1), cs[n - 1].1.values(), v);
            if cs[n - 1].1.values().contains(v) {
                assert(m <= n - 1 < n && cs[n - 1].1.values().contains(v));
            } else {
                Self::lemma_values_from_contains(cs, m, n - 1, v);
            }
        }
    }

    /// The strings below the children from `m` up to `n` depend on those
    /// children's strings alone.
    proof fn lemma_values_from_same(
        cs: Seq<(u32, Tree)>,
        cs2: Seq<(u32, Tree)>,
        m: int,
        n: int,
    )
        requires
            0 <= m <= n <= cs.len() == cs2.len(),
            forall|i: int| m <= i < n ==> (#[trigger] cs2[i]).1.values() == cs[i].1.values(),
        ensures
            Self::values_from(cs2, m, n) == Self::values_from(cs, m, n),
        decreases n,
    {
        if m < n {
            Self::lemma_values_from_same(cs, cs2, m, n - 1);
            assert(cs2[n - 1].1.values() == cs[n - 1].1.values());
        }
    }

    /// The strings below the children, as those before child `idx`, those of
    /// child `idx`, and those behind it; only those of child `idx` are at
    /// that child's distance from the node's value.
    proof fn lemma_child_run(&self, idx: int)
        requires
            self.wf(),
            0 <= idx < self.children@.len(),
        ensures
            self.values() == seq![self.value@] + Self::values_of(self.children@, idx)
                + self.children@[idx].1.values() + Self::values_from(
                self.children@,
                idx + 1,
                self.children@.len() as int,
            ),
            forall|i: int|
                0 <= i < Self::values_of(self.children@, idx).len() ==> lev(
                    #[trigger] Self::values_of(self.children@, idx)[i],
                    self.value@,
                ) != self.children@[idx].0,
            forall|i: int|
                0 <= i < self.children@[idx].1.values().len() ==> lev(
                    #[trigger] self.children@[idx].1.values()[i],
                    self.value@,
                ) == self.children@[idx].0,
            forall|i: int|
                0 <= i < Self::values_from(
                    self.children@,
                    idx + 1,
                    self.children@.len() as int,
                ).len() ==> lev(
                    #[trigger] Self::values_from(
                        self.children@,
                        idx + 1,
                        self.children@.len() as int,
                    )[i],
                    self.value@,
                ) != self.children@[idx].0,
            self.children@[idx].1.values().len() > 0,
    {
        let cs = self.children@;
        let n = cs.len() as int;
        let d = cs[idx].0;
        let a = Self::values_of(cs, idx);
        let b = cs[idx].1.values();
        let c = Self::values_from(cs, idx + 1, n);
        Self::lemma_values_split(cs, idx + 1, n);
        assert(self.values() =~= seq![self.value@] + a + b + c);
        assert forall|i: int| 0 <= i < a.len() implies lev(#[trigger] a[i], self.value@) != d by {
            assert(a.contains(a[i]));
            Self::lemma_values_of_contains(cs, idx, a[i]);
            let j = choose|j: int| 0 <= j < idx && (#[trigger] cs[j]).1.values().contains(a[i]);
            assert(self.children_index@[cs[j].0] == j);
            assert(self.children_index@[cs[idx].0] == idx);
        }
        assert forall|i: int| 0 <= i < b.len() implies lev(#[trigger] b[i], self.value@) == d by {
            assert(b.contains(b[i]));
        }
        assert forall|i: int| 0 <= i < c.len() implies lev(#[trigger] c[i], self.value@) != d by {
            assert(c.contains(c[i]));
            Self::lemma_values_from_contains(cs, idx + 1, n, c[i]);
            let j = choose|j: int|
                idx + 1 <= j < n && (#[trigger] cs[j]).1.values().contains(c[i]);
            assert(self.children_index@[cs[j].0] == j);
            assert(self.children_index@[cs[idx].0] == idx);
        }
    }

    /// A node stays well formed when a string at the distance of one of its
    /// children is stored in that child.
    proof fn lemma_insert_below_wf(before: Tree, after: Tree, idx: int, v: Seq<char>)
        requires
            before.wf(),
            0 <= idx < before.children@.len(),
            lev(v, before.value@) == before.children@[idx].0,
            after.value == before.value,
            after.children_index == before.children_index,
            after.children@.len() == before.children@.len(),
            forall|i: int|
                0 <= i < before.children@.len() && i != idx ==> after.children@[i]
                    == before.children@[i],
            after.children@[idx].0 == before.children@[idx].0,
            after.children@[idx].1.wf(),
            after.children@[idx].1.values() == bk_insert(before.children@[idx].1.values(), v),
        ensures
            after.wf(),
    {
        let cs = before.children@;
        let cs2 = after.children@;
        let n = cs.len() as int;
        lemma_bk_insert_contains(cs[idx].1.values(), v);
        assert forall|i: int| 0 <= i < n implies {
            &&& (#[trigger] cs2[i]).0 > 0
            &&& cs2[i].1.wf()
            &&& forall|w: Seq<char>| #[trigger]
                cs2[i].1.values().contains(w) ==> lev(w, after.value@) == cs2[i].0
        } by {
            assert(cs[i].1.wf());
            if i == idx {
                assert forall|w: Seq<char>| #[trigger]
                    cs2[i].1.values().contains(w) implies lev(w, after.value@) == cs2[i].0 by {
                    if w != v {
                        assert(cs[idx].1.values().contains(w));
                    }
                }
            }
        }
        assert forall|i: int| 0 <= i < n implies after.children_index@.contains_key(
            (#[trigger] cs2[i]).0,
        ) && after.children_index@[cs2[i].0] == i by {
            assert(before.children_index@.contains_key(cs[i].0));
        }
    }

    /// Storing a string in the child at its distance stores it in the node.
    proof fn lemma_insert_below(before: Tree, after: Tree, idx: int, v: Seq<char>)
        requires
            before.wf(),
            0 <= idx < before.children@.len(),
            lev(v, before.value@) == before.children@[idx].0,
            after.value == before.value,
            after.children@.len() == before.children@.len(),
            forall|i: int|
                0 <= i < before.children@.len() && i != idx ==> after.children@[i]
                    == before.children@[i],
            after.children@[idx].1.values() == bk_insert(before.children@[idx].1.values(), v),
            before.children@[idx].1.values().contains(v) ==> after.children@[idx].1.values()
                == before.children@[idx].1.values(),
        ensures
            after.values() == bk_insert(before.values(), v),
            before.values().contains(v) ==> after.values() == before.values(),
    {
        let cs = before.children@;
        let cs2 = after.children@;
        let n = cs.len() as int;
        let root = before.value@;
        let a = Self::values_of(cs, idx);
        let b = cs[idx].1.values();
        let b2 = cs2[idx].1.values();
        let c = Self::values_from(cs, idx + 1, n);
        before.lemma_child_run(idx);
        lemma_bk_insert_in_run(root, a, b, c, v);
        Self::lemma_values_split(cs2, idx + 1, n);
        Self::lemma_values_of_same(cs, cs2, idx);
        Self::lemma_values_from_same(cs, cs2, idx + 1, n);
        assert(after.values() =~= seq![root] + a + b2 + c);
        if before.values().contains(v) {
            before.lemma_values_contains(v);
            lemma_lev_self(v);
            let i = choose|i: int| 0 <= i < n && (#[trigger] cs[i]).1.values().contains(v);
            assert(before.children_index@[cs[i].0] == i);
            assert(before.children_index@[cs[idx].0] == idx);
        }
    }

    /// Storing a string as a new child, behind all others, stores it in the
    /// node, where no child stands at the string's distance.
    proof fn lemma_insert_new(before: Tree, after: Tree, v: Seq<char>, child: Tree)
        requires
            before.wf(),
            0 < lev(v, before.value@) <= u32::MAX,
            !before.children_index@.contains_key(lev(v, before.value@) as u32),
            before.children@.len() <= usize::MAX,
            after.value == before.value,
            after.children_index@ == before.children_index@.insert(
                lev(v, before.value@) as u32,
                before.children@.len() as usize,
            ),
            after.children@ == before.children@.push((lev(v, before.value@) as u32, child)),
            child.wf(),
            child.values() == seq![v],
        ensures
            after.wf(),
            after.values() == bk_insert(before.values(), v),
            !before.values().contains(v),
    {
        let cs = before.children@;
        let cs2 = after.children@;
        let n = cs.len() as int;
        let root = before.value@;
        let d = lev(v, root);
        let rest = Self::values_of(cs, n);
        assert forall|i: int| 0 <= i < rest.len() implies lev(#[trigger] rest[i], root) != d by {
            assert(rest.contains(rest[i]));
            Self::lemma_values_of_contains(cs, n, rest[i]);
            let j = choose|j: int| 0 <= j < n && (#[trigger] cs[j]).1.values().contains(rest[i]);
            assert(before.children_index@.contains_key(cs[j].0));
        }
        lemma_bk_insert_behind(root, rest, v);
        Self::lemma_values_of_same(cs, cs2, n);
        assert(cs2[n].1.values() == seq![v]);
        assert(after.values() =~= seq![root] + rest + seq![v]);
        if before.values().contains(v) {
            before.lemma_values_contains(v);
            lemma_lev_self(v);
            let i = choose|i: int| 0 <= i < n && (#[trigger] cs[i]).1.values().contains(v);
            assert(before.children_index@.contains_key(cs[i].0));
        }
        assert forall|i: int| 0 <= i < n + 1 implies {
            &&& (#[trigger] cs2[i]).0 > 0
            &&& cs2[i].1.wf()
            &&& forall|w: Seq<char>| #[trigger]
                cs2[i].1.values().contains(w) ==> lev(w, after.value@) == cs2[i].0
        } by {
            if i < n {
                assert(cs[i].1.wf());
            } else {
                assert(seq![v][0] == v);
            }
        }
        assert forall|i: int| 0 <= i < n + 1 implies after.children_index@.contains_key(
            (#[trigger] cs2[i]).0,
        ) && after.children_index@[cs2[i].0] == i by {
            if i < n {
                assert(before.children_index@.contains_key(cs[i].0));
            }
        }
    }

    fn insert(&mut self, value: String)
        requires
            old(self).wf(),
            value@.len() <= MAX_LEN,
        ensures
            final(self).wf(),
            final(self).values() == bk_insert(old(self).values(), value@),
            old(self).values().contains(value@) ==> final(self).values() == old(self).values(),
        decreases *old(self),
    {
        let ghost v = value@;
        let ghost before = *self;
        let distance = levenshtein(value.as_str(), self.value.as_str());
        if distance == 0 {
            proof {
                assert(before.values()[0] == before.value@);
            }
            return ;
        }
        match self.children_index.get(&distance) {
            Some(idx) => {
                let idx = *idx;
                self.children[idx].1.insert(value);
                proof {
                    Self::lemma_insert_below_wf(before, *self, idx as int, v);
                    Self::lemma_insert_below(before, *self, idx as int, v);
                }
            },
            None => {
                self.children_index.insert(distance, self.children.len());
                self.children.push((distance, Self::new(value)));
                proof {
                    Self::lemma_insert_new(
                        before,
                        *self,
                        v,
                        self.children@[self.children@.len() - 1].1,
                    );
                }
            },
        };
    }

    fn find_one(&self, query: &str, max_edits: u32) -> (r: Option<(&str, u32)>)
        requires
            self.wf(),
            query@.len() <= MAX_LEN,
        ensures
            r is Some <==> within(query@, self.values(), max_edits as nat),
            r matches Some((s, d)) ==> nearest(query@, self.values(), s@, d as nat),
    {
        let ghost q = query@;
        let ghost all = self.values();
        let mut best: Option<(&str, u32)> = None;
        let mut bound = max_edits;
        let mut stack = vec![self];
        let automaton = LevenshteinAutomaton::new(query);
        proof {
            assert(stack@ =~= seq![self]);
            assert forall|v: Seq<char>| all.contains(v) implies on_stack(stack@, v) by {
                assert(stack@[0].values().contains(v));
            }
        }
        while stack.len() > 0
            invariant
                automaton.wf(),
                automaton.pattern() == q,
                q == query@,
                all == self.values(),
                q.len() <= MAX_LEN,
                forall|j: int|
                    0 <= j < stack@.len() ==> (#[trigger] stack@[j]).wf() && forall|v: Seq<char>| #[trigger]
                        stack@[j].values().contains(v) ==> all.contains(v),
                forall|v: Seq<char>|
                    all.contains(v) && lev(q, v) <= bound ==> #[trigger] on_stack(stack@, v),
                best is None ==> bound == max_edits,
                best matches Some((s, d)) ==> {
                    &&& all.contains(s@)
                    &&& d == lev(q, s@)
                    &&& d <= max_edits
                    &&& d >= 1
                    &&& bound == d - 1
                },
            decreases waiting(stack@),
        {
            let ghost stack0 = stack@;
            let node = stack.pop().unwrap();
            let ghost rest = stack@;
            proof {
                assert(rest =~= stack0.drop_last());
                assert(node == stack0[stack0.len() - 1]);
                assert(node.wf());
            }
            let distance = automaton.distance(node.value.as_str());
            if distance <= bound {
                best = Some((node.value.as_str(), distance));
                proof {
                    node.lemma_values_contains(node.value@);
                }
                if distance == 0 {
                    proof {
                        assert(all.contains(node.value@));
                        let k = choose|k: int| 0 <= k < all.len() && all[k] == node.value@;
                        assert(lev(q, all[k]) <= max_edits);
                    }
                    return best;
                }
                bound = distance - 1;
            }
            let ghost cs = node.children@;
            proof {
                assert forall|v: Seq<char>|
                    all.contains(v) && lev(q, v) <= bound implies on_stack(stack@, v) || below(
                    cs,
                    0,
                    v,
                ) by {
                    assert(on_stack(stack0, v));
                    let j = choose|j: int|
                        0 <= j < stack0.len() && (#[trigger] stack0[j]).values().contains(v);
                    if j < rest.len() {
                        assert(rest[j].values().contains(v));
                    } else {
                        node.lemma_values_contains(v);
                    }
                }
            }
            let mut i: usize = 0;
            while i < node.children.len()
                invariant
                    node.wf(),
                    cs == node.children@,
                    i <= cs.len(),
                    distance == lev(q, node.value@),
                    forall|j: int|
                        0 <= j < stack0.len() ==> (#[trigger] stack0[j]).wf() && forall|v: Seq<char>| #[trigger]
                            stack0[j].values().contains(v) ==> all.contains(v),
                    node == stack0[stack0.len() - 1],
                    stack0.len() > 0,
                    forall|j: int|
                        0 <= j < stack@.len() ==> (#[trigger] stack@[j]).wf() && forall|v: Seq<char>| #[trigger]
                            stack@[j].values().contains(v) ==> all.contains(v),
                    forall|v: Seq<char>|
                        all.contains(v) && lev(q, v) <= bound ==> #[trigger] on_stack(stack@, v)
                            || below(cs, i as int, v),
                    waiting(stack@) <= waiting(rest) + Self::values_of(cs, i as int).len(),
                decreases cs.len() - i,
            {
                let ghost before = stack@;
                let d = node.children[i].0;
                let pushed = d.abs_diff(distance) <= bound;
                if pushed {
                    stack.push(&node.children[i].1);
                }
                proof {
                    let child = cs[i as int].1;
                    assert(cs[i as int].1.wf());
                    if pushed {
                        assert(stack@.drop_last() =~= before);
                        assert forall|v: Seq<char>| #[trigger]
                            child.values().contains(v) implies all.contains(v) by {
                            node.lemma_values_contains(v);
                        }
                    }
                    assert forall|v: Seq<char>|
                        all.contains(v) && lev(q, v) <= bound implies #[trigger] on_stack(stack@, v)
                        || below(cs, i + 1, v) by {
                        if on_stack(before, v) {
                            let j = choose|j: int|
                                0 <= j < before.len() && (#[trigger] before[j]).values().contains(v);
                            assert(stack@[j].values().contains(v));
                        } else {
                            let i2 = choose|i2: int|
                                i <= i2 < cs.len() && (#[trigger] cs[i2]).1.values().contains(v);
                            if i2 == i {
                                lemma_lev_reverse_triangle(q, node.value@, v);
                                lemma_lev_symmetric(v, node.value@);
                                assert(stack@[stack@.len() - 1].values().contains(v));
                            } else {
                                assert(i + 1 <= i2 < cs.len() && cs[i2].1.values().contains(v));
                            }
                        }
                    }
                }
                i += 1;
            }
            proof {
                assert forall|v: Seq<char>|
                    all.contains(v) && lev(q, v) <= bound implies #[trigger] on_stack(stack@, v) by {
                    assert(!below(cs, cs.len() as int, v));
                }
            }
        }
        proof {
            assert forall|v: Seq<char>| all.contains(v) implies lev(q, v) > bound by {
                if lev(q, v) <= bound {
                    assert(on_stack(stack@, v));
                }
            }
            assert forall|k: int| 0 <= k < all.len() implies lev(q, #[trigger] all[k]) > bound by {
                assert(all.contains(all[k]));
            }
            if best is Some {
                let found = best.unwrap();
                let s = found.0@;
                let k = choose|k: int| 0 <= k < all.len() && all[k] == s;
                assert(lev(q, all[k]) <= max_edits);
            }
        }
        best
    }

    /// The strings of the subtree, in the order of `values`.
    pub fn iter(&self) -> (r: Vec<&str>)
        ensures
            texts(r@) == self.values(),
        decreases self,
    {
        let mut out: Vec<&str> = Vec::new();
        out.push(self.value.as_str());
        let mut i: usize = 0;
        assert(texts(out@) =~= seq![self.value@]);
        while i < self.children.len()
            invariant
                i <= self.children@.len(),
                texts(out@) == seq![self.value@] + Self::values_of(self.children@, i as int),
            decreases self.children@.len() - i,
        {
            let ghost before = out@;
            let mut sub = self.children[i].1.iter();
            let ghost added = sub@;
            out.append(&mut sub);
            assert(texts(out@) =~= texts(before) + texts(added));
            i += 1;
        }
        out
    }
}

impl Clone for Tree {
    /// A copy with the same strings in the same places.
    fn clone(&self) -> (r: Self)
        ensures
            r.values() == self.values(),
            self.wf() ==> r.wf(),
        decreases self,
    {
        let mut children: Vec<(u32, Tree)> = Vec::new();
        let mut i: usize = 0;
        while i < self.children.len()
            invariant
                i <= self.children@.len(),
                children@.len() == i,
                forall|j: int|
                    0 <= j < i ==> {
                        &&& (#[trigger] children@[j]).0 == self.children@[j].0
                        &&& children@[j].1.values() == self.children@[j].1.values()
                        &&& self.children@[j].1.wf() ==> children@[j].1.wf()
                    },
            decreases self.children@.len() - i,
        {
            let d = self.children[i].0;
            let child = self.children[i].1.clone();
            children.push((d, child));
            i += 1;
        }
        let r = Tree {
            value: self.value.clone(),
            children_index: self.children_index.clone(),
            children,
        };
        proof {
            Self::lemma_values_of_same(self.children@, r.children@, self.children@.len() as int);
            if self.wf() {
                assert forall|j: int| 0 <= j < r.children@.len() implies {
                    &&& (#[trigger] r.children@[j]).0 > 0
                    &&& r.children@[j].1.wf()
                    &&& forall|v: Seq<char>| #[trigger]
                        r.children@[j].1.values().contains(v) ==> lev(v, r.value@)
                            == r.children@[j].0
                } by {
                    assert(self.children@[j].1.wf());
                }
                assert forall|j: int| 0 <= j < r.children@.len() implies r.children_index@.contains_key(
                    (#[trigger] r.children@[j]).0,
                ) && r.children_index@[r.children@[j].0] == j by {
                    assert(self.children_index@.contains_key(self.children@[j].0));
                }
            }
        }
        r
    }
}

/// BK-tree storing the strings to search against
#[derive(Debug)]
pub struct BKTree {
    tree: Option<Tree>,
}

impl View for BKTree {
    type V = Seq<Seq<char>>;

    /// The stored strings: each node's own, then those of its children in
    /// the order in which the children were made.
    closed spec fn view(&self) -> Seq<Seq<char>> {
        match self.tree {
            Some(t) => t.values(),
            None => Seq::empty(),
        }
    }
}

impl Clone for BKTree {
    /// A copy with the same strings in the same order.
    fn clone(&self) -> (r: Self)
        ensures
            r@ == self@,
            self.wf() ==> r.wf(),
    {
        match &self.tree {
            Some(t) => Self { tree: Some(t.clone()) },
            None => Self { tree: None },
        }
    }
}

impl Default for BKTree {
    fn default() -> (r: Self)
        ensures
            r.wf(),
            r@ == Seq::<Seq<char>>::empty(),
    {
        Self { tree: None }
    }
}

impl BKTree {
    /// The tree is well formed: every stored string is at most `MAX_LEN`
    /// long and stands where its distances to the strings above it say.
    pub closed spec fn wf(&self) -> bool {
        match self.tree {
            Some(t) => t.wf(),
            None => true,
        }
    }

    /// No string is stored twice.
    pub proof fn lemma_distinct(&self)
        requires
            self.wf(),
        ensures
            self@.no_duplicates(),
    {
        match self.tree {
            Some(t) => {
                t.lemma_distinct();
            },
            None => {},
        }
    }

    /// A tree of `items`, or an empty one.
    pub fn py_new(items: Option<Vec<String>>) -> (r: Self)
        requires
            items matches Some(v) ==> forall|i: int|
                0 <= i < v@.len() ==> (#[trigger] v@[i])@.len() <= MAX_LEN,
        ensures
            r.wf(),
            items is None ==> r@ == Seq::<Seq<char>>::empty(),
            items matches Some(v) ==> r@ == bk_insert_all(Seq::empty(), string_texts(v@)),
    {
        match items {
            Some(v) => Self::from_iter(v),
            None => Self::new(),
        }
    }

    /// An empty tree.
    pub fn new() -> (r: Self)
        ensures
            r.wf(),
            r@ == Seq::<Seq<char>>::empty(),
    {
        Self::default()
    }

    /// Store `value`, unless it is stored already.
    pub fn insert(&mut self, value: String)
        requires
            old(self).wf(),
            value@.len() <= MAX_LEN,
        ensures
            final(self).wf(),
            final(self)@ == bk_insert(old(self)@, value@),
            final(self)@.contains(value@),
            old(self)@.contains(value@) ==> final(self)@ == old(self)@,
    {
        let ghost before = self@;
        let ghost v = value@;
        match self.tree.as_mut() {
            Some(t) => t.insert(value),
            None => {
                self.tree = Some(Tree::new(value));
            },
        }
        proof {
            lemma_bk_insert_contains(before, v);
            assert(self@ == bk_insert(before, v));
            assert(bk_insert(before, v).contains(v));
        }
    }

    /// The stored string equal to `value`, if there is one.
    pub fn get(&self, value: &str) -> (r: Option<&str>)
        requires
            self.wf(),
            value@.len() <= MAX_LEN,
        ensures
            r is Some <==> self@.contains(value@),
            r matches Some(s) ==> s@ == value@,
    {
        let mut node = match self.tree.as_ref() {
            Some(t) => t,
            None => {
                return None;
            },
        };
        loop
            invariant
                self.wf(),
                value@.len() <= MAX_LEN,
                node.wf(),
                self@.contains(value@) <==> node.values().contains(value@),
            ensures
                node.value@ == value@,
                self@.contains(value@),
            decreases node.values().len(),
        {
            let distance = levenshtein(value, node.value.as_str());
            proof {
                node.lemma_values_contains(value@);
                if distance == 0 {
                    lemma_lev_zero(value@, node.value@);
                } else {
                    lemma_lev_self(value@);
                }
            }
            if distance == 0 {
                break ;
            }
            let idx = match node.children_index.get(&distance) {
                Some(idx) => *idx,
                None => {
                    return None;
                },
            };
            proof {
                let cs = node.children@;
                assert(cs[idx as int].1.wf());
                Tree::lemma_values_of_grows(cs, idx + 1, cs.len() as int);
                if node.values().contains(value@) {
                    let i = choose|i: int|
                        0 <= i < cs.len() && (#[trigger] cs[i]).1.values().contains(value@);
                    assert(cs[i].0 == distance);
                }
            }
            node = &node.children[idx].1;
        }
        Some(node.value.as_str())
    }

    /// Whether `value` is stored.
    pub fn contains(&self, value: &str) -> (r: bool)
        requires
            self.wf(),
            value@.len() <= MAX_LEN,
        ensures
            r == self@.contains(value@),
    {
        self.get(value).is_some()
    }

    /// The stored strings, in the order of the view.
    pub fn values(&self) -> (r: Vec<&str>)
        ensures
            texts(r@) == self@,
    {
        self.iter()
    }

    /// Find best match in BK-tree for query
    pub fn find_one(&self, query: &str, max_edits: Option<u32>) -> (r: Option<(&str, u32)>)
        requires
            self.wf(),
            query@.len() <= MAX_LEN,
        ensures
            r is Some <==> within(query@, self@, edit_budget(max_edits)),
            r matches Some((s, d)) ==> nearest(query@, self@, s@, d as nat),
    {
        let tree = match self.tree.as_ref() {
            Some(t) => t,
            None => {
                return None;
            },
        };
        tree.find_one(
            query,
            match max_edits {
                Some(m) => m,
                None => u32::MAX,
            },
        )
    }

    /// Store each of `items`, in their order.
    pub fn extend(&mut self, items: Vec<String>)
        requires
            old(self).wf(),
            forall|i: int| 0 <= i < items@.len() ==> (#[trigger] items@[i])@.len() <= MAX_LEN,
        ensures
            final(self).wf(),
            final(self)@ == bk_insert_all(old(self)@, string_texts(items@)),
    {
        let ghost all = string_texts(items@);
        let ghost before = self@;
        proof {
            assert(all.take(0) =~= Seq::<Seq<char>>::empty());
        }
        for item in it: items
            invariant
                it.seq() == items@,
                all == string_texts(items@),
                self.wf(),
                forall|i: int| 0 <= i < items@.len() ==> (#[trigger] items@[i])@.len() <= MAX_LEN,
                self@ == bk_insert_all(before, all.take(it.index() as int)),
        {
            proof {
                let n = it.index() as int;
                assert(all.take(n + 1).drop_last() =~= all.take(n));
                assert(all.take(n + 1).last() == item@);
            }
            self.insert(item);
        }
        proof {
            assert(all.take(all.len() as int) =~= all);
        }
    }

    /// A tree of `items`, stored in their order.
    pub fn from_iter(items: Vec<String>) -> (r: Self)
        requires
            forall|i: int| 0 <= i < items@.len() ==> (#[trigger] items@[i])@.len() <= MAX_LEN,
        ensures
            r.wf(),
            r@ == bk_insert_all(Seq::empty(), string_texts(items@)),
    {
        let mut tree = Self::new();
        tree.extend(items);
        tree
    }

    /// The stored strings, in the order of the view.
    pub fn iter(&self) -> (r: Vec<&str>)
        ensures
            texts(r@) == self@,
    {
        match &self.tree {
            Some(t) => t.iter(),
            None => {
                let r: Vec<&str> = Vec::new();
                assert(texts(r@) =~= self@);
                r
            },
        }
    }
}

} // verus!
