//! A trie: strings arranged by their characters, so that a best-match query
//! can follow the automaton along the edges and leave out whole subtrees.
use crate::levenshtein::{AutomatonState, LevenshteinAutomaton, MAX_LEN};
use crate::listing::{
    goes_on_with, lemma_concat_contains, lemma_distinct_concat, lemma_trie_insert_behind,
    lemma_trie_insert_contains, lemma_trie_insert_in_run, trie_insert, trie_insert_all,
};
use crate::metric::{
    edit_budget, first_nearest, lemma_nearest_keep, lemma_nearest_move, lemma_reach_sound,
    lemma_within_concat, lev, nearest_at, string_texts, texts, within,
};
use std::collections::HashMap;
use vstd::prelude::*;

verus! {

broadcast use vstd::std_specs::hash::group_hash_axioms;

/// `a` is how `s` begins.
pub open spec fn starts_with(s: Seq<char>, a: Seq<char>) -> bool {
    a.len() <= s.len() && s.take(a.len() as int) == a
}

/// Two characters with the same code point are the same character.
proof fn lemma_code_point(a: char, b: char)
    requires
        a as u32 == b as u32,
    ensures
        a == b,
{
}

/// The characters of a string, one by one.
fn chars_of(s: &str) -> (r: Vec<char>)
    ensures
        r@ == s@,
{
    let mut r: Vec<char> = Vec::new();
    for c in it: s.chars()
        invariant
            it.seq() == s@,
            r@ == s@.take(it.index() as int),
    {
        r.push(c);
        assert(s@.take(it.index() + 1) =~= s@.take(it.index() as int).push(c));
    }
    assert(s@.take(s@.len() as int) =~= s@);
    r
}

/// Trie storing the strings to search against
#[derive(Debug)]
pub struct Trie {
    // Indicates terminal and nice when traversing
    value: Option<String>,
    // Expensive to iterate over HashMap as O(capacity) rather than O(len)
    children_index: HashMap<u32, usize>,
    children: Vec<(char, Trie)>,
}

impl Trie {
    /// The string that ends at this node, if one does.
    pub closed spec fn own(&self) -> Seq<Seq<char>> {
        match self.value {
            Some(s) => seq![s@],
            None => Seq::empty(),
        }
    }

    /// The strings of the subtree: the node's own, then those of each child
    /// in turn.
    pub closed spec fn strings(&self) -> Seq<Seq<char>>
        decreases self,
    {
        self.own() + Self::strings_of(self.children@, self.children@.len() as int)
    }

    /// The strings of the first `n` children.
    pub closed spec fn strings_of(cs: Seq<(char, Trie)>, n: int) -> Seq<Seq<char>>
        decreases cs, n,
    {
        if n <= 0 || n > cs.len() {
            Seq::empty()
        } else {
            Self::strings_of(cs, n - 1) + cs[n - 1].1.strings()
        }
    }

    /// The index finds each child by its character, and holds nothing else.
    pub closed spec fn index_ok(index: Map<u32, usize>, cs: Seq<(char, Trie)>) -> bool {
        &&& forall|i: int|
            0 <= i < cs.len() ==> index.contains_key((#[trigger] cs[i]).0 as u32) && index[cs[i].0 as u32]
                == i
        &&& forall|k: u32| #[trigger]
            index.contains_key(k) ==> index[k] < cs.len() && cs[index[k] as int].0 as u32 == k
    }

    /// The subtree is well formed as the node that `prefix` leads to, but
    /// that the child at position `hole` may be without strings: the string
    /// that ends here is `prefix`, each child is the node that `prefix` and
    /// the child's character lead to, and each other child holds a string.
    pub closed spec fn wf_but(&self, prefix: Seq<char>, hole: int) -> bool
        decreases self,
    {
        &&& prefix.len() <= MAX_LEN
        &&& self.value matches Some(s) ==> s@ == prefix
        &&& Self::index_ok(self.children_index@, self.children@)
        &&& forall|i: int|
            0 <= i < self.children@.len() ==> {
                &&& (#[trigger] self.children@[i]).1.wf_but(prefix.push(self.children@[i].0), -1)
                &&& i != hole ==> self.children@[i].1.strings().len() > 0
            }
    }

    /// The subtree is well formed as the node that `prefix` leads to.
    pub closed spec fn wf_at(&self, prefix: Seq<char>) -> bool {
        self.wf_but(prefix, -1)
    }

    /// The trie is well formed.
    pub closed spec fn wf(&self) -> bool {
        self.wf_at(Seq::empty())
    }

    /// A string is below the first `n` children exactly when it is below
    /// one of them.
    proof fn lemma_strings_of_contains(cs: Seq<(char, Trie)>, n: int, v: Seq<char>)
        requires
            0 <= n <= cs.len(),
        ensures
            Self::strings_of(cs, n).contains(v) <==> exists|i: int|
                0 <= i < n && (#[trigger] cs[i]).1.strings().contains(v),
        decreases n,
    {
        if n > 0 {
            Self::lemma_strings_of_contains(cs, n - 1, v);
            lemma_concat_contains(Self::strings_of(cs, n - 1), cs[n - 1].1.strings(), v);
            if cs[n - 1].1.strings().contains(v) {
                assert(0 <= n - 1 < n && cs[n - 1].1.strings().contains(v));
            }
        }
    }

    /// A string is in the subtree exactly when it ends at the node or is in
    /// the subtree of one of the children.
    proof fn lemma_strings_contains(&self, v: Seq<char>)
        ensures
            self.strings().contains(v) <==> self.own().contains(v) || exists|i: int|
                0 <= i < self.children@.len() && (#[trigger] self.children@[i]).1.strings().contains(v),
    {
        let n = self.children@.len() as int;
        Self::lemma_strings_of_contains(self.children@, n, v);
        lemma_concat_contains(self.own(), Self::strings_of(self.children@, n), v);
    }

    /// Every string of a subtree begins with the path to its root.
    proof fn lemma_strings_start(&self, prefix: Seq<char>, v: Seq<char>)
        requires
            self.wf_at(prefix),
            self.strings().contains(v),
        ensures
            starts_with(v, prefix),
        decreases self,
    {
        self.lemma_strings_contains(v);
        if self.own().contains(v) {
            assert(self.own()[0] == v);
            assert(v.take(v.len() as int) =~= v);
        } else {
            let i = choose|i: int|
                0 <= i < self.children@.len() && (#[trigger] self.children@[i]).1.strings().contains(v);
            let longer = prefix.push(self.children@[i].0);
            self.children@[i].1.lemma_strings_start(longer, v);
            assert(v.take(prefix.len() as int) =~= v.take(longer.len() as int).take(
                prefix.len() as int,
            ));
            assert(longer.take(prefix.len() as int) =~= prefix);
        }
    }

    /// The strings below the children depend on the children's strings
    /// alone.
    proof fn lemma_strings_of_same(cs: Seq<(char, Trie)>, cs2: Seq<(char, Trie)>, n: int)
        requires
            0 <= n <= cs.len(),
            n <= cs2.len(),
            forall|i: int| 0 <= i < n ==> (#[trigger] cs2[i]).1.strings() == cs[i].1.strings(),
        ensures
            Self::strings_of(cs2, n) == Self::strings_of(cs, n),
        decreases n,
    {
        if n > 0 {
            Self::lemma_strings_of_same(cs, cs2, n - 1);
            assert(cs2[n - 1].1.strings() == cs[n - 1].1.strings());
        }
    }

    /// The strings of the children from position `m` up to position `n`.
    pub closed spec fn strings_from(cs: Seq<(char, Trie)>, m: int, n: int) -> Seq<Seq<char>>
        decreases n,
    {
        if m < 0 || n <= m || n > cs.len() {
            Seq::empty()
        } else {
            Self::strings_from(cs, m, n - 1) + cs[n - 1].1.strings()
        }
    }

    /// The strings of the first `n` children are those of the first `m` and
    /// then those of the others.
    proof fn lemma_strings_split(cs: Seq<(char, Trie)>, m: int, n: int)
        requires
            0 <= m <= n <= cs.len(),
        ensures
            Self::strings_of(cs, n) == Self::strings_of(cs, m) + Self::strings_from(cs, m, n),
        decreases n,
    {
        if m < n {
            Self::lemma_strings_split(cs, m, n - 1);
        }
        assert(Self::strings_of(cs, n) =~= Self::strings_of(cs, m) + Self::strings_from(cs, m, n));
    }

    /// A string below the children from `m` up to `n` is below one of them.
    proof fn lemma_strings_from_contains(cs: Seq<(char, Trie)>, m: int, n: int, v: Seq<char>)
        requires
            0 <= m <= n <= cs.len(),
            Self::strings_from(cs, m, n).contains(v),
        ensures
            exists|i: int| m <= i < n && (#[trigger] cs[i]).1.strings().contains(v),
        decreases n,
    {
        if m < n {
            lemma_concat_contains(Self::strings_from(cs, m, n - 1), cs[n - 1].1.strings(), v);
            if cs[n - 1].1.strings().contains(v) {
                assert(m <= n - 1 < n && cs[n - 1].1.strings().contains(v));
            } else {
                Self::lemma_strings_from_contains(cs, m, n - 1, v);
            }
        }
    }

    /// The strings below the children from `m` up to `n` depend on those
    /// children's strings alone.
    proof fn lemma_strings_from_same(
        cs: Seq<(char, Trie)>,
        cs2: Seq<(char, Trie)>,
        m: int,
        n: int,
    )
        requires
            0 <= m <= n <= cs.len() == cs2.len(),
            forall|i: int| m <= i < n ==> (#[trigger] cs2[i]).1.strings() == cs[i].1.strings(),
        ensures
            Self::strings_from(cs2, m, n) == Self::strings_from(cs, m, n),
        decreases n,
    {
        if m < n {
            Self::lemma_strings_from_same(cs, cs2, m, n - 1);
            assert(cs2[n - 1].1.strings() == cs[n - 1].1.strings());
        }
    }

    /// No string below a child is the path to the node itself, and a string
    /// below a child goes on with that child's character.
    proof fn lemma_child_strings(&self, prefix: Seq<char>, hole: int, i: int, v: Seq<char>)
        requires
            self.wf_but(prefix, hole),
            0 <= i < self.children@.len(),
            self.children@[i].1.strings().contains(v),
        ensures
            v.len() > prefix.len(),
            v[prefix.len() as int] == self.children@[i].0,
            starts_with(v, prefix),
    {
        let longer = prefix.push(self.children@[i].0);
        self.children@[i].1.lemma_strings_start(longer, v);
        assert(v.take(longer.len() as int)[prefix.len() as int] == longer[prefix.len() as int]);
        assert(v.take(prefix.len() as int) =~= v.take(longer.len() as int).take(
            prefix.len() as int,
        ));
        assert(longer.take(prefix.len() as int) =~= prefix);
    }

    /// No string stands twice below the first `n` children.
    proof fn lemma_children_distinct(&self, prefix: Seq<char>, n: int)
        requires
            self.wf_at(prefix),
            0 <= n <= self.children@.len(),
        ensures
            Self::strings_of(self.children@, n).no_duplicates(),
        decreases self, n,
    {
        let cs = self.children@;
        if n > 0 {
            let a = Self::strings_of(cs, n - 1);
            let b = cs[n - 1].1.strings();
            self.lemma_children_distinct(prefix, n - 1);
            assert(cs[n - 1].1.wf_at(prefix.push(cs[n - 1].0)));
            cs[n - 1].1.lemma_strings_distinct(prefix.push(cs[n - 1].0));
            assert forall|w: Seq<char>| !(a.contains(w) && b.contains(w)) by {
                if a.contains(w) && b.contains(w) {
                    Self::lemma_strings_of_contains(cs, n - 1, w);
                    let j = choose|j: int|
                        0 <= j < n - 1 && (#[trigger] cs[j]).1.strings().contains(w);
                    self.lemma_child_strings(prefix, -1, j, w);
                    self.lemma_child_strings(prefix, -1, n - 1, w);
                    assert(self.children_index@[cs[j].0 as u32] == j);
                    assert(self.children_index@[cs[n - 1].0 as u32] == n - 1);
                }
            }
            lemma_distinct_concat(a, b);
        }
    }

    /// No string stands twice in a well-formed subtree.
    proof fn lemma_strings_distinct(&self, prefix: Seq<char>)
        requires
            self.wf_at(prefix),
        ensures
            self.strings().no_duplicates(),
        decreases self, self.children@.len() + 1,
    {
        let cs = self.children@;
        let n = cs.len() as int;
        let a = self.own();
        let b = Self::strings_of(cs, n);
        self.lemma_children_distinct(prefix, n);
        assert forall|w: Seq<char>| !(a.contains(w) && b.contains(w)) by {
            if a.contains(w) && b.contains(w) {
                assert(a[0] == prefix);
                Self::lemma_strings_of_contains(cs, n, w);
                let j = choose|j: int| 0 <= j < n && (#[trigger] cs[j]).1.strings().contains(w);
                self.lemma_child_strings(prefix, -1, j, w);
            }
        }
        lemma_distinct_concat(a, b);
    }

    /// No string is stored twice.
    pub proof fn lemma_distinct(&self)
        requires
            self.wf(),
        ensures
            self@.no_duplicates(),
    {
        self.lemma_strings_distinct(Seq::empty());
    }

    /// Ending a string at a node stores it there, unless one ends there
    /// already.
    proof fn lemma_end_here(before: Trie, after: Trie, v: Seq<char>)
        requires
            before.wf_at(v),
            after.children == before.children,
            after.children_index == before.children_index,
            after.value matches Some(s) && s@ == v,
        ensures
            after.wf_at(v),
            after.strings() == trie_insert(before.strings(), v, v.len()),
            before.strings().contains(v) ==> after.strings() == before.strings(),
    {
        before.lemma_strings_contains(v);
        let s = before.strings();
        if before.value is None {
            if s.len() > 0 && s[0] == v {
                assert(s.contains(v));
            }
            if s.contains(v) {
                let i = choose|i: int|
                    0 <= i < before.children@.len() && (
                    #[trigger] before.children@[i]).1.strings().contains(v);
                before.lemma_child_strings(v, -1, i, v);
            }
            assert(after.strings() =~= seq![v] + s);
        } else {
            assert(before.own()[0] == v);
            assert(s[0] == v);
            assert(after.own() =~= before.own());
        }
    }

    /// A new child without strings, behind all others, changes nothing that
    /// the node holds.
    proof fn lemma_new_child(before: Trie, after: Trie, prefix: Seq<char>, c: char, child: Trie)
        requires
            before.wf_at(prefix),
            prefix.len() < MAX_LEN,
            !before.children_index@.contains_key(c as u32),
            after.value == before.value,
            after.children_index@ == before.children_index@.insert(
                c as u32,
                before.children@.len() as usize,
            ),
            after.children@ == before.children@.push((c, child)),
            before.children@.len() <= usize::MAX,
            child.wf_at(prefix.push(c)),
            child.strings() == Seq::<Seq<char>>::empty(),
        ensures
            after.wf_but(prefix, before.children@.len() as int),
            after.strings() == before.strings(),
    {
        let cs = before.children@;
        let cs2 = after.children@;
        let n = cs.len() as int;
        Self::lemma_strings_of_same(cs, cs2, n);
        assert(after.strings() =~= before.strings());
        assert forall|i: int| 0 <= i < cs2.len() implies {
            &&& (#[trigger] cs2[i]).1.wf_but(prefix.push(cs2[i].0), -1)
            &&& i != n ==> cs2[i].1.strings().len() > 0
        } by {
            if i < n {
                assert(cs[i].1.wf_but(prefix.push(cs[i].0), -1));
            }
        }
        assert forall|i: int| 0 <= i < cs2.len() implies after.children_index@.contains_key(
            (#[trigger] cs2[i]).0 as u32,
        ) && after.children_index@[cs2[i].0 as u32] == i by {
            if i < n {
                assert(before.children_index@.contains_key(cs[i].0 as u32));
            }
        }
    }

    /// The strings of a node, as those up to child `idx`, those of child
    /// `idx`, and those behind it; only those of child `idx` go on with that
    /// child's character.
    proof fn lemma_child_run(&self, prefix: Seq<char>, idx: int)
        requires
            self.wf_but(prefix, idx),
            0 <= idx < self.children@.len(),
        ensures
            self.strings() == (self.own() + Self::strings_of(self.children@, idx))
                + self.children@[idx].1.strings() + Self::strings_from(
                self.children@,
                idx + 1,
                self.children@.len() as int,
            ),
            forall|i: int|
                0 <= i < (self.own() + Self::strings_of(self.children@, idx)).len()
                    ==> !goes_on_with(prefix.len(), self.children@[idx].0)(
                    #[trigger] (self.own() + Self::strings_of(self.children@, idx))[i],
                ),
            forall|i: int|
                0 <= i < self.children@[idx].1.strings().len() ==> goes_on_with(
                    prefix.len(),
                    self.children@[idx].0,
                )(#[trigger] self.children@[idx].1.strings()[i]),
            forall|i: int|
                0 <= i < Self::strings_from(
                    self.children@,
                    idx + 1,
                    self.children@.len() as int,
                ).len() ==> !goes_on_with(prefix.len(), self.children@[idx].0)(
                    #[trigger] Self::strings_from(
                        self.children@,
                        idx + 1,
                        self.children@.len() as int,
                    )[i],
                ),
    {
        let cs = self.children@;
        let n = cs.len() as int;
        let c = cs[idx].0;
        let p = goes_on_with(prefix.len(), c);
        let a = self.own() + Self::strings_of(cs, idx);
        let b = cs[idx].1.strings();
        let t = Self::strings_from(cs, idx + 1, n);
        Self::lemma_strings_split(cs, idx + 1, n);
        assert(self.strings() =~= a + b + t);
        assert forall|i: int| 0 <= i < a.len() implies !p(#[trigger] a[i]) by {
            if i < self.own().len() {
                assert(a[i] == self.own()[0]);
            } else {
                let w = a[i];
                assert(Self::strings_of(cs, idx)[i - self.own().len()] == w);
                assert(Self::strings_of(cs, idx).contains(w));
                Self::lemma_strings_of_contains(cs, idx, w);
                let j = choose|j: int| 0 <= j < idx && (#[trigger] cs[j]).1.strings().contains(w);
                self.lemma_child_strings(prefix, idx, j, w);
                assert(self.children_index@[cs[j].0 as u32] == j);
                assert(self.children_index@[cs[idx].0 as u32] == idx);
            }
        }
        assert forall|i: int| 0 <= i < b.len() implies p(#[trigger] b[i]) by {
            assert(b.contains(b[i]));
            self.lemma_child_strings(prefix, idx, idx, b[i]);
        }
        assert forall|i: int| 0 <= i < t.len() implies !p(#[trigger] t[i]) by {
            let w = t[i];
            assert(t.contains(w));
            Self::lemma_strings_from_contains(cs, idx + 1, n, w);
            let j = choose|j: int| idx + 1 <= j < n && (#[trigger] cs[j]).1.strings().contains(w);
            self.lemma_child_strings(prefix, idx, j, w);
            assert(self.children_index@[cs[j].0 as u32] == j);
            assert(self.children_index@[cs[idx].0 as u32] == idx);
        }
    }

    /// Storing a string in the child that its next character leads to stores
    /// it in the node.
    proof fn lemma_descend(mid: Trie, after: Trie, prefix: Seq<char>, idx: int, v: Seq<char>)
        requires
            mid.wf_but(prefix, idx),
            0 <= idx < mid.children@.len(),
            mid.children@[idx].1.strings().len() > 0 || idx == mid.children@.len() - 1,
            starts_with(v, prefix),
            v.len() > prefix.len(),
            v[prefix.len() as int] == mid.children@[idx].0,
            after.value == mid.value,
            after.children_index == mid.children_index,
            after.children@.len() == mid.children@.len(),
            forall|i: int|
                0 <= i < mid.children@.len() && i != idx ==> after.children@[i] == mid.children@[i],
            after.children@[idx].0 == mid.children@[idx].0,
            after.children@[idx].1.wf_at(prefix.push(mid.children@[idx].0)),
            after.children@[idx].1.strings() == trie_insert(
                mid.children@[idx].1.strings(),
                v,
                prefix.len() + 1,
            ),
            mid.children@[idx].1.strings().contains(v) ==> after.children@[idx].1.strings()
                == mid.children@[idx].1.strings(),
        ensures
            after.wf_at(prefix),
            after.strings() == trie_insert(mid.strings(), v, prefix.len()),
            mid.strings().contains(v) ==> after.strings() == mid.strings(),
    {
        let cs = mid.children@;
        let cs2 = after.children@;
        let n = cs.len() as int;
        let k = prefix.len();
        let a = mid.own() + Self::strings_of(cs, idx);
        let b = cs[idx].1.strings();
        let b2 = cs2[idx].1.strings();
        let t = Self::strings_from(cs, idx + 1, n);
        mid.lemma_child_run(prefix, idx);
        Self::lemma_strings_split(cs2, idx + 1, n);
        Self::lemma_strings_of_same(cs, cs2, idx);
        Self::lemma_strings_from_same(cs, cs2, idx + 1, n);
        assert(after.own() == mid.own());
        assert(after.strings() =~= a + b2 + t);
        lemma_trie_insert_contains(b, v, k + 1);
        if b.len() > 0 {
            lemma_trie_insert_in_run(a, b, t, v, k);
        } else {
            assert(t =~= Seq::<Seq<char>>::empty());
            assert(mid.strings() =~= a);
            lemma_trie_insert_behind(a, v, k);
            assert(a + b2 + t =~= a + b2);
        }
        if mid.strings().contains(v) {
            mid.lemma_strings_contains(v);
            if mid.value is Some {
                assert(mid.own()[0] == prefix);
            }
            let i = choose|i: int| 0 <= i < n && (#[trigger] cs[i]).1.strings().contains(v);
            mid.lemma_child_strings(prefix, idx, i, v);
            assert(mid.children_index@[cs[i].0 as u32] == i);
            assert(mid.children_index@[cs[idx].0 as u32] == idx);
        }
        assert forall|i: int| 0 <= i < n implies {
            &&& (#[trigger] cs2[i]).1.wf_but(prefix.push(cs2[i].0), -1)
            &&& cs2[i].1.strings().len() > 0
        } by {
            if i != idx {
                assert(cs[i].1.wf_but(prefix.push(cs[i].0), -1));
            } else {
                assert(b2.contains(v));
            }
        }
        assert forall|i: int| 0 <= i < n implies after.children_index@.contains_key(
            (#[trigger] cs2[i]).0 as u32,
        ) && after.children_index@[cs2[i].0 as u32] == i by {
            assert(mid.children_index@.contains_key(cs[i].0 as u32));
        }
    }

    /// Store `value`, whose characters are `key`, in the subtree of the node
    /// that the first `depth` of them lead to.
    fn insert_at(&mut self, key: &Vec<char>, depth: usize, value: String)
        requires
            old(self).wf_at(key@.take(depth as int)),
            key@ == value@,
            depth <= key@.len() <= MAX_LEN,
        ensures
            final(self).wf_at(key@.take(depth as int)),
            final(self).strings() == trie_insert(old(self).strings(), value@, depth as nat),
            old(self).strings().contains(value@) ==> final(self).strings() == old(self).strings(),
        decreases key@.len() - depth,
    {
        let ghost v = value@;
        let ghost prefix = key@.take(depth as int);
        let ghost before = *self;
        if depth == key.len() {
            self.value = Some(value);
            proof {
                assert(prefix =~= v);
                Self::lemma_end_here(before, *self, v);
            }
            return ;
        }
        let c = key[depth];
        proof {
            assert(prefix.push(c) =~= key@.take(depth + 1));
        }
        let idx = match self.children_index.get(&(c as u32)) {
            Some(idx) => {
                proof {
                    lemma_code_point(self.children@[*idx as int].0, c);
                    assert(self.wf_but(prefix, *idx as int));
                }
                *idx
            },
            None => {
                let idx = self.children.len();
                self.children_index.insert(c as u32, idx);
                self.children.push((c, Self::new()));
                proof {
                    Self::lemma_new_child(before, *self, prefix, c, self.children@[idx as int].1);
                }
                idx
            },
        };
        let ghost mid = *self;
        proof {
            assert(mid.children@[idx as int].1.wf_at(prefix.push(c)));
        }
        self.children[idx].1.insert_at(key, depth + 1, value);
        proof {
            assert(v.take(prefix.len() as int) =~= prefix);
            Self::lemma_descend(mid, *self, prefix, idx as int, v);
        }
    }

    /// A trie of `items`, or an empty one.
    pub fn py_new(items: Option<Vec<String>>) -> (r: Self)
        requires
            items matches Some(v) ==> forall|i: int|
                0 <= i < v@.len() ==> (#[trigger] v@[i])@.len() <= MAX_LEN,
        ensures
            r.wf(),
            items is None ==> r@ == Seq::<Seq<char>>::empty(),
            items matches Some(v) ==> r@ == trie_insert_all(Seq::empty(), string_texts(v@)),
    {
        match items {
            Some(v) => Self::from_iter(v),
            None => Self::new(),
        }
    }

    /// Store `value`, unless it is stored already.
    pub fn insert(&mut self, value: String)
        requires
            old(self).wf(),
            value@.len() <= MAX_LEN,
        ensures
            final(self).wf(),
            final(self)@ == trie_insert(old(self)@, value@, 0),
            final(self)@.contains(value@),
            old(self)@.contains(value@) ==> final(self)@ == old(self)@,
    {
        let key = chars_of(value.as_str());
        proof {
            assert(key@.take(0) =~= Seq::<char>::empty());
            lemma_trie_insert_contains(self@, value@, 0);
        }
        self.insert_at(&key, 0, value);
    }

    /// The stored string equal to `value`, if there is one.
    pub fn get(&self, value: &str) -> (r: Option<&str>)
        requires
            self.wf(),
        ensures
            r is Some <==> self@.contains(value@),
            r matches Some(s) ==> s@ == value@,
    {
        let mut node = self;
        proof {
            assert(value@.take(0) =~= Seq::<char>::empty());
        }
        for c in it: value.chars()
            invariant
                it.seq() == value@,
                node.wf_at(value@.take(it.index() as int)),
                self@.contains(value@) <==> node.strings().contains(value@),
        {
            let ghost prefix = value@.take(it.index() as int);
            proof {
                node.lemma_strings_contains(value@);
                if node.value is Some {
                    assert(node.own()[0] == prefix);
                }
                assert(prefix.push(c) =~= value@.take(it.index() + 1));
                if node.strings().contains(value@) {
                    let i = choose|i: int|
                        0 <= i < node.children@.len() && (
                        #[trigger] node.children@[i]).1.strings().contains(value@);
                    node.lemma_child_strings(prefix, -1, i, value@);
                }
            }
            let idx = match node.children_index.get(&(c as u32)) {
                Some(idx) => *idx,
                None => {
                    return None;
                },
            };
            proof {
                lemma_code_point(node.children@[idx as int].0, c);
                assert(node.children@[idx as int].1.wf_at(prefix.push(c)));
            }
            node = &node.children[idx].1;
        }
        proof {
            assert(value@.take(value@.len() as int) =~= value@);
            node.lemma_strings_contains(value@);
            if node.value is Some {
                assert(node.own()[0] == value@);
            }
            if node.value is None && node.strings().contains(value@) {
                let i = choose|i: int|
                    0 <= i < node.children@.len() && (
                    #[trigger] node.children@[i]).1.strings().contains(value@);
                node.lemma_child_strings(value@, -1, i, value@);
            }
        }
        match &node.value {
            Some(s) => Some(s.as_str()),
            None => None,
        }
    }

    /// Whether `value` is stored.
    pub fn contains(&self, value: &str) -> (r: bool)
        requires
            self.wf(),
        ensures
            r == self@.contains(value@),
    {
        self.get(value).is_some()
    }

    /// The stored strings, in the order of the view.
    pub fn values(&self) -> (r: Vec<&str>)
        ensures
            texts(r@) == self@,
    {
        self.iter()
    }

    /// Store each of `items`, in their order.
    pub fn extend(&mut self, items: Vec<String>)
        requires
            old(self).wf(),
            forall|i: int| 0 <= i < items@.len() ==> (#[trigger] items@[i])@.len() <= MAX_LEN,
        ensures
            final(self).wf(),
            final(self)@ == trie_insert_all(old(self)@, string_texts(items@)),
    {
        let ghost all = string_texts(items@);
        let ghost before = self@;
        proof {
            assert(all.take(0) =~= Seq::<Seq<char>>::empty());
        }
        for item in it: items
            invariant
                it.seq() == items@,
                all == string_texts(items@),
                self.wf(),
                forall|i: int| 0 <= i < items@.len() ==> (#[trigger] items@[i])@.len() <= MAX_LEN,
                self@ == trie_insert_all(before, all.take(it.index() as int)),
        {
            proof {
                let n = it.index() as int;
                assert(all.take(n + 1).drop_last() =~= all.take(n));
                assert(all.take(n + 1).last() == item@);
            }
            self.insert(item);
        }
        proof {
            assert(all.take(all.len() as int) =~= all);
        }
    }

    /// A trie of `items`, stored in their order.
    pub fn from_iter(items: Vec<String>) -> (r: Self)
        requires
            forall|i: int| 0 <= i < items@.len() ==> (#[trigger] items@[i])@.len() <= MAX_LEN,
        ensures
            r.wf(),
            r@ == trie_insert_all(Seq::empty(), string_texts(items@)),
    {
        let mut trie = Self::new();
        trie.extend(items);
        trie
    }

    /// The stored strings, in the order of the view.
    pub fn iter(&self) -> (r: Vec<&str>)
        ensures
            texts(r@) == self@,
        decreases self,
    {
        let mut out: Vec<&str> = Vec::new();
        match &self.value {
            Some(s) => {
                out.push(s.as_str());
            },
            None => {},
        }
        let mut i: usize = 0;
        assert(texts(out@) =~= self.own());
        while i < self.children.len()
            invariant
                i <= self.children@.len(),
                texts(out@) == self.own() + Self::strings_of(self.children@, i as int),
            decreases self.children@.len() - i,
        {
            let ghost before = out@;
            let mut sub = self.children[i].1.iter();
            let ghost added = sub@;
            out.append(&mut sub);
            assert(texts(out@) =~= texts(before) + texts(added));
            i += 1;
        }
        out
    }

    /// Find best match in trie for query
    pub fn find_one(&self, query: &str, max_edits: Option<u32>) -> (r: Option<(&str, u32)>)
        requires
            self.wf(),
            query@.len() <= MAX_LEN,
        ensures
            r is Some <==> within(query@, self@, edit_budget(max_edits)),
            r matches Some((s, d)) ==> first_nearest(query@, self@, s@, d as nat),
    {
        let automaton = LevenshteinAutomaton::new(query);
        self.find_automaton(
            &automaton.start(),
            match max_edits {
                Some(m) => m,
                None => u32::MAX,
            },
        )
    }

    /// The best match in the subtree, for a state that has consumed the path
    /// to its root.
    fn find_automaton(&self, state: &impl AutomatonState, max_edits: u32) -> (r: Option<
        (&str, u32),
    >)
        requires
            state.inv(),
            state.pattern().len() <= MAX_LEN,
            self.wf_at(state.consumed()),
        ensures
            r is Some <==> within(state.pattern(), self.strings(), max_edits as nat),
            r matches Some((s, d)) ==> first_nearest(state.pattern(), self.strings(), s@, d as nat),
        decreases self,
    {
        let ghost q = state.pattern();
        let ghost t = state.consumed();
        let ghost cs = self.children@;
        if !state.can_match(max_edits) {
            proof {
                if within(q, self.strings(), max_edits as nat) {
                    let i = choose|i: int|
                        0 <= i < self.strings().len() && lev(q, #[trigger] self.strings()[i])
                            <= max_edits;
                    let v = self.strings()[i];
                    assert(self.strings().contains(v));
                    self.lemma_strings_start(t, v);
                    assert(v =~= t + v.skip(t.len() as int));
                    lemma_reach_sound(q, t, v.skip(t.len() as int));
                }
            }
            return None;
        }
        let mut best: Option<(&str, u32)> = None;
        let ghost mut at: int = 0;
        match &self.value {
            Some(v) => {
                let d = state.distance();
                if d <= max_edits {
                    best = Some((v.as_str(), d));
                }
                proof {
                    assert(self.own()[0] == t);
                }
            },
            None => {},
        }
        let mut i: usize = 0;
        proof {
            assert(self.own() + Self::strings_of(cs, 0) =~= self.own());
        }
        while i < self.children.len()
            invariant
                i <= cs.len(),
                cs == self.children@,
                q == state.pattern(),
                t == state.consumed(),
                state.inv(),
                q.len() <= MAX_LEN,
                self.wf_at(t),
                best is Some <==> within(
                    q,
                    self.own() + Self::strings_of(cs, i as int),
                    max_edits as nat,
                ),
                best matches Some((s, d)) ==> {
                    &&& nearest_at(q, self.own() + Self::strings_of(cs, i as int), at, d as nat)
                    &&& (self.own() + Self::strings_of(cs, i as int))[at] == s@
                },
            decreases cs.len() - i,
        {
            let ghost a = self.own() + Self::strings_of(cs, i as int);
            let ghost b = cs[i as int].1.strings();
            proof {
                assert(a + b =~= self.own() + Self::strings_of(cs, i + 1));
                assert(cs[i as int].1.wf_at(t.push(cs[i as int].0)));
                lemma_within_concat(q, a, b, max_edits as nat);
            }
            let budget = match best {
                None => Some(max_edits),
                Some(x) => x.1.checked_sub(1),
            };
            match budget {
                Some(budget) => {
                    let next = self.children[i].0;
                    let found = self.children[i].1.find_automaton(&state.step(next), budget);
                    match found {
                        Some(x) => {
                            proof {
                                let k = choose|k: int| #[trigger]
                                    nearest_at(q, b, k, x.1 as nat) && b[k] == x.0@;
                                assert(within(q, b, budget as nat));
                                let j = choose|j: int|
                                    0 <= j < b.len() && lev(q, #[trigger] b[j]) <= budget;
                                assert(x.1 <= budget);
                                if within(q, a, x.1 as nat) {
                                    let m = choose|m: int|
                                        0 <= m < a.len() && lev(q, #[trigger] a[m]) <= x.1;
                                    if best is None {
                                        assert(lev(q, a[m]) <= max_edits);
                                    }
                                }
                                lemma_nearest_move(q, a, b, k, x.1 as nat);
                                at = a.len() + k;
                            }
                            best = Some(x);
                        },
                        None => {
                            proof {
                                if best is Some {
                                    lemma_nearest_keep(q, a, b, at, best.unwrap().1 as nat);
                                }
                            }
                        },
                    }
                },
                None => {
                    proof {
                        lemma_nearest_keep(q, a, b, at, 0);
                    }
                },
            }
            i += 1;
        }
        proof {
            assert(self.own() + Self::strings_of(cs, cs.len() as int) =~= self.strings());
        }
        best
    }

    /// An empty trie.
    pub fn new() -> (r: Self)
        ensures
            r.wf(),
            r@ == Seq::<Seq<char>>::empty(),
            forall|prefix: Seq<char>| prefix.len() <= MAX_LEN ==> r.wf_at(prefix),
    {
        Self::default()
    }
}

impl View for Trie {
    type V = Seq<Seq<char>>;

    /// The stored strings: the one that ends at a node, then those of the
    /// node's children in the order in which the children were made.
    closed spec fn view(&self) -> Seq<Seq<char>> {
        self.strings()
    }
}

impl Clone for Trie {
    /// A copy with the same strings in the same places.
    fn clone(&self) -> (r: Self)
        ensures
            r@ == self@,
            self.wf() ==> r.wf(),
            forall|prefix: Seq<char>, hole: int| #[trigger]
                self.wf_but(prefix, hole) ==> r.wf_but(prefix, hole),
        decreases self,
    {
        let mut children: Vec<(char, Trie)> = Vec::new();
        let mut i: usize = 0;
        while i < self.children.len()
            invariant
                i <= self.children@.len(),
                children@.len() == i,
                forall|j: int|
                    0 <= j < i ==> {
                        &&& (#[trigger] children@[j]).0 == self.children@[j].0
                        &&& children@[j].1.strings() == self.children@[j].1.strings()
                        &&& forall|prefix: Seq<char>| #[trigger]
                            self.children@[j].1.wf_but(prefix, -1) ==> children@[j].1.wf_but(
                                prefix,
                                -1,
                            )
                    },
            decreases self.children@.len() - i,
        {
            let c = self.children[i].0;
            let child = self.children[i].1.clone();
            children.push((c, child));
            i += 1;
        }
        let value = match &self.value {
            Some(s) => Some(s.clone()),
            None => None,
        };
        let r = Trie { value, children_index: self.children_index.clone(), children };
        proof {
            Self::lemma_strings_of_same(self.children@, r.children@, self.children@.len() as int);
            assert(r.own() =~= self.own());
            assert forall|prefix: Seq<char>, hole: int| #[trigger]
                self.wf_but(prefix, hole) implies r.wf_but(prefix, hole) by {
                assert forall|j: int| 0 <= j < r.children@.len() implies {
                    &&& (#[trigger] r.children@[j]).1.wf_but(prefix.push(r.children@[j].0), -1)
                    &&& j != hole ==> r.children@[j].1.strings().len() > 0
                } by {
                    assert(self.children@[j].1.wf_but(prefix.push(self.children@[j].0), -1));
                }
                assert forall|j: int| 0 <= j < r.children@.len() implies r.children_index@.contains_key(
                    (#[trigger] r.children@[j]).0 as u32,
                ) && r.children_index@[r.children@[j].0 as u32] == j by {
                    assert(self.children_index@.contains_key(self.children@[j].0 as u32));
                }
            }
        }
        r
    }
}

impl Default for Trie {
    fn default() -> (r: Self)
        ensures
            r.wf(),
            r@ == Seq::<Seq<char>>::empty(),
            forall|prefix: Seq<char>| prefix.len() <= MAX_LEN ==> r.wf_at(prefix),
    {
        let r = Self { value: None, children_index: HashMap::new(), children: Vec::new() };
        assert(r.strings() =~= Seq::<Seq<char>>::empty());
        r
    }
}

} // verus!
