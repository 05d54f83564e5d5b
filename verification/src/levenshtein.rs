//! The edit-distance automaton: a pattern, and states that take the
//! characters of a text one at a time and know the distance so far.
use crate::bits::{
    bit, lemma_bit_ops, lemma_bit_shifted_mask, lemma_bit_single, lemma_complement_zero,
    lemma_masked_count, low_mask, popcount,
};
use crate::deltas::{
    lemma_absorb, lemma_absorb_progress, lemma_only_falls, lemma_only_rises, prefix_min,
};
use crate::metric::{
    cell, col_min, lemma_cell_ends, lemma_cell_start, lemma_cell_step, lemma_col_min_le,
    lemma_lev_self, lemma_lev_symmetric, lemma_lev_upper, lev, min2, nearest_at, reach, texts,
};
use crate::myers::{
    encodes_column, lemma_column_min, lemma_column_sum, lemma_masked_disjoint,
    lemma_start_column, lemma_step_column,
};
use vstd::prelude::*;

verus! {

/// The longest string that the indexes store or look up: the distance
/// between two such strings fits a `u32`.
pub const MAX_LEN: usize = 0x7fff_ffff;

/// A pattern prepared for computing edit distances against it.
#[derive(Debug)]
pub struct LevenshteinAutomaton<'a> {
    string: &'a str,
    len: usize,
    mask64: u64,
    chars64: [char; 64],
}

impl Clone for LevenshteinAutomaton<'_> {
    /// The same automaton once more.
    fn clone(&self) -> (r: Self)
        ensures
            r == *self,
    {
        Self { string: self.string, len: self.len, mask64: self.mask64, chars64: self.chars64 }
    }
}

impl<'a> LevenshteinAutomaton<'a> {
    /// The pattern.
    pub closed spec fn pattern(&self) -> Seq<char> {
        self.string@
    }

    /// The fields agree with the pattern.
    pub closed spec fn wf(&self) -> bool {
        &&& self.len == self.string@.len()
        &&& self.mask64 == low_mask(self.len as nat)
        &&& forall|i: int| 0 <= i < self.len && i < 64 ==> self.chars64@[i] == self.string@[i]
    }

    /// Build the automaton of `string`.
    pub fn new(string: &'a str) -> (r: Self)
        ensures
            r.wf(),
            r.pattern() == string@,
    {
        let len = string.unicode_len();
        Self::new_assume_len(string, len)
    }

    fn new_assume_len(string: &'a str, len: usize) -> (r: Self)
        requires
            len == string@.len(),
        ensures
            r.wf(),
            r.pattern() == string@,
    {
        let mut chars64 = ['\0';64];
        let mut i: usize = 0;
        for c in it: string.chars()
            invariant_except_break
                i == it.index(),
            invariant
                it.seq() == string@,
                len == string@.len(),
                i <= 64,
                forall|j: int| 0 <= j < i ==> chars64@[j] == string@[j],
            ensures
                i == 64 || i == len,
        {
            if i >= 64 {
                break;
            }
            chars64[i] = c;
            i += 1;
        }
        assert(forall|j: int| 0 <= j < len && j < 64 ==> chars64@[j] == string@[j]);
        let mask64 = if len >= 64 {
            u64::MAX
        } else {
            proof {
                lemma_bit_shifted_mask(len as u64, 0);
            }
            (1u64 << len) - 1
        };
        Self { string, len, mask64, chars64 }
    }

    /// The state that has consumed nothing yet.
    pub fn start(&self) -> (r: LevenshteinState<'_>)
        requires
            self.wf(),
            self.pattern().len() <= u32::MAX,
        ensures
            r.inv(),
            r.pattern() == self.pattern(),
            r.consumed() == Seq::<char>::empty(),
            r is Bitvector <==> self.pattern().len() <= 64,
    {
        if self.len <= 64 {
            proof {
                lemma_start_column(self.string@);
            }
            LevenshteinState::Bitvector(
                LevenshteinBitvector {
                    m: self,
                    vp: self.mask64,
                    vn: 0,
                    offset: 0,
                    text: Ghost(Seq::empty()),
                },
            )
        } else {
            let mut v: Vec<u32> = Vec::new();
            v.push(0);
            let mut i: usize = 0;
            while i < self.len
                invariant
                    i <= self.len <= u32::MAX,
                    v@.len() == i + 1,
                    forall|j: int| 0 <= j <= i ==> v@[j] == j,
                decreases self.len - i,
            {
                i += 1;
                v.push(i as u32);
            }
            proof {
                assert forall|j: int| 0 <= j <= self.len implies v@[j] == cell(
                    self.string@,
                    Seq::<char>::empty(),
                    j,
                ) by {
                    lemma_cell_start(self.string@, j);
                }
            }
            LevenshteinState::General(
                LevenshteinGeneral { m: self, v, text: Ghost(Seq::empty()) },
            )
        }
    }

    /// Edit distance between the pattern and `other`.
    pub fn distance(&self, other: &str) -> (d: u32)
        requires
            self.wf(),
            self.pattern().len() + other@.len() <= u32::MAX,
        ensures
            d == lev(self.pattern(), other@),
    {
        let mut state = self.start();
        for value in it: other.chars()
            invariant
                it.seq() == other@,
                state.inv(),
                state.pattern() == self.pattern(),
                state.consumed() == other@.take(it.index() as int),
                self.pattern().len() + other@.len() <= u32::MAX,
        {
            proof {
                assert(other@.take(it.index() + 1) =~= other@.take(it.index() as int).push(value));
            }
            state.step_mut(value);
        }
        proof {
            assert(other@.take(other@.len() as int) =~= other@);
        }
        state.distance()
    }
}

/// A state of either kind; which one is chosen by the pattern's length.
pub enum LevenshteinState<'a> {
    General(LevenshteinGeneral<'a>),
    Bitvector(LevenshteinBitvector<'a>),
}

impl Clone for LevenshteinState<'_> {
    /// A state that has consumed the same text.
    fn clone(&self) -> (r: Self)
        ensures
            r.inv() == self.inv(),
            r.pattern() == self.pattern(),
            r.consumed() == self.consumed(),
    {
        match self {
            Self::General(s) => Self::General(s.clone()),
            Self::Bitvector(s) => Self::Bitvector(*s),
        }
    }
}

impl AutomatonState for LevenshteinState<'_> {
    open spec fn inv(&self) -> bool {
        match self {
            Self::General(s) => s.inv(),
            Self::Bitvector(s) => s.inv(),
        }
    }

    open spec fn pattern(&self) -> Seq<char> {
        match self {
            Self::General(s) => s.pattern(),
            Self::Bitvector(s) => s.pattern(),
        }
    }

    open spec fn consumed(&self) -> Seq<char> {
        match self {
            Self::General(s) => s.consumed(),
            Self::Bitvector(s) => s.consumed(),
        }
    }

    fn step_mut(&mut self, value: char) {
        match self {
            Self::General(s) => s.step_mut(value),
            Self::Bitvector(s) => s.step_mut(value),
        }
    }

    fn step(&self, value: char) -> (r: Self) {
        match self {
            Self::General(s) => Self::General(s.step(value)),
            Self::Bitvector(s) => Self::Bitvector(s.step(value)),
        }
    }

    fn distance(&self) -> (d: u32) {
        match self {
            Self::General(s) => s.distance(),
            Self::Bitvector(s) => s.distance(),
        }
    }

    fn can_match(&self, max_edits: u32) -> (r: bool) {
        match self {
            Self::General(s) => s.can_match(max_edits),
            Self::Bitvector(s) => s.can_match(max_edits),
        }
    }
}

/// What every state of an automaton offers: take one more character of the
/// text, report the distance so far, and say whether a budget of edits can
/// still be met.
pub trait AutomatonState {
    /// The state is consistent with its pattern and the text consumed so far.
    spec fn inv(&self) -> bool;

    /// The pattern of the automaton that the state belongs to.
    spec fn pattern(&self) -> Seq<char>;

    /// The text consumed so far.
    spec fn consumed(&self) -> Seq<char>;

    /// Consume `value` in place.
    fn step_mut(&mut self, value: char)
        requires
            old(self).inv(),
            old(self).pattern().len() + old(self).consumed().len() < u32::MAX,
        ensures
            final(self).inv(),
            final(self).pattern() == old(self).pattern(),
            final(self).consumed() == old(self).consumed().push(value),
    ;

    /// The state after consuming `value`.
    fn step(&self, value: char) -> (r: Self) where Self: Sized
        requires
            self.inv(),
            self.pattern().len() + self.consumed().len() < u32::MAX,
        ensures
            r.inv(),
            r.pattern() == self.pattern(),
            r.consumed() == self.consumed().push(value),
    ;

    /// Edit distance between the pattern and the text consumed so far.
    fn distance(&self) -> (d: u32)
        requires
            self.inv(),
        ensures
            d == lev(self.pattern(), self.consumed()),
    ;

    /// Whether some continuation of the consumed text can still be within
    /// `max_edits` of the pattern.
    fn can_match(&self, max_edits: u32) -> (r: bool)
        requires
            self.inv(),
        ensures
            r == (reach(self.pattern(), self.consumed()) <= max_edits),
    ;
}

/// State for patterns of any length: one column of the distance table.
pub struct LevenshteinGeneral<'a> {
    m: &'a LevenshteinAutomaton<'a>,
    v: Vec<u32>,
    text: Ghost<Seq<char>>,
}

impl Clone for LevenshteinGeneral<'_> {
    /// A state that has consumed the same text.
    fn clone(&self) -> (r: Self)
        ensures
            r.inv() == self.inv(),
            r.pattern() == self.pattern(),
            r.consumed() == self.consumed(),
    {
        LevenshteinGeneral { m: self.m, v: self.v.clone(), text: self.text }
    }
}

impl AutomatonState for LevenshteinGeneral<'_> {
    closed spec fn inv(&self) -> bool {
        &&& self.m.wf()
        &&& self.m.len + self.text@.len() <= u32::MAX
        &&& self.v@.len() == self.m.len + 1
        &&& forall|i: int| 0 <= i <= self.m.len ==> self.v@[i] == cell(self.m.string@, self.text@, i)
    }

    closed spec fn pattern(&self) -> Seq<char> {
        self.m.string@
    }

    closed spec fn consumed(&self) -> Seq<char> {
        self.text@
    }

    fn step_mut(&mut self, value: char) {
        let ghost p = self.m.string@;
        let ghost t = self.text@;
        let ghost t1 = t.push(value);
        let ghost n = self.m.len as int;
        proof {
            lemma_cell_ends(p, t);
            lemma_cell_ends(p, t1);
        }
        let mut sub = self.v[0];
        let mut add = sub + 1;
        let mut del;
        self.v[0] = add;
        let mut i: usize = 0;
        for c in it: self.m.string.chars()
            invariant
                it.seq() == p,
                i == it.index(),
                p == self.m.string@,
                n == p.len(),
                t1 == t.push(value),
                n + t1.len() <= u32::MAX,
                self.m == old(self).m,
                self.text == old(self).text,
                self.v@.len() == n + 1,
                forall|j: int| 0 <= j <= i ==> self.v@[j] == cell(p, t1, j),
                forall|j: int| i < j <= n ==> self.v@[j] == cell(p, t, j),
                i <= n,
                sub == cell(p, t, i as int),
                add == cell(p, t1, i as int),
        {
            proof {
                lemma_cell_step(p, t, value, i as int);
                lemma_lev_upper(p.take(i as int), t);
                lemma_lev_upper(p.take(i as int), t1);
                lemma_lev_upper(p.take(i + 1), t);
            }
            del = self.v[i + 1];
            sub = if c == value { sub } else { sub + 1 };
            add = sub.min(add + 1).min(del + 1);
            sub = del;
            self.v[i + 1] = add;
            i += 1;
        }
        self.text = Ghost(t1);
    }

    fn step(&self, value: char) -> (r: Self) {
        let mut new = self.clone();
        new.step_mut(value);
        new
    }

    fn distance(&self) -> (d: u32)
        ensures
            d == self.last_entry(),
    {
        proof {
            self.lemma_column();
        }
        self.v[self.v.len() - 1]
    }

    fn can_match(&self, max_edits: u32) -> (r: bool)
        ensures
            r == (self.least_entry() <= max_edits),
    {
        proof {
            self.lemma_column();
        }
        let mut least = self.v[0];
        let mut i: usize = 1;
        while i < self.v.len()
            invariant
                1 <= i <= self.v@.len(),
                least == least_of(self.v@, i - 1),
            decreases self.v@.len() - i,
        {
            if self.v[i] < least {
                least = self.v[i];
            }
            i += 1;
        }
        least <= max_edits
    }
}

/// The least of the entries `0..=k` of a column.
pub open spec fn least_of(v: Seq<u32>, k: int) -> nat
    decreases k,
{
    if k <= 0 {
        v[0] as nat
    } else {
        min2(least_of(v, k - 1), v[k] as nat)
    }
}

impl LevenshteinGeneral<'_> {
    /// The last entry of the column that the state holds: what `distance`
    /// reports.
    pub closed spec fn last_entry(&self) -> nat {
        self.v@.last() as nat
    }

    /// The least entry of the column that the state holds: what `can_match`
    /// holds against the budget.
    pub closed spec fn least_entry(&self) -> nat {
        least_of(self.v@, self.v@.len() - 1)
    }

    /// The entries `0..=k` of the column have the least entry that the
    /// distance table has there.
    proof fn lemma_least(&self, k: int)
        requires
            self.inv(),
            0 <= k <= self.m.len,
        ensures
            least_of(self.v@, k) == col_min(self.m.string@, self.text@, k),
        decreases k,
    {
        if k > 0 {
            self.lemma_least(k - 1);
        }
    }

    /// The column that the state holds is that of the text consumed.
    pub proof fn lemma_column(&self)
        requires
            self.inv(),
        ensures
            self.last_entry() == lev(self.pattern(), self.consumed()),
            self.least_entry() == reach(self.pattern(), self.consumed()),
    {
        lemma_cell_ends(self.m.string@, self.text@);
        self.lemma_least(self.m.len as int);
    }
}

/// State for patterns of at most 64 characters: the column of the distance
/// table, held as its first entry and the steps between neighbours.
#[derive(Clone, Copy)]
pub struct LevenshteinBitvector<'a> {
    m: &'a LevenshteinAutomaton<'a>,
    vp: u64,
    vn: u64,
    offset: u32,
    text: Ghost<Seq<char>>,
}

impl AutomatonState for LevenshteinBitvector<'_> {
    closed spec fn inv(&self) -> bool {
        &&& self.m.wf()
        &&& self.m.len <= 64
        &&& self.m.len + self.text@.len() <= u32::MAX
        &&& self.offset == self.text@.len()
        &&& self.vp & self.vn == 0
        &&& encodes_column(self.m.string@, self.text@, self.vp, self.vn)
    }

    closed spec fn pattern(&self) -> Seq<char> {
        self.m.string@
    }

    closed spec fn consumed(&self) -> Seq<char> {
        self.text@
    }

    fn step_mut(&mut self, value: char) {
        let ghost p = self.m.string@;
        let mut pm: u64 = 0;
        let mut x: u64 = 1;
        let mut k: usize = 0;
        proof {
            assert(1u64 << 0u64 == 1u64) by (bit_vector);
            assert forall|i: u64| i < 64 implies !#[trigger] bit(pm, i) by {
                lemma_bit_ops(0, 0, i);
            }
        }
        while k < self.m.len
            invariant
                self.m.wf(),
                self.m.len <= 64,
                p == self.m.string@,
                k <= self.m.len,
                k < 64 ==> x == 1u64 << (k as u64),
                forall|i: u64| i < 64 ==> #[trigger] bit(pm, i) == (i < k && p[i as int] == value),
            decreases self.m.len - k,
        {
            proof {
                assert forall|i: u64| i < 64 implies #[trigger] bit(pm | x, i) == (bit(pm, i) || i
                    == k) by {
                    lemma_bit_ops(pm, x, i);
                    lemma_bit_single(k as u64, i);
                }
                lemma_bit_single(k as u64, 0);
            }
            if self.m.chars64[k] == value {
                pm |= x;
            }
            x <<= 1;
            k += 1;
        }
        proof {
            lemma_bit_ops(0, 0, 0);
            lemma_step_column(p, self.text@, value, pm, self.vp, self.vn);
        }
        let d0 = (((pm & self.vp).wrapping_add(self.vp)) ^ self.vp) | pm | self.vn;
        let mut hp = self.vn | !(d0 | self.vp);
        let mut hn = d0 & self.vp;
        hp = (hp << 1) | 1;
        hn <<= 1;

        self.vp = hn | !(d0 | hp);
        self.vn = hp & d0;
        self.offset += 1;
        self.text = Ghost(self.text@.push(value));
    }

    fn step(&self, value: char) -> (r: Self) {
        let mut new = *self;
        new.step_mut(value);
        new
    }

    fn distance(&self) -> (d: u32)
        ensures
            d == self.last_entry(),
    {
        proof {
            self.lemma_column();
            lemma_masked_count(self.vp, self.m.string@.len(), 64);
        }
        self.offset + (self.vp & self.m.mask64).count_ones() - (self.vn & self.m.mask64).count_ones()
    }

    fn can_match(&self, max_edits: u32) -> (r: bool)
        ensures
            r == (self.least_entry() <= max_edits),
    {
        proof {
            self.lemma_column();
            lemma_cell_ends(self.m.string@, self.text@);
            lemma_col_min_le(self.m.string@, self.text@, self.m.len as int, 0);
        }
        self.offset <= max_edits || {
            let mut vpi = self.vp & self.m.mask64;
            let mut nvni = !(self.vn & self.m.mask64);
            let ghost least = prefix_min(vpi, nvni, 64);
            proof {
                lemma_masked_disjoint(self.vp, self.vn, self.m.mask64);
            }
            while vpi != 0 && !nvni != 0
                invariant
                    vpi & !nvni == 0,
                    prefix_min(vpi, nvni, 64) == least,
                decreases vpi,
            {
                let x = nvni.wrapping_add(vpi);
                proof {
                    lemma_absorb(vpi, nvni, x);
                    lemma_absorb_progress(vpi, nvni, x);
                }
                vpi &= x;
                nvni |= x;
            }
            proof {
                if vpi == 0 {
                    lemma_only_falls(nvni, 64);
                } else {
                    lemma_complement_zero(nvni);
                    lemma_only_rises(vpi, 64);
                }
            }
            self.offset - nvni.count_zeros()
        } <= max_edits
    }
}

impl LevenshteinBitvector<'_> {
    /// The last entry of the column that the state holds: what `distance`
    /// reports.
    pub closed spec fn last_entry(&self) -> int {
        self.offset + popcount(self.vp & self.m.mask64) - popcount(self.vn & self.m.mask64)
    }

    /// The least entry of the column that the state holds: what `can_match`
    /// holds against the budget.
    pub closed spec fn least_entry(&self) -> int {
        self.offset + prefix_min(self.vp & self.m.mask64, !(self.vn & self.m.mask64), 64)
    }

    /// The column that the state holds is that of the text consumed.
    pub proof fn lemma_column(&self)
        requires
            self.inv(),
        ensures
            self.last_entry() == lev(self.pattern(), self.consumed()),
            self.least_entry() == reach(self.pattern(), self.consumed()),
    {
        let p = self.m.string@;
        lemma_column_sum(p, self.text@, self.vp, self.vn, 64);
        lemma_column_min(p, self.text@, self.vp, self.vn, 64);
        lemma_cell_ends(p, self.text@);
    }
}

/// The two kinds of state agree: on the same pattern and the same text they
/// hold the same distance and the same least entry, so `distance` and
/// `can_match` answer alike.
pub proof fn lemma_states_agree(g: LevenshteinGeneral, b: LevenshteinBitvector)
    requires
        g.inv(),
        b.inv(),
        g.pattern() == b.pattern(),
        g.consumed() == b.consumed(),
    ensures
        g.last_entry() == b.last_entry(),
        g.least_entry() == b.least_entry(),
{
    g.lemma_column();
    b.lemma_column();
}

/// `==` on `str` holds exactly when the two strings are made of the same
/// characters in the same order.
#[verifier::external_body]
fn same_text(a: &str, b: &str) -> (r: bool)
    ensures
        r == (a@ == b@),
{
    a == b
}

/// Find the Levenshtein distance between two strings.
pub fn levenshtein(a: &str, b: &str) -> (d: u32)
    requires
        a@.len() + b@.len() <= u32::MAX,
    ensures
        d == lev(a@, b@),
{
    if same_text(a, b) {
        proof {
            lemma_lev_self(a@);
        }
        return 0;
    }
    let len_a = a.unicode_len();
    let len_b = b.unicode_len();

    let (a, len_a, b) = if (len_a < len_b || len_a > 64) && len_b <= 64 {
        proof {
            lemma_lev_symmetric(a@, b@);
        }
        (b, len_b, a)
    } else {
        (a, len_a, b)
    };
    let automaton = LevenshteinAutomaton::new_assume_len(a, len_a);
    automaton.distance(b)
}

/// Find the best match in a list of choices.
///
/// Returns (choice, distance, index) or None (for empty choices). The choice
/// returned is the first one at the least distance.
pub fn levenshtein_extract(query: &str, choices: Vec<&str>) -> (r: Option<(String, u32, usize)>)
    requires
        forall|j: int| 0 <= j < choices@.len() ==> query@.len() + (#[trigger] choices@[j])@.len() <= u32::MAX,
    ensures
        r is None <==> choices@.len() == 0,
        r matches Some((s, d, i)) ==> {
            &&& i < choices@.len()
            &&& s@ == choices@[i as int]@
            &&& nearest_at(query@, texts(choices@), i as int, d as nat)
        },
{
    let mut best: Option<(u32, usize)> = None;
    let automaton = LevenshteinAutomaton::new(query);
    let mut i: usize = 0;
    while i < choices.len()
        invariant_except_break
            best is None <==> i == 0,
            best matches Some((d, k)) ==> {
                &&& k < i
                &&& d == lev(query@, choices@[k as int]@)
                &&& forall|j: int| 0 <= j < k ==> d < lev(query@, (#[trigger] choices@[j])@)
                &&& forall|j: int| k <= j < i ==> d <= lev(query@, (#[trigger] choices@[j])@)
            },
        invariant
            i <= choices@.len(),
            automaton.wf(),
            automaton.pattern() == query@,
            forall|j: int| 0 <= j < choices@.len() ==> query@.len() + (#[trigger] choices@[j])@.len() <= u32::MAX,
        ensures
            best is None <==> choices@.len() == 0,
            best matches Some((d, k)) ==> {
                &&& k < choices@.len()
                &&& d == lev(query@, choices@[k as int]@)
                &&& forall|j: int| 0 <= j < k ==> d < lev(query@, (#[trigger] choices@[j])@)
                &&& forall|j: int| k <= j < choices@.len() ==> d <= lev(query@, (#[trigger] choices@[j])@)
            },
        decreases choices@.len() - i,
    {
        let distance = automaton.distance(choices[i]);
        best = match best {
            Some((d, k)) if d <= distance => Some((d, k)),
            _ => Some((distance, i)),
        };
        if distance == 0 {
            break;
        }
        i += 1;
    }
    proof {
        assert forall|j: int| 0 <= j < choices@.len() implies #[trigger] texts(choices@)[j]
            == choices@[j]@ by {}
    }
    match best {
        Some((d, k)) => Some((choices[k].to_string(), d, k)),
        None => None,
    }
}

} // verus!
