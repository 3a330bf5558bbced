use vstd::prelude::*;
use crate::types::NUM_POS;
use crate::weights::{Dist, SCALE_DIGITS, calculate_differences, diff_spec};

verus! {

/// The bytes by which words are ordered: their UTF-8 encoding, the order of
/// `String`'s `Ord`.
pub open spec fn word_key(w: Seq<char>) -> Seq<u8> {
    vstd::utf8::encode_utf8(w)
}

/// `a` and `b` agree on their first `k` bytes.
pub open spec fn common_prefix(a: Seq<u8>, b: Seq<u8>, k: int) -> bool {
    &&& 0 <= k <= a.len()
    &&& k <= b.len()
    &&& forall|j: int| 0 <= j < k ==> a[j] == b[j]
}

/// Strict lexicographic order on byte strings.
pub open spec fn lex_lt(a: Seq<u8>, b: Seq<u8>) -> bool {
    exists|k: int| #[trigger] common_prefix(a, b, k) && (
        (k == a.len() && k < b.len()) || (k < a.len() && k < b.len() && a[k] < b[k]))
}

pub proof fn lemma_lex_lt_ne(a: Seq<u8>, b: Seq<u8>)
    requires
        lex_lt(a, b),
    ensures
        a != b,
{
    let k = choose|k: int| #[trigger] common_prefix(a, b, k) && (
        (k == a.len() && k < b.len()) || (k < a.len() && k < b.len() && a[k] < b[k]));
}

pub proof fn lemma_lex_lt_trans(a: Seq<u8>, b: Seq<u8>, c: Seq<u8>)
    requires
        lex_lt(a, b),
        lex_lt(b, c),
    ensures
        lex_lt(a, c),
{
    let k1 = choose|k: int| #[trigger] common_prefix(a, b, k) && (
        (k == a.len() && k < b.len()) || (k < a.len() && k < b.len() && a[k] < b[k]));
    let k2 = choose|k: int| #[trigger] common_prefix(b, c, k) && (
        (k == b.len() && k < c.len()) || (k < b.len() && k < c.len() && b[k] < c[k]));
    if k1 <= k2 {
        assert(common_prefix(a, c, k1));
    } else {
        assert(common_prefix(a, c, k2));
    }
}

/// Compares two byte strings: negative, zero or positive as `a` is below,
/// equal to or above `b`.
pub fn compare_keys(a: &[u8], b: &[u8]) -> (r: i8)
    ensures
        r < 0 ==> lex_lt(a@, b@),
        r == 0 ==> a@ == b@,
        r > 0 ==> lex_lt(b@, a@),
{
    let mut i: usize = 0;
    while i < a.len() && i < b.len()
        invariant
            i <= a@.len(),
            i <= b@.len(),
            forall|j: int| 0 <= j < i ==> a@[j] == b@[j],
        decreases a.len() - i,
    {
        if a[i] < b[i] {
            assert(common_prefix(a@, b@, i as int));
            return -1;
        } else if a[i] > b[i] {
            assert(common_prefix(b@, a@, i as int));
            return 1;
        }
        i = i + 1;
    }
    if a.len() < b.len() {
        assert(common_prefix(a@, b@, i as int));
        -1
    } else if b.len() < a.len() {
        assert(common_prefix(b@, a@, i as int));
        1
    } else {
        assert(a@ =~= b@);
        0
    }
}

/// A word with its weights.
#[derive(Clone, Debug, PartialEq, Eq)]
pub struct Entry {
    pub word: String,
    pub dist: Dist,
}

impl Entry {
    pub open spec fn key(&self) -> Seq<u8> {
        word_key(self.word@)
    }
}

fn entry_key(e: &Entry) -> (r: &[u8])
    ensures
        r@ == e.key(),
{
    e.word.as_str().as_bytes()
}

/// Entries ordered strictly by word.
pub open spec fn sorted(s: Seq<Entry>) -> bool {
    forall|i: int, j: int| 0 <= i < j < s.len() ==> lex_lt(#[trigger] s[i].key(), #[trigger] s[j].key())
}

/// Some entry has key `k`.
pub open spec fn has_key(s: Seq<Entry>, k: Seq<u8>) -> bool {
    exists|i: int| 0 <= i < s.len() && #[trigger] s[i].key() == k
}

pub open spec fn zero_weights() -> Seq<int> {
    Seq::new(NUM_POS as nat, |i: int| 0)
}

/// The weights recorded for key `k`, or all zero when it is absent.
pub open spec fn weights_of(s: Seq<Entry>, k: Seq<u8>) -> Seq<int> {
    if has_key(s, k) {
        s[choose|i: int| 0 <= i < s.len() && #[trigger] s[i].key() == k].dist@
    } else {
        zero_weights()
    }
}

pub proof fn lemma_weights_at(s: Seq<Entry>, j: int)
    requires
        sorted(s),
        0 <= j < s.len(),
    ensures
        has_key(s, s[j].key()),
        weights_of(s, s[j].key()) == s[j].dist@,
{
    let k = s[j].key();
    assert(has_key(s, k));
    let i = choose|i: int| 0 <= i < s.len() && #[trigger] s[i].key() == k;
    if i < j {
        lemma_lex_lt_ne(s[i].key(), s[j].key());
    } else if j < i {
        lemma_lex_lt_ne(s[j].key(), s[i].key());
    }
}

/// A word table (or a delta table): entries in strictly increasing word order.
#[derive(Clone, Debug, PartialEq, Eq)]
pub struct WordTable {
    pub entries: Vec<Entry>,
}

impl WordTable {
    /// Words in order, each with a weight vector of the right length.
    pub open spec fn ordered(&self) -> bool {
        &&& sorted(self.entries@)
        &&& forall|i: int| 0 <= i < self.entries@.len() ==> #[trigger] self.entries@[i].dist.w@.len() == NUM_POS
    }

    /// Ordered, with every weight within bounds.
    pub open spec fn wf(&self) -> bool {
        &&& sorted(self.entries@)
        &&& forall|i: int| 0 <= i < self.entries@.len() ==> #[trigger] self.entries@[i].dist.wf()
    }

    /// The table with no words.
    pub fn new() -> (r: WordTable)
        ensures
            r.wf(),
            r.entries@.len() == 0,
    {
        WordTable { entries: Vec::new() }
    }

    /// Records `e`, replacing the entry of the same word if there is one; the
    /// table stays in word order.
    pub fn insert(&mut self, e: Entry)
        requires
            old(self).wf(),
            e.dist.wf(),
        ensures
            final(self).wf(),
            has_key(final(self).entries@, e.key()),
            weights_of(final(self).entries@, e.key()) == e.dist@,
            forall|k: Seq<u8>| k != e.key() ==> #[trigger] has_key(final(self).entries@, k) == has_key(old(self).entries@, k),
            forall|k: Seq<u8>| k != e.key() ==> #[trigger] weights_of(final(self).entries@, k) == weights_of(old(self).entries@, k),
    {
        let ghost s = self.entries@;
        let ghost k = e.key();
        let n = self.entries.len();
        let mut p: usize = 0;
        let mut c: i8 = -1;
        let mut stop = false;
        while p < n && !stop
            invariant
                s == self.entries@,
                n == s.len(),
                p <= n,
                k == e.key(),
                forall|q: int| 0 <= q < p ==> lex_lt(#[trigger] s[q].key(), k),
                !stop ==> c < 0,
                stop ==> p < n && c >= 0,
                stop && c == 0 ==> s[p as int].key() == k,
                stop && c > 0 ==> lex_lt(k, s[p as int].key()),
            decreases (n - p) as int + if stop { 0int } else { 1int },
        {
            c = compare_keys(entry_key(&self.entries[p]), entry_key(&e));
            if c >= 0 {
                stop = true;
            } else {
                p = p + 1;
            }
        }
        if p < n && c == 0 {
            self.entries.remove(p);
            self.entries.insert(p, e);
            proof {
                let t = self.entries@;
                assert(t =~= s.update(p as int, e));
                assert(t[p as int].key() == k);
                assert forall|i: int, j: int| 0 <= i < j < t.len() implies lex_lt(#[trigger] t[i].key(), #[trigger] t[j].key()) by {
                    assert(t[i].key() == s[i].key());
                    assert(t[j].key() == s[j].key());
                }
                lemma_weights_at(t, p as int);
                self.lemma_others_update(s, t, p as int, k);
            }
        } else {
            self.entries.insert(p, e);
            proof {
                let t = self.entries@;
                assert(t =~= s.insert(p as int, e));
                assert(t[p as int].key() == k);
                assert forall|i: int, j: int| 0 <= i < j < t.len() implies lex_lt(#[trigger] t[i].key(), #[trigger] t[j].key()) by {
                    if j < p {
                    } else if j == p {
                    } else if i < p {
                        if p < j - 1 {
                            lemma_lex_lt_trans(k, s[p as int].key(), s[j - 1].key());
                        }
                        lemma_lex_lt_trans(s[i].key(), k, s[j - 1].key());
                    } else if i == p {
                        if p < j - 1 {
                            lemma_lex_lt_trans(k, s[p as int].key(), s[j - 1].key());
                        }
                    } else {
                        assert(t[i] == s[i - 1]);
                    }
                }
                lemma_weights_at(t, p as int);
                self.lemma_others_insert(s, t, p as int, k);
            }
        }
    }

    proof fn lemma_others_update(&self, s: Seq<Entry>, t: Seq<Entry>, p: int, k: Seq<u8>)
        requires
            sorted(s),
            sorted(t),
            0 <= p < s.len(),
            t.len() == s.len(),
            forall|i: int| 0 <= i < s.len() && i != p ==> t[i] == s[i],
            s[p].key() == k,
            t[p].key() == k,
        ensures
            forall|k2: Seq<u8>| k2 != k ==> #[trigger] has_key(t, k2) == has_key(s, k2),
            forall|k2: Seq<u8>| k2 != k ==> #[trigger] weights_of(t, k2) == weights_of(s, k2),
    {
        assert forall|k2: Seq<u8>| k2 != k implies #[trigger] has_key(t, k2) == has_key(s, k2)
            && weights_of(t, k2) == weights_of(s, k2) by {
            if has_key(s, k2) {
                let q = choose|q: int| 0 <= q < s.len() && #[trigger] s[q].key() == k2;
                assert(t[q] == s[q]);
                lemma_weights_at(s, q);
                lemma_weights_at(t, q);
            }
            if has_key(t, k2) {
                let q = choose|q: int| 0 <= q < t.len() && #[trigger] t[q].key() == k2;
                assert(t[q] == s[q]);
                assert(s[q].key() == k2);
            }
        }
    }

    proof fn lemma_others_insert(&self, s: Seq<Entry>, t: Seq<Entry>, p: int, k: Seq<u8>)
        requires
            sorted(s),
            sorted(t),
            0 <= p <= s.len(),
            t.len() == s.len() + 1,
            forall|i: int| 0 <= i < p ==> t[i] == s[i],
            forall|i: int| p < i < t.len() ==> t[i] == s[i - 1],
            t[p].key() == k,
        ensures
            forall|k2: Seq<u8>| k2 != k ==> #[trigger] has_key(t, k2) == has_key(s, k2),
            forall|k2: Seq<u8>| k2 != k ==> #[trigger] weights_of(t, k2) == weights_of(s, k2),
    {
        assert forall|k2: Seq<u8>| k2 != k implies #[trigger] has_key(t, k2) == has_key(s, k2)
            && weights_of(t, k2) == weights_of(s, k2) by {
            if has_key(s, k2) {
                let q = choose|q: int| 0 <= q < s.len() && #[trigger] s[q].key() == k2;
                let q2 = if q < p { q } else { q + 1 };
                assert(t[q2] == s[q]);
                lemma_weights_at(s, q);
                lemma_weights_at(t, q2);
            }
            if has_key(t, k2) {
                let q = choose|q: int| 0 <= q < t.len() && #[trigger] t[q].key() == k2;
                if q < p {
                    assert(s[q].key() == k2);
                } else {
                    assert(s[q - 1].key() == k2);
                }
            }
        }
    }

    /// Number of words.
    pub fn len(&self) -> (r: usize)
        ensures
            r == self.entries@.len(),
    {
        self.entries.len()
    }
}

/// Which of two tables shows more categories per word.
#[derive(Clone, Copy, Debug, PartialEq, Eq, Structural)]
pub enum Nuance {
    First,
    Second,
    Comparable,
}

/// Counts gathered while comparing two tables.
#[derive(Clone, Copy, Debug, PartialEq, Eq, Structural)]
pub struct DiffStats {
    pub in_both: usize,
    pub only_in_first: usize,
    pub only_in_second: usize,
    pub first_more_nuanced: usize,
    pub second_more_nuanced: usize,
    pub same_nuance: usize,
    pub first_categories: usize,
    pub second_categories: usize,
}

impl DiffStats {
    /// Which table has the higher average number of
    /// categories over the words in both (the averages share a denominator).
    pub fn richer(&self) -> (r: Nuance)
        ensures
            r == (if self.first_categories > self.second_categories {
                Nuance::First
            } else if self.second_categories > self.first_categories {
                Nuance::Second
            } else {
                Nuance::Comparable
            }),
    {
        if self.first_categories > self.second_categories {
            Nuance::First
        } else if self.second_categories > self.first_categories {
            Nuance::Second
        } else {
            Nuance::Comparable
        }
    }
}

/// Whether key `k` belongs to the words compared.
pub open spec fn in_universe(t1: Seq<Entry>, t2: Seq<Entry>, both_only: bool, k: Seq<u8>) -> bool {
    if both_only {
        has_key(t1, k) && has_key(t2, k)
    } else {
        has_key(t1, k) || has_key(t2, k)
    }
}

/// The delta of key `k` between the two tables.
pub open spec fn delta_of(t1: Seq<Entry>, t2: Seq<Entry>, k: Seq<u8>, places: nat) -> Seq<int> {
    diff_spec(weights_of(t1, k), weights_of(t2, k), places)
}

pub open spec fn all_zero(s: Seq<int>) -> bool {
    forall|i: int| 0 <= i < s.len() ==> s[i] == 0
}

proof fn lemma_not_in_rest(t: Seq<Entry>, j: int, k: Seq<u8>)
    requires
        sorted(t),
        0 <= j <= t.len(),
        forall|b: int| 0 <= b < j ==> lex_lt(#[trigger] t[b].key(), k),
        j < t.len() ==> lex_lt(k, t[j].key()),
    ensures
        !has_key(t, k),
        weights_of(t, k) == zero_weights(),
{
    if has_key(t, k) {
        let b = choose|b: int| 0 <= b < t.len() && #[trigger] t[b].key() == k;
        if b < j {
            lemma_lex_lt_ne(t[b].key(), k);
        } else if b == j {
            lemma_lex_lt_ne(k, t[j].key());
        } else {
            lemma_lex_lt_trans(k, t[j].key(), t[b].key());
            lemma_lex_lt_ne(k, t[b].key());
        }
    }
}

/// The entry of `s` with key `k` (meaningful when there is one).
pub open spec fn partner(s: Seq<Entry>, k: Seq<u8>) -> Entry {
    s[choose|i: int| 0 <= i < s.len() && #[trigger] s[i].key() == k]
}

/// Number of entries of `s1` whose word is also in `s2`.
pub open spec fn count_in_both(s1: Seq<Entry>, s2: Seq<Entry>) -> nat
    decreases s1.len(),
{
    if s1.len() == 0 {
        0
    } else {
        count_in_both(s1.drop_last(), s2) + if has_key(s2, s1.last().key()) { 1nat } else { 0nat }
    }
}

/// Categories of the entries of `s1` whose word is also in `s2`, summed.
pub open spec fn categories_in_both(s1: Seq<Entry>, s2: Seq<Entry>) -> nat
    decreases s1.len(),
{
    if s1.len() == 0 {
        0
    } else {
        categories_in_both(s1.drop_last(), s2) + if has_key(s2, s1.last().key()) { s1.last().dist.nuance() } else { 0nat }
    }
}

/// Number of words in both whose entry in `s1` has more categories than the
/// one in `s2`.
pub open spec fn more_nuanced_in_both(s1: Seq<Entry>, s2: Seq<Entry>) -> nat
    decreases s1.len(),
{
    if s1.len() == 0 {
        0
    } else {
        more_nuanced_in_both(s1.drop_last(), s2) + if has_key(s2, s1.last().key())
            && s1.last().dist.nuance() > partner(s2, s1.last().key()).dist.nuance() { 1nat } else { 0nat }
    }
}

pub proof fn lemma_partner_at(s: Seq<Entry>, j: int)
    requires
        sorted(s),
        0 <= j < s.len(),
    ensures
        has_key(s, s[j].key()),
        partner(s, s[j].key()) == s[j],
{
    let k = s[j].key();
    assert(has_key(s, k));
    let i = choose|i: int| 0 <= i < s.len() && #[trigger] s[i].key() == k;
    if i < j {
        lemma_lex_lt_ne(s[i].key(), s[j].key());
    } else if j < i {
        lemma_lex_lt_ne(s[j].key(), s[i].key());
    }
}

proof fn lemma_both_step(s1: Seq<Entry>, s2: Seq<Entry>, i: int)
    requires
        0 <= i < s1.len(),
    ensures
        ({
            let e = s1[i];
            let here = has_key(s2, e.key());
            &&& count_in_both(s1.subrange(0, i + 1), s2) == count_in_both(s1.subrange(0, i), s2) + if here { 1nat } else { 0nat }
            &&& categories_in_both(s1.subrange(0, i + 1), s2) == categories_in_both(s1.subrange(0, i), s2) + if here { e.dist.nuance() } else { 0nat }
            &&& more_nuanced_in_both(s1.subrange(0, i + 1), s2) == more_nuanced_in_both(s1.subrange(0, i), s2) + if here
                && e.dist.nuance() > partner(s2, e.key()).dist.nuance() { 1nat } else { 0nat }
        }),
{
    assert(s1.subrange(0, i + 1).drop_last() =~= s1.subrange(0, i));
}

/// `out` lists exactly the compared words whose delta is not all zero, each
/// with that delta.
pub open spec fn is_diff_of(t1: Seq<Entry>, t2: Seq<Entry>, both_only: bool, places: nat, out: Seq<Entry>) -> bool {
    &&& forall|o: int| 0 <= o < out.len() ==> {
        let k = #[trigger] out[o].key();
        &&& in_universe(t1, t2, both_only, k)
        &&& out[o].dist@ == delta_of(t1, t2, k, places)
        &&& !all_zero(out[o].dist@)
    }
    &&& forall|k: Seq<u8>| in_universe(t1, t2, both_only, k)
        && !all_zero(#[trigger] delta_of(t1, t2, k, places))
        ==> has_key(out, k)
}

proof fn lemma_nuance_le(w: Seq<i64>)
    ensures
        crate::weights::count_nonzero(w) <= w.len(),
    decreases w.len(),
{
    if w.len() > 0 {
        lemma_nuance_le(w.drop_last());
    }
}

proof fn lemma_push_keeps_keys(s: Seq<Entry>, e: Entry, k: Seq<u8>)
    requires
        has_key(s, k),
    ensures
        has_key(s.push(e), k),
{
    let i = choose|i: int| 0 <= i < s.len() && #[trigger] s[i].key() == k;
    assert(s.push(e)[i].key() == k);
}

/// Compares two tables word by word: for each word compared, the weights of
/// the second table are subtracted from those of the first, category by
/// category, and rounded to `places` digits. Words whose delta is all zero
/// are left out. With `both_only`, only words in both tables are compared;
/// otherwise every word of either, a missing side counting as all zero.
pub fn diff_tables(t1: &WordTable, t2: &WordTable, both_only: bool, places: usize) -> (r: (WordTable, DiffStats))
    requires
        t1.wf(),
        t2.wf(),
        places <= SCALE_DIGITS,
        t1.entries@.len() * NUM_POS <= usize::MAX,
        t2.entries@.len() * NUM_POS <= usize::MAX,
    ensures
        r.0.ordered(),
        is_diff_of(t1.entries@, t2.entries@, both_only, places as nat, r.0.entries@),
        r.1.in_both == count_in_both(t1.entries@, t2.entries@),
        r.1.first_categories == categories_in_both(t1.entries@, t2.entries@),
        r.1.second_categories == categories_in_both(t2.entries@, t1.entries@),
        r.1.first_more_nuanced == more_nuanced_in_both(t1.entries@, t2.entries@),
        r.1.second_more_nuanced == more_nuanced_in_both(t2.entries@, t1.entries@),
        r.1.in_both + r.1.only_in_first == t1.entries@.len(),
        r.1.in_both + r.1.only_in_second == t2.entries@.len(),
        r.1.first_more_nuanced + r.1.second_more_nuanced + r.1.same_nuance == r.1.in_both,
{
    let ghost s1 = t1.entries@;
    let ghost s2 = t2.entries@;
    let n1 = t1.entries.len();
    let n2 = t2.entries.len();
    let zero = Dist::empty();
    assert(zero@ =~= zero_weights());
    let mut out: Vec<Entry> = Vec::new();
    let mut i: usize = 0;
    let mut j: usize = 0;
    while i < n1 || j < n2
        invariant
            s1 == t1.entries@, s2 == t2.entries@, n1 == s1.len(), n2 == s2.len(),
            t1.wf(), t2.wf(), places <= SCALE_DIGITS, zero.wf(), zero@ == zero_weights(),
            i <= n1, j <= n2,
            sorted(out@),
            forall|o: int| 0 <= o < out@.len() ==> #[trigger] out@[o].dist.w@.len() == NUM_POS,
            forall|o: int| 0 <= o < out@.len() ==> (i < n1 ==> lex_lt(#[trigger] out@[o].key(), s1[i as int].key())),
            forall|o: int| 0 <= o < out@.len() ==> (j < n2 ==> lex_lt(#[trigger] out@[o].key(), s2[j as int].key())),
            forall|a: int| 0 <= a < i ==> (j < n2 ==> lex_lt(#[trigger] s1[a].key(), s2[j as int].key())),
            forall|b: int| 0 <= b < j ==> (i < n1 ==> lex_lt(#[trigger] s2[b].key(), s1[i as int].key())),
            forall|o: int| 0 <= o < out@.len() ==> {
                let k = #[trigger] out@[o].key();
                &&& in_universe(s1, s2, both_only, k)
                &&& out@[o].dist@ == delta_of(s1, s2, k, places as nat)
                &&& !all_zero(out@[o].dist@)
            },
            forall|a: int| 0 <= a < i ==> (in_universe(s1, s2, both_only, #[trigger] s1[a].key())
                && !all_zero(delta_of(s1, s2, s1[a].key(), places as nat)) ==> has_key(out@, s1[a].key())),
            forall|b: int| 0 <= b < j ==> (in_universe(s1, s2, both_only, #[trigger] s2[b].key())
                && !all_zero(delta_of(s1, s2, s2[b].key(), places as nat)) ==> has_key(out@, s2[b].key())),
        decreases n1 + n2 - i - j,
    {
        let c: i8 = if i < n1 && j < n2 {
            compare_keys(entry_key(&t1.entries[i]), entry_key(&t2.entries[j]))
        } else if i < n1 {
            -1
        } else {
            1
        };
        let ghost old_out = out@;
        let ghost oi = i as int;
        let ghost oj = j as int;
        if c < 0 {
            let e1 = &t1.entries[i];
            let ghost k = e1.key();
            proof {
                lemma_weights_at(s1, oi);
                lemma_not_in_rest(s2, oj, k);
            }
            let d = calculate_differences(&e1.dist, &zero, places);
            if !both_only && !d.is_empty() {
                let w = e1.word.clone();
                out.push(Entry { word: w, dist: d });
                proof {
                    let last = old_out.len() as int;
                    assert(out@[last].key() == k);
                    assert(has_key(out@, k));
                    let q = choose|q: int| 0 <= q < d.w@.len() && d.w@[q] != 0;
                    assert(out@[last].dist@[q] != 0);
                    assert forall|o: int| 0 <= o < old_out.len() implies out@[o] == old_out[o] by {}
                }
            } else {
                proof {
                    if !both_only {
                        assert(all_zero(d@));
                    }
                }
            }
            i = i + 1;
            proof {
                assert forall|o: int| 0 <= o < out@.len() && i < n1 implies
                    lex_lt(#[trigger] out@[o].key(), s1[i as int].key()) by {
                    if i < n1 {
                        if o < old_out.len() {
                            assert(out@[o] == old_out[o]);
                            lemma_lex_lt_trans(out@[o].key(), k, s1[i as int].key());
                        }
                    }
                }
                assert forall|b: int| 0 <= b < j && i < n1 implies
                    lex_lt(#[trigger] s2[b].key(), s1[i as int].key()) by {
                    if i < n1 {
                        lemma_lex_lt_trans(s2[b].key(), k, s1[i as int].key());
                    }
                }
            }
        } else if c > 0 {
            let e2 = &t2.entries[j];
            let ghost k = e2.key();
            proof {
                lemma_weights_at(s2, oj);
                lemma_not_in_rest(s1, oi, k);
            }
            let d = calculate_differences(&zero, &e2.dist, places);
            if !both_only && !d.is_empty() {
                let w = e2.word.clone();
                out.push(Entry { word: w, dist: d });
                proof {
                    let last = old_out.len() as int;
                    assert(out@[last].key() == k);
                    assert(has_key(out@, k));
                    let q = choose|q: int| 0 <= q < d.w@.len() && d.w@[q] != 0;
                    assert(out@[last].dist@[q] != 0);
                    assert forall|o: int| 0 <= o < old_out.len() implies out@[o] == old_out[o] by {}
                }
            } else {
                proof {
                    if !both_only {
                        assert(all_zero(d@));
                    }
                }
            }
            j = j + 1;
            proof {
                assert forall|o: int| 0 <= o < out@.len() && j < n2 implies
                    lex_lt(#[trigger] out@[o].key(), s2[j as int].key()) by {
                    if j < n2 {
                        if o < old_out.len() {
                            assert(out@[o] == old_out[o]);
                            lemma_lex_lt_trans(out@[o].key(), k, s2[j as int].key());
                        }
                    }
                }
                assert forall|a: int| 0 <= a < i && j < n2 implies
                    lex_lt(#[trigger] s1[a].key(), s2[j as int].key()) by {
                    if j < n2 {
                        lemma_lex_lt_trans(s1[a].key(), k, s2[j as int].key());
                    }
                }
            }
        } else {
            let e1 = &t1.entries[i];
            let e2 = &t2.entries[j];
            let ghost k = e1.key();
            proof {
                lemma_weights_at(s1, oi);
                lemma_weights_at(s2, oj);
            }
            let d = calculate_differences(&e1.dist, &e2.dist, places);
            if !d.is_empty() {
                let w = e1.word.clone();
                out.push(Entry { word: w, dist: d });
                proof {
                    let last = old_out.len() as int;
                    assert(out@[last].key() == k);
                    assert(has_key(out@, k));
                    let q = choose|q: int| 0 <= q < d.w@.len() && d.w@[q] != 0;
                    assert(out@[last].dist@[q] != 0);
                    assert forall|o: int| 0 <= o < old_out.len() implies out@[o] == old_out[o] by {}
                }
            } else {
                proof {
                    assert(all_zero(d@));
                }
            }
            i = i + 1;
            j = j + 1;
            proof {
                assert forall|o: int| 0 <= o < out@.len() && i < n1 implies
                    lex_lt(#[trigger] out@[o].key(), s1[i as int].key()) by {
                    if i < n1 {
                        if o < old_out.len() {
                            assert(out@[o] == old_out[o]);
                            lemma_lex_lt_trans(out@[o].key(), k, s1[i as int].key());
                        }
                    }
                }
                assert forall|o: int| 0 <= o < out@.len() && j < n2 implies
                    lex_lt(#[trigger] out@[o].key(), s2[j as int].key()) by {
                    if j < n2 {
                        if o < old_out.len() {
                            assert(out@[o] == old_out[o]);
                            lemma_lex_lt_trans(out@[o].key(), k, s2[j as int].key());
                        }
                    }
                }
                assert forall|a: int| 0 <= a < i && j < n2 implies
                    lex_lt(#[trigger] s1[a].key(), s2[j as int].key()) by {
                    if j < n2 {
                        if a < oi {
                            lemma_lex_lt_trans(s1[a].key(), s2[oj].key(), s2[j as int].key());
                        }
                    }
                }
                assert forall|b: int| 0 <= b < j && i < n1 implies
                    lex_lt(#[trigger] s2[b].key(), s1[i as int].key()) by {
                    if i < n1 {
                        if b < oj {
                            lemma_lex_lt_trans(s2[b].key(), s1[oi].key(), s1[i as int].key());
                        }
                    }
                }
            }
        }
        proof {
            assert forall|q: Seq<u8>| has_key(old_out, q) implies has_key(out@, q) by {
                if out@.len() > old_out.len() {
                    lemma_push_keeps_keys(old_out, out@.last(), q);
                    assert(out@ =~= old_out.push(out@.last()));
                } else {
                    assert(out@ =~= old_out);
                }
            }
        }
    }
    assert(s1.subrange(0, n1 as int) =~= s1);
    assert(s2.subrange(0, n2 as int) =~= s2);
    proof {
        assert forall|k: Seq<u8>| in_universe(s1, s2, both_only, k)
            && !all_zero(#[trigger] delta_of(s1, s2, k, places as nat)) implies has_key(out@, k) by {
            if has_key(s1, k) {
                let a = choose|a: int| 0 <= a < s1.len() && #[trigger] s1[a].key() == k;
            } else {
                let b = choose|b: int| 0 <= b < s2.len() && #[trigger] s2[b].key() == k;
            }
        }
    }
    let st = compare_stats(t1, t2);
    (WordTable { entries: out }, st)
}

/// Counts, over the words of two tables, those in both and those in one
/// only; and, for the words in both, the categories on each side and which
/// side has more.
#[verifier::rlimit(60)]
pub fn compare_stats(t1: &WordTable, t2: &WordTable) -> (r: DiffStats)
    requires
        t1.wf(),
        t2.wf(),
        t1.entries@.len() * NUM_POS <= usize::MAX,
        t2.entries@.len() * NUM_POS <= usize::MAX,
    ensures
        r.in_both == count_in_both(t1.entries@, t2.entries@),
        r.first_categories == categories_in_both(t1.entries@, t2.entries@),
        r.second_categories == categories_in_both(t2.entries@, t1.entries@),
        r.first_more_nuanced == more_nuanced_in_both(t1.entries@, t2.entries@),
        r.second_more_nuanced == more_nuanced_in_both(t2.entries@, t1.entries@),
        r.in_both + r.only_in_first == t1.entries@.len(),
        r.in_both + r.only_in_second == t2.entries@.len(),
        r.first_more_nuanced + r.second_more_nuanced + r.same_nuance == r.in_both,
{
    let ghost s1 = t1.entries@;
    let ghost s2 = t2.entries@;
    let n1 = t1.entries.len();
    let n2 = t2.entries.len();
    let mut st = DiffStats {
        in_both: 0, only_in_first: 0, only_in_second: 0, first_more_nuanced: 0,
        second_more_nuanced: 0, same_nuance: 0, first_categories: 0, second_categories: 0,
    };
    let mut i: usize = 0;
    let mut j: usize = 0;
    while i < n1 || j < n2
        invariant
            s1 == t1.entries@, s2 == t2.entries@, n1 == s1.len(), n2 == s2.len(),
            t1.wf(), t2.wf(),
            n1 * NUM_POS <= usize::MAX, n2 * NUM_POS <= usize::MAX,
            i <= n1, j <= n2,
            forall|a: int| 0 <= a < i ==> (j < n2 ==> lex_lt(#[trigger] s1[a].key(), s2[j as int].key())),
            forall|b: int| 0 <= b < j ==> (i < n1 ==> lex_lt(#[trigger] s2[b].key(), s1[i as int].key())),
            st.in_both == count_in_both(s1.subrange(0, i as int), s2),
            st.first_categories == categories_in_both(s1.subrange(0, i as int), s2),
            st.second_categories == categories_in_both(s2.subrange(0, j as int), s1),
            st.first_more_nuanced == more_nuanced_in_both(s1.subrange(0, i as int), s2),
            st.second_more_nuanced == more_nuanced_in_both(s2.subrange(0, j as int), s1),
            st.in_both + st.only_in_first == i,
            st.in_both + st.only_in_second == j,
            st.first_more_nuanced + st.second_more_nuanced + st.same_nuance == st.in_both,
            st.first_categories <= st.in_both * NUM_POS,
            st.second_categories <= st.in_both * NUM_POS,
        decreases n1 + n2 - i - j,
    {
        let c: i8 = if i < n1 && j < n2 {
            compare_keys(entry_key(&t1.entries[i]), entry_key(&t2.entries[j]))
        } else if i < n1 {
            -1
        } else {
            1
        };
        let ghost oi = i as int;
        let ghost oj = j as int;
        if c < 0 {
            let ghost k = s1[oi].key();
            proof {
                lemma_not_in_rest(s2, oj, k);
                lemma_both_step(s1, s2, oi);
            }
            st.only_in_first = st.only_in_first + 1;
            i = i + 1;
            proof {
                assert forall|b: int| 0 <= b < j && i < n1 implies
                    lex_lt(#[trigger] s2[b].key(), s1[i as int].key()) by {
                    lemma_lex_lt_trans(s2[b].key(), k, s1[i as int].key());
                }
            }
        } else if c > 0 {
            let ghost k = s2[oj].key();
            proof {
                lemma_not_in_rest(s1, oi, k);
                lemma_both_step(s2, s1, oj);
            }
            st.only_in_second = st.only_in_second + 1;
            j = j + 1;
            proof {
                assert forall|a: int| 0 <= a < i && j < n2 implies
                    lex_lt(#[trigger] s1[a].key(), s2[j as int].key()) by {
                    lemma_lex_lt_trans(s1[a].key(), k, s2[j as int].key());
                }
            }
        } else {
            let e1 = &t1.entries[i];
            let e2 = &t2.entries[j];
            let ghost k = e1.key();
            let n1c = e1.dist.category_count();
            let n2c = e2.dist.category_count();
            proof {
                lemma_partner_at(s1, oi);
                lemma_partner_at(s2, oj);
                assert(s2[oj].key() == k);
                lemma_both_step(s1, s2, oi);
                lemma_both_step(s2, s1, oj);
                lemma_nuance_le(e1.dist.w@);
                lemma_nuance_le(e2.dist.w@);
                let ib = st.in_both as int;
                assert((ib + 1) * NUM_POS <= n1 * NUM_POS) by (nonlinear_arith)
                    requires ib + 1 <= n1;
                assert((ib + 1) * NUM_POS <= n2 * NUM_POS) by (nonlinear_arith)
                    requires ib + 1 <= n2;
                assert((ib + 1) * NUM_POS == ib * NUM_POS + NUM_POS) by (nonlinear_arith);
                assert(s1[oi].dist.wf());
                assert(s2[oj].dist.wf());
            }
            st.in_both = st.in_both + 1;
            st.first_categories = st.first_categories + n1c;
            st.second_categories = st.second_categories + n2c;
            if n1c > n2c {
                st.first_more_nuanced = st.first_more_nuanced + 1;
            } else if n2c > n1c {
                st.second_more_nuanced = st.second_more_nuanced + 1;
            } else {
                st.same_nuance = st.same_nuance + 1;
            }
            i = i + 1;
            j = j + 1;
            proof {
                assert forall|a: int| 0 <= a < i && j < n2 implies
                    lex_lt(#[trigger] s1[a].key(), s2[j as int].key()) by {
                    if a < oi {
                        lemma_lex_lt_trans(s1[a].key(), s2[oj].key(), s2[j as int].key());
                    }
                }
                assert forall|b: int| 0 <= b < j && i < n1 implies
                    lex_lt(#[trigger] s2[b].key(), s1[i as int].key()) by {
                    if b < oj {
                        lemma_lex_lt_trans(s2[b].key(), s1[oi].key(), s1[i as int].key());
                    }
                }
            }
        }
    }
    assert(s1.subrange(0, n1 as int) =~= s1);
    assert(s2.subrange(0, n2 as int) =~= s2);
    st
}

} // verus!
