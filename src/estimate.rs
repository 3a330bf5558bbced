use vstd::prelude::*;
use crate::types::{Pos, NUM_POS, pos_at};
use crate::taxonomy::{tag_category, normalize_nlprule_pos};
use crate::contexts::get_test_contexts;
use crate::table::{Entry, WordTable};
use crate::weights::{Dist, UNIT, SCALE_DIGITS, round_ratio, seq_sum, ratio_to_places};
use glossia::GrammarChecker;

verus! {

#[verifier::external_type_specification]
#[verifier::external_body]
pub struct ExGrammarChecker(GrammarChecker);

/// What the tagger reports for one token: its surface text and its raw tag codes.
#[derive(Clone, Debug, PartialEq, Eq)]
pub struct TaggedToken {
    pub text: String,
    pub tags: Vec<String>,
}

impl TaggedToken {
    pub open spec fn view(&self) -> (Seq<char>, Seq<Seq<char>>) {
        (self.text@, self.tags@.map_values(|t: String| t@))
    }
}

/// The lower-case form of a string, as `str::to_lowercase` computes it.
pub uninterp spec fn lower_of(s: Seq<char>) -> Seq<char>;

/// Relies on `str::to_lowercase`: the result depends on the characters alone.
#[verifier::external_body]
fn lowercase(s: &str) -> (r: String)
    ensures
        r@ == lower_of(s@),
{
    s.to_lowercase()
}

/// Relies on glossia's `GrammarChecker::tokenize` (nlprule's tokenizer): every
/// token of every sentence it finds in `sentence`, with the token's text and the
/// part-of-speech code of each of its tags. What comes back depends on the
/// loaded model data.
#[verifier::external_body]
fn tag_sentence(checker: &GrammarChecker, sentence: &str) -> (r: Vec<TaggedToken>)
{
    let mut out = Vec::new();
    for sent in checker.tokenize(sentence) {
        for token in sent.tokens() {
            let text = token.word().text().as_str().to_string();
            let tags = token.word().tags().iter().map(|t| t.pos().as_str().to_string()).collect();
            out.push(TaggedToken { text, tags });
        }
    }
    out
}

/// Number of tags in `tags` that map to the category at position `i`.
pub open spec fn tags_for(tags: Seq<Seq<char>>, i: int) -> nat
    decreases tags.len(),
{
    if tags.len() == 0 {
        0
    } else {
        tags_for(tags.drop_last(), i) + if tag_category(tags.last()) == Some(pos_at(i)) { 1nat } else { 0nat }
    }
}

/// Number of tags in `tags` that map to some category.
pub open spec fn tags_mapped(tags: Seq<Seq<char>>) -> nat
    decreases tags.len(),
{
    if tags.len() == 0 {
        0
    } else {
        tags_mapped(tags.drop_last()) + if tag_category(tags.last()) is Some { 1nat } else { 0nat }
    }
}

/// Tags mapping to category `i`, over the tokens whose lower-cased text is `w`.
pub open spec fn hits(w: Seq<char>, toks: Seq<(Seq<char>, Seq<Seq<char>>)>, i: int) -> nat
    decreases toks.len(),
{
    if toks.len() == 0 {
        0
    } else {
        hits(w, toks.drop_last(), i) + if lower_of(toks.last().0) == w { tags_for(toks.last().1, i) } else { 0nat }
    }
}

/// Mapped tags over the tokens whose lower-cased text is `w`.
pub open spec fn observations(w: Seq<char>, toks: Seq<(Seq<char>, Seq<Seq<char>>)>) -> nat
    decreases toks.len(),
{
    if toks.len() == 0 {
        0
    } else {
        observations(w, toks.drop_last()) + if lower_of(toks.last().0) == w { tags_mapped(toks.last().1) } else { 0nat }
    }
}

/// Number of tags, matched or not, over all tokens.
pub open spec fn all_tags(toks: Seq<(Seq<char>, Seq<Seq<char>>)>) -> nat
    decreases toks.len(),
{
    if toks.len() == 0 { 0 } else { all_tags(toks.drop_last()) + toks.last().1.len() }
}

pub open spec fn token_views(toks: Seq<TaggedToken>) -> Seq<(Seq<char>, Seq<Seq<char>>)> {
    toks.map_values(|t: TaggedToken| t@)
}

proof fn lemma_tags_bounds(tags: Seq<Seq<char>>, i: int)
    ensures
        tags_for(tags, i) <= tags_mapped(tags),
        tags_mapped(tags) <= tags.len(),
    decreases tags.len(),
{
    if tags.len() > 0 {
        lemma_tags_bounds(tags.drop_last(), i);
    }
}

proof fn lemma_hits_bounds(w: Seq<char>, toks: Seq<(Seq<char>, Seq<Seq<char>>)>, i: int)
    ensures
        hits(w, toks, i) <= observations(w, toks),
        observations(w, toks) <= all_tags(toks),
    decreases toks.len(),
{
    if toks.len() > 0 {
        lemma_hits_bounds(w, toks.drop_last(), i);
        lemma_tags_bounds(toks.last().1, i);
    }
}

/// Raw tag counts per category, and the number of mapped tags in all.
#[derive(Clone, Debug, PartialEq, Eq)]
pub struct TagCounts {
    pub counts: Vec<u64>,
    pub total: u64,
}

impl TagCounts {
    pub open spec fn wf(&self) -> bool {
        &&& self.counts@.len() == NUM_POS
        &&& forall|i: int| 0 <= i < NUM_POS ==> #[trigger] self.counts@[i] <= self.total
    }
}

/// Counts, for the tokens whose text equals `word` ignoring case, each tag
/// that maps to a category; a token with several tags counts once per tag.
pub fn count_tags(word: &str, tokens: &Vec<TaggedToken>) -> (r: TagCounts)
    requires
        all_tags(token_views(tokens@)) <= u64::MAX,
    ensures
        r.wf(),
        r.total == observations(lower_of(word@), token_views(tokens@)),
        forall|i: int| 0 <= i < NUM_POS ==> #[trigger] r.counts@[i] == hits(lower_of(word@), token_views(tokens@), i),
{
    let w = lowercase(word);
    let ghost wl = lower_of(word@);
    let ghost tv = token_views(tokens@);
    let mut counts: Vec<u64> = Vec::new();
    let mut k: usize = 0;
    while k < NUM_POS
        invariant
            k <= NUM_POS,
            counts@.len() == k,
            forall|i: int| 0 <= i < k ==> counts@[i] == 0,
        decreases NUM_POS - k,
    {
        counts.push(0);
        k = k + 1;
    }
    let mut total: u64 = 0;
    let mut j: usize = 0;
    while j < tokens.len()
        invariant
            j <= tokens@.len(),
            tv == token_views(tokens@),
            wl == lower_of(word@),
            w@ == wl,
            all_tags(tv) <= u64::MAX,
            counts@.len() == NUM_POS,
            total == observations(wl, tv.subrange(0, j as int)),
            forall|i: int| 0 <= i < NUM_POS ==> #[trigger] counts@[i] == hits(wl, tv.subrange(0, j as int), i),
            forall|i: int| 0 <= i < NUM_POS ==> #[trigger] counts@[i] <= total,
        decreases tokens.len() - j,
    {
        let tok = &tokens[j];
        let ghost pre = tv.subrange(0, j as int);
        let ghost cur = tv.subrange(0, j as int + 1);
        assert(cur.drop_last() =~= pre);
        assert(cur.last() == tok@);
        proof {
            lemma_all_tags_prefix(tv, j as int + 1);
            lemma_hits_bounds(wl, cur, 0);
        }
        let t = lowercase(tok.text.as_str());
        if t == w {
            let ghost tags = tok@.1;
            let ghost base = counts@;
            let ghost base_total = total;
            let mut m: usize = 0;
            while m < tok.tags.len()
                invariant
                    m <= tok.tags@.len(),
                    tags == tok@.1,
                    tags.len() == tok.tags@.len(),
                    counts@.len() == NUM_POS,
                    base.len() == NUM_POS,
                    base_total + tags_mapped(tags) <= u64::MAX,
                    total == base_total + tags_mapped(tags.subrange(0, m as int)),
                    forall|i: int| 0 <= i < NUM_POS ==> #[trigger] counts@[i] == base[i] + tags_for(tags.subrange(0, m as int), i),
                    forall|i: int| 0 <= i < NUM_POS ==> #[trigger] counts@[i] <= total,
                decreases tok.tags.len() - m,
            {
                let ghost tp = tags.subrange(0, m as int + 1);
                assert(tp.drop_last() =~= tags.subrange(0, m as int));
                assert(tp.last() == tok.tags@[m as int]@);
                proof {
                    lemma_tags_prefix_mono(tags, m as int + 1);
                }
                match normalize_nlprule_pos(tok.tags[m].as_str()) {
                    Some(p) => {
                        let idx = p.index();
                        proof { lemma_tags_bounds(tp, idx as int); }
                        counts.set(idx, counts[idx] + 1);
                        total = total + 1;
                        proof { lemma_pos_at_index(p); }
                    },
                    None => {},
                }
                m = m + 1;
            }
            assert(tags.subrange(0, m as int) =~= tags);
        }
        j = j + 1;
    }
    assert(tv.subrange(0, j as int) =~= tv);
    proof {
        assert forall|i: int| 0 <= i < NUM_POS implies #[trigger] counts@[i] <= total by {
            lemma_hits_bounds(wl, tv, i);
        }
    }
    TagCounts { counts, total }
}

proof fn lemma_pos_at_index(p: Pos)
    ensures
        pos_at(crate::types::pos_index(p) as int) == p,
{
}

proof fn lemma_tags_prefix_mono(tags: Seq<Seq<char>>, n: int)
    requires
        0 <= n <= tags.len(),
    ensures
        tags_mapped(tags.subrange(0, n)) <= tags_mapped(tags),
    decreases tags.len(),
{
    if n < tags.len() {
        assert(tags.drop_last().subrange(0, n) =~= tags.subrange(0, n));
        lemma_tags_prefix_mono(tags.drop_last(), n);
    } else {
        assert(tags.subrange(0, n) =~= tags);
    }
}

proof fn lemma_all_tags_prefix(toks: Seq<(Seq<char>, Seq<Seq<char>>)>, n: int)
    requires
        0 <= n <= toks.len(),
    ensures
        all_tags(toks.subrange(0, n)) <= all_tags(toks),
    decreases toks.len(),
{
    if n < toks.len() {
        assert(toks.drop_last().subrange(0, n) =~= toks.subrange(0, n));
        lemma_all_tags_prefix(toks.drop_last(), n);
    } else {
        assert(toks.subrange(0, n) =~= toks);
    }
}

/// A category survives the threshold: it was observed, and its share
/// `count / total` is at least `threshold / UNIT`.
pub open spec fn kept(c: Seq<u64>, total: int, threshold: int, i: int) -> bool {
    c[i] > 0 && c[i] * UNIT >= threshold * total
}

/// Shares of the kept categories, rounded to `places` digits.
pub open spec fn rounded_shares(c: Seq<u64>, total: int, threshold: int, places: nat) -> Seq<int> {
    Seq::new(NUM_POS as nat, |i: int| if kept(c, total, threshold, i) { round_ratio(c[i] as int, total, places) } else { 0 })
}

/// Post-processed distribution: the rounded shares rescaled by their sum and
/// rounded again; all zero when that sum is zero.
pub open spec fn postprocess_spec(c: Seq<u64>, total: int, threshold: int, places: nat) -> Seq<int> {
    let r = rounded_shares(c, total, threshold, places);
    let s = seq_sum(r);
    Seq::new(NUM_POS as nat, |i: int| if s > 0 { round_ratio(r[i], s, places) } else { 0 })
}

proof fn lemma_sum_step(s: Seq<int>, i: int)
    requires
        0 <= i < s.len(),
    ensures
        seq_sum(s.subrange(0, i + 1)) == seq_sum(s.subrange(0, i)) + s[i],
{
    assert(s.subrange(0, i + 1).drop_last() =~= s.subrange(0, i));
}

proof fn lemma_sum_nonneg(s: Seq<int>)
    requires
        forall|j: int| 0 <= j < s.len() ==> s[j] >= 0,
    ensures
        seq_sum(s) >= 0,
    decreases s.len(),
{
    if s.len() > 0 {
        let d = s.drop_last();
        assert forall|j: int| 0 <= j < d.len() implies d[j] >= 0 by {
            assert(d[j] == s[j]);
        }
        lemma_sum_nonneg(d);
    }
}

proof fn lemma_elem_le_sum(s: Seq<int>, i: int)
    requires
        0 <= i < s.len(),
        forall|j: int| 0 <= j < s.len() ==> s[j] >= 0,
    ensures
        s[i] <= seq_sum(s),
    decreases s.len(),
{
    let d = s.drop_last();
    assert forall|j: int| 0 <= j < d.len() implies d[j] >= 0 by {
        assert(d[j] == s[j]);
    }
    lemma_sum_nonneg(d);
    if i < s.len() - 1 {
        assert(d[i] == s[i]);
        lemma_elem_le_sum(d, i);
    }
}

/// Thresholds, rounds and renormalizes raw tag counts into a distribution.
///
/// `threshold` is a fixed-point share (`UNIT` is 1.0); a category is kept only
/// when its share of all observations is at least that much.
pub fn postprocess(c: &TagCounts, threshold: u64, places: usize) -> (r: Dist)
    requires
        c.wf(),
        places <= SCALE_DIGITS,
    ensures
        r.wf(),
        r@ == postprocess_spec(c.counts@, c.total as int, threshold as int, places as nat),
        forall|i: int| 0 <= i < NUM_POS ==> 0 <= #[trigger] r@[i] <= UNIT,
        forall|i: int| 0 <= i < NUM_POS && #[trigger] r@[i] != 0
            ==> kept(c.counts@, c.total as int, threshold as int, i),
{
    let ghost rs = rounded_shares(c.counts@, c.total as int, threshold as int, places as nat);
    let mut raw: Vec<u64> = Vec::new();
    let mut sum: u64 = 0;
    let mut i: usize = 0;
    while i < NUM_POS
        invariant
            c.wf(),
            places <= SCALE_DIGITS,
            rs == rounded_shares(c.counts@, c.total as int, threshold as int, places as nat),
            i <= NUM_POS,
            raw@.len() == i,
            forall|j: int| 0 <= j < i ==> #[trigger] raw@[j] == rs[j],
            forall|j: int| 0 <= j < i ==> #[trigger] raw@[j] <= UNIT,
            sum == seq_sum(rs.subrange(0, i as int)),
            sum <= i * UNIT,
        decreases NUM_POS - i,
    {
        let n = c.counts[i];
        assert((threshold as u128) * (c.total as u128) <= 0xffff_ffff_ffff_ffffu128 * 0xffff_ffff_ffff_ffffu128)
            by (nonlinear_arith) requires threshold <= 0xffff_ffff_ffff_ffffu64, c.total <= 0xffff_ffff_ffff_ffffu64;
        let keep = n > 0 && (n as u128) * (UNIT as u128) >= (threshold as u128) * (c.total as u128);
        let v: u64 = if keep { ratio_to_places(n, c.total, places) } else { 0 };
        proof { lemma_sum_step(rs, i as int); }
        raw.push(v);
        sum = sum + v;
        i = i + 1;
    }
    assert(rs.subrange(0, NUM_POS as int) =~= rs);
    assert forall|j: int| 0 <= j < rs.len() implies rs[j] >= 0 by {
        assert(raw@[j] == rs[j]);
    }
    let mut w: Vec<i64> = Vec::new();
    let mut k: usize = 0;
    while k < NUM_POS
        invariant
            c.wf(),
            places <= SCALE_DIGITS,
            rs == rounded_shares(c.counts@, c.total as int, threshold as int, places as nat),
            raw@.len() == NUM_POS,
            forall|j: int| 0 <= j < NUM_POS ==> #[trigger] raw@[j] == rs[j],
            sum == seq_sum(rs),
            forall|j: int| 0 <= j < rs.len() ==> rs[j] >= 0,
            k <= NUM_POS,
            w@.len() == k,
            forall|j: int| 0 <= j < k ==> #[trigger] w@[j] == postprocess_spec(c.counts@, c.total as int, threshold as int, places as nat)[j],
            forall|j: int| 0 <= j < k ==> 0 <= #[trigger] w@[j] <= UNIT,
        decreases NUM_POS - k,
    {
        let v: u64 = if sum > 0 {
            proof { lemma_elem_le_sum(rs, k as int); }
            ratio_to_places(raw[k], sum, places)
        } else {
            0
        };
        w.push(v as i64);
        k = k + 1;
    }
    let r = Dist { w };
    proof {
        let ps = postprocess_spec(c.counts@, c.total as int, threshold as int, places as nat);
        assert(r@ =~= ps);
        assert forall|i: int| 0 <= i < NUM_POS && #[trigger] r@[i] != 0
            implies kept(c.counts@, c.total as int, threshold as int, i) by {
            if !kept(c.counts@, c.total as int, threshold as int, i) {
                let s = seq_sum(rs);
                assert(rs[i] == 0);
                if s > 0 {
                    assert((2 * 0 * crate::weights::pow10(places as nat) + s) / (2 * s) == 0) by (nonlinear_arith)
                        requires s > 0;
                }
            }
        }
    }
    r
}

/// Counts per category of the tags seen for lower-cased word `w` in `toks`.
pub open spec fn counts_of(w: Seq<char>, toks: Seq<(Seq<char>, Seq<Seq<char>>)>) -> Seq<u64> {
    Seq::new(NUM_POS as nat, |i: int| hits(w, toks, i) as u64)
}

/// The distribution estimated for `word` from the tagger's tokens `toks`.
pub open spec fn estimate_spec(word: Seq<char>, toks: Seq<(Seq<char>, Seq<Seq<char>>)>, threshold: int, places: nat) -> Seq<int> {
    let w = lower_of(word);
    postprocess_spec(counts_of(w, toks), observations(w, toks) as int, threshold, places)
}

/// `d` is what estimation yields for `word` on some output of the tagger.
pub open spec fn estimated_from(d: Seq<int>, word: Seq<char>, threshold: int, places: nat) -> bool {
    exists|toks: Seq<(Seq<char>, Seq<Seq<char>>)>| d == #[trigger] estimate_spec(word, toks, threshold, places)
}

proof fn lemma_all_tags_step(toks: Seq<TaggedToken>, j: int)
    requires
        0 <= j < toks.len(),
    ensures
        all_tags(token_views(toks.subrange(0, j + 1))) == all_tags(token_views(toks.subrange(0, j))) + toks[j].tags@.len(),
{
    assert(token_views(toks.subrange(0, j + 1)).drop_last() =~= token_views(toks.subrange(0, j)));
}

/// True when the tags in `tokens` can be counted in a `u64`.
fn countable(tokens: &Vec<TaggedToken>) -> (r: bool)
    ensures
        r == (all_tags(token_views(tokens@)) <= u64::MAX),
{
    let mut n: u64 = 0;
    let mut j: usize = 0;
    while j < tokens.len()
        invariant
            j <= tokens@.len(),
            n == all_tags(token_views(tokens@.subrange(0, j as int))),
        decreases tokens.len() - j,
    {
        proof { lemma_all_tags_step(tokens@, j as int); }
        let m = tokens[j].tags.len() as u64;
        if n > u64::MAX - m {
            proof {
                lemma_all_tags_step(tokens@, j as int);
                lemma_all_tags_prefix(token_views(tokens@), j as int + 1);
                assert(token_views(tokens@).subrange(0, j as int + 1) =~= token_views(tokens@.subrange(0, j as int + 1)));
            }
            return false;
        }
        n = n + m;
        j = j + 1;
    }
    assert(tokens@.subrange(0, j as int) =~= tokens@);
    true
}

/// Tags every diagnostic sentence for `word` and counts the categories seen
/// on the tokens that are `word`, ignoring case. Whatever the tagger returns,
/// the result is the count over some sequence of tagged tokens.
pub fn calculate_observed_weights(checker: &GrammarChecker, word: &str) -> (r: TagCounts)
    ensures
        r.wf(),
        exists|toks: Seq<(Seq<char>, Seq<Seq<char>>)>| {
            &&& r.total == observations(lower_of(word@), toks)
            &&& r.counts@ == #[trigger] counts_of(lower_of(word@), toks)
        },
{
    let contexts = get_test_contexts(word);
    let mut all: Vec<TaggedToken> = Vec::new();
    let mut c: usize = 0;
    while c < contexts.len()
        invariant
            c <= contexts@.len(),
        decreases contexts.len() - c,
    {
        let mut toks = tag_sentence(checker, contexts[c].as_str());
        all.append(&mut toks);
        c = c + 1;
    }
    if countable(&all) {
        let r = count_tags(word, &all);
        let ghost tv = token_views(all@);
        assert(r.counts@ =~= counts_of(lower_of(word@), tv));
        r
    } else {
        let mut counts: Vec<u64> = Vec::new();
        let mut k: usize = 0;
        while k < NUM_POS
            invariant
                k <= NUM_POS,
                counts@.len() == k,
                forall|i: int| 0 <= i < k ==> counts@[i] == 0,
            decreases NUM_POS - k,
        {
            counts.push(0);
            k = k + 1;
        }
        let r = TagCounts { counts, total: 0 };
        let ghost none: Seq<(Seq<char>, Seq<Seq<char>>)> = Seq::empty();
        assert(r.counts@ =~= counts_of(lower_of(word@), none));
        r
    }
}

/// Estimates the distribution of `word`: tags counted over the diagnostic
/// sentences, then thresholded, rounded and renormalized.
pub fn estimate_word(checker: &GrammarChecker, word: &str, threshold: u64, places: usize) -> (r: Dist)
    requires
        places <= SCALE_DIGITS,
    ensures
        r.wf(),
        forall|i: int| 0 <= i < NUM_POS ==> 0 <= #[trigger] r@[i] <= UNIT,
        estimated_from(r@, word@, threshold as int, places as nat),
{
    let c = calculate_observed_weights(checker, word);
    let r = postprocess(&c, threshold, places);
    let ghost toks = choose|toks: Seq<(Seq<char>, Seq<Seq<char>>)>| {
        &&& c.total == observations(lower_of(word@), toks)
        &&& c.counts@ == #[trigger] counts_of(lower_of(word@), toks)
    };
    assert(r@ == estimate_spec(word@, toks, threshold as int, places as nat));
    r
}

/// Number of entries with no category.
pub open spec fn count_empty(s: Seq<Entry>) -> nat
    decreases s.len(),
{
    if s.len() == 0 { 0 } else { count_empty(s.drop_last()) + if s.last().dist.is_zero() { 1nat } else { 0nat } }
}

/// Estimates a fresh distribution for the words of `input`, in word order, up
/// to `max_words` of them when that is given. Every word is kept, with no
/// category when the tagger gave no signal; the second result counts those.
pub fn estimate_table(
    checker: &GrammarChecker,
    input: &WordTable,
    threshold: u64,
    places: usize,
    max_words: Option<usize>,
) -> (r: (WordTable, usize))
    requires
        input.wf(),
        places <= SCALE_DIGITS,
    ensures
        r.0.wf(),
        r.0.entries@.len() == match max_words {
            Some(m) => if m < input.entries@.len() { m as int } else { input.entries@.len() as int },
            None => input.entries@.len() as int,
        },
        forall|o: int| 0 <= o < r.0.entries@.len() ==> #[trigger] r.0.entries@[o].word@ == input.entries@[o].word@,
        forall|o: int| 0 <= o < r.0.entries@.len() ==> estimated_from(
            #[trigger] r.0.entries@[o].dist@, input.entries@[o].word@, threshold as int, places as nat),
        r.1 == count_empty(r.0.entries@),
{
    let n0 = input.entries.len();
    let n = match max_words {
        Some(m) => if m < n0 { m } else { n0 },
        None => n0,
    };
    let ghost s = input.entries@;
    let mut out: Vec<Entry> = Vec::new();
    let mut empty: usize = 0;
    let mut i: usize = 0;
    while i < n
        invariant
            s == input.entries@,
            input.wf(),
            places <= SCALE_DIGITS,
            n <= s.len(),
            i <= n,
            out@.len() == i,
            empty <= i,
            empty == count_empty(out@),
            forall|o: int| 0 <= o < i ==> #[trigger] out@[o].word@ == s[o].word@,
            forall|o: int| 0 <= o < i ==> #[trigger] out@[o].dist.wf(),
            forall|o: int| 0 <= o < i ==> estimated_from(
                #[trigger] out@[o].dist@, s[o].word@, threshold as int, places as nat),
        decreases n - i,
    {
        let word = input.entries[i].word.clone();
        let d = estimate_word(checker, word.as_str(), threshold, places);
        let is_empty = d.is_empty();
        let ghost old_out = out@;
        out.push(Entry { word, dist: d });
        proof {
            assert(out@.drop_last() =~= old_out);
            assert forall|o: int| 0 <= o < i implies out@[o] == old_out[o] by {}
        }
        if is_empty {
            empty = empty + 1;
        }
        i = i + 1;
    }
    proof {
        assert forall|a: int, b: int| 0 <= a < b < out@.len() implies
            crate::table::lex_lt(#[trigger] out@[a].key(), #[trigger] out@[b].key()) by {
            assert(out@[a].key() == s[a].key());
            assert(out@[b].key() == s[b].key());
        }
    }
    (WordTable { entries: out }, empty)
}

} // verus!
