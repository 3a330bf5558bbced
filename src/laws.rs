use vstd::prelude::*;
use crate::types::NUM_POS;
use crate::weights::{round_to, round_places, step, pow10, diff_spec, seq_sum, SCALE_DIGITS, UNIT};
use crate::estimate::{rounded_shares, postprocess_spec};
use crate::table::{Entry, sorted, has_key, weights_of, in_universe, delta_of, all_zero, is_diff_of, lemma_weights_at};

verus! {

/// Each weight negated.
pub open spec fn negated(s: Seq<int>) -> Seq<int> {
    s.map_values(|x: int| -x)
}

proof fn lemma_pow10_pos(n: nat)
    ensures
        pow10(n) >= 1,
    decreases n,
{
    if n > 0 {
        lemma_pow10_pos((n - 1) as nat);
    }
}

/// Rounding halves away from zero commutes with negation.
pub proof fn lemma_round_neg(v: int, places: nat)
    requires
        places <= SCALE_DIGITS,
    ensures
        round_places(-v, places) == -round_places(v, places),
{
    let m = step(places);
    lemma_pow10_pos((SCALE_DIGITS - places) as nat);
    if v == 0 {
        assert(m / (2 * m) == 0) by (nonlinear_arith) requires m >= 1;
        assert(round_to(0, m) == 0);
    } else if v > 0 {
        assert(round_to(-v, m) == -(((2 * v + m) / (2 * m)) * m));
        assert(round_to(v, m) == ((2 * v + m) / (2 * m)) * m);
    } else {
        assert(round_to(v, m) == -(((-2 * v + m) / (2 * m)) * m));
        assert(round_to(-v, m) == ((-2 * v + m) / (2 * m)) * m);
    }
}

/// Differencing one table against itself rounds every category to zero.
pub proof fn lemma_round_zero(places: nat)
    requires
        places <= SCALE_DIGITS,
    ensures
        round_places(0, places) == 0,
{
    lemma_round_neg(0, places);
}

/// Differencing is antisymmetric: the two orders compare the same words, and
/// their deltas are exact negations, category by category.
pub proof fn lemma_delta_antisymmetric(t1: Seq<Entry>, t2: Seq<Entry>, both_only: bool, places: nat, k: Seq<u8>)
    requires
        places <= SCALE_DIGITS,
    ensures
        in_universe(t1, t2, both_only, k) == in_universe(t2, t1, both_only, k),
        delta_of(t2, t1, k, places) == negated(delta_of(t1, t2, k, places)),
        all_zero(delta_of(t2, t1, k, places)) == all_zero(delta_of(t1, t2, k, places)),
{
    let a = weights_of(t1, k);
    let b = weights_of(t2, k);
    assert forall|i: int| 0 <= i < NUM_POS implies #[trigger] diff_spec(b, a, places)[i] == -diff_spec(a, b, places)[i] by {
        lemma_round_neg(a[i] - b[i], places);
        assert(b[i] - a[i] == -(a[i] - b[i]));
    }
    let d12 = delta_of(t1, t2, k, places);
    let d21 = delta_of(t2, t1, k, places);
    assert(d21 =~= negated(d12));
    if !all_zero(d12) {
        let q = choose|q: int| 0 <= q < d12.len() && d12[q] != 0;
        assert(d21[q] != 0);
    }
    if !all_zero(d21) {
        let q = choose|q: int| 0 <= q < d21.len() && d21[q] != 0;
        assert(d12[q] != 0);
    }
}

/// Differencing symmetry: the delta table of `t2` against `t1` holds the same
/// words as that of `t1` against `t2`, with every weight negated.
pub proof fn lemma_diff_symmetric(
    t1: Seq<Entry>,
    t2: Seq<Entry>,
    both_only: bool,
    places: nat,
    d12: Seq<Entry>,
    d21: Seq<Entry>,
)
    requires
        places <= SCALE_DIGITS,
        sorted(d12),
        sorted(d21),
        is_diff_of(t1, t2, both_only, places, d12),
        is_diff_of(t2, t1, both_only, places, d21),
    ensures
        forall|k: Seq<u8>| #[trigger] has_key(d12, k) == has_key(d21, k),
        forall|k: Seq<u8>| #[trigger] weights_of(d21, k) == negated(weights_of(d12, k)),
{
    assert forall|k: Seq<u8>| #[trigger] has_key(d12, k) == has_key(d21, k) by {
        lemma_delta_antisymmetric(t1, t2, both_only, places, k);
        if has_key(d12, k) {
            let o = choose|o: int| 0 <= o < d12.len() && #[trigger] d12[o].key() == k;
            assert(d12[o].key() == k);
        }
        if has_key(d21, k) {
            let o = choose|o: int| 0 <= o < d21.len() && #[trigger] d21[o].key() == k;
            assert(d21[o].key() == k);
        }
    }
    assert forall|k: Seq<u8>| #[trigger] weights_of(d21, k) == negated(weights_of(d12, k)) by {
        lemma_delta_antisymmetric(t1, t2, both_only, places, k);
        if has_key(d12, k) {
            let o = choose|o: int| 0 <= o < d12.len() && #[trigger] d12[o].key() == k;
            lemma_weights_at(d12, o);
            let p = choose|p: int| 0 <= p < d21.len() && #[trigger] d21[p].key() == k;
            lemma_weights_at(d21, p);
        } else {
            assert(negated(Seq::new(NUM_POS as nat, |i: int| 0)) =~= Seq::new(NUM_POS as nat, |i: int| 0));
        }
    }
}

/// Differencing a table against itself yields an empty delta table.
pub proof fn lemma_diff_self_empty(t: Seq<Entry>, both_only: bool, places: nat, d: Seq<Entry>)
    requires
        places <= SCALE_DIGITS,
        is_diff_of(t, t, both_only, places, d),
    ensures
        d.len() == 0,
{
    if d.len() > 0 {
        let k = d[0].key();
        let w = weights_of(t, k);
        assert forall|i: int| 0 <= i < NUM_POS implies #[trigger] diff_spec(w, w, places)[i] == 0 by {
            lemma_round_zero(places);
            assert(w[i] - w[i] == 0);
        }
        assert(all_zero(delta_of(t, t, k, places)));
    }
}

/// Number of non-zero entries of `s`.
pub open spec fn nonzero_count(s: Seq<int>) -> nat
    decreases s.len(),
{
    if s.len() == 0 { 0 } else { nonzero_count(s.drop_last()) + if s.last() != 0 { 1nat } else { 0nat } }
}

/// Each `r[i]` rescaled by `big_s` to `p` steps, rounded half up.
pub open spec fn rescaled(r: Seq<int>, big_s: int, p: int) -> Seq<int> {
    r.map_values(|x: int| (2 * x * p + big_s) / (2 * big_s))
}

proof fn lemma_rescale_error(x: int, big_s: int, p: int)
    requires
        big_s > 0,
        p >= 1,
        x >= 0,
    ensures
        ({
            let q = (2 * x * p + big_s) / (2 * big_s);
            &&& -big_s <= 2 * big_s * q - 2 * x * p <= big_s
            &&& x == 0 ==> q == 0
        }),
{
    let v = 2 * x * p + big_s;
    let d = 2 * big_s;
    let q = v / d;
    assert(d * q <= v && v < d * q + d) by (nonlinear_arith) requires d > 0, q == v / d;
    if x == 0 {
        assert(2 * x * p == 0) by (nonlinear_arith) requires x == 0;
        assert(v == big_s);
        assert(q == 0) by (nonlinear_arith) requires q == big_s / (2 * big_s), big_s > 0;
    }
}

proof fn lemma_rescaled_prefix(r: Seq<int>, big_s: int, p: int, n: int)
    requires
        big_s > 0,
        p >= 1,
        0 <= n <= r.len(),
        forall|i: int| 0 <= i < r.len() ==> r[i] >= 0,
    ensures
        ({
            let e = 2 * big_s * seq_sum(rescaled(r, big_s, p).subrange(0, n)) - 2 * p * seq_sum(r.subrange(0, n));
            -big_s * nonzero_count(r.subrange(0, n)) <= e <= big_s * nonzero_count(r.subrange(0, n))
        }),
    decreases n,
{
    let q = rescaled(r, big_s, p);
    if n == 0 {
        assert(q.subrange(0, 0).len() == 0);
        assert(r.subrange(0, 0).len() == 0);
        assert(seq_sum(q.subrange(0, 0)) == 0);
        assert(seq_sum(r.subrange(0, 0)) == 0);
        assert(2 * big_s * 0 - 2 * p * 0 == 0) by (nonlinear_arith);
        assert(-big_s * 0 == 0 && big_s * 0 == 0) by (nonlinear_arith);
    } else {
        lemma_rescaled_prefix(r, big_s, p, n - 1);
        let rp = r.subrange(0, n);
        let qp = q.subrange(0, n);
        assert(rp.drop_last() =~= r.subrange(0, n - 1));
        assert(qp.drop_last() =~= q.subrange(0, n - 1));
        lemma_rescale_error(r[n - 1], big_s, p);
        let a = seq_sum(q.subrange(0, n - 1));
        let b = seq_sum(r.subrange(0, n - 1));
        let k = nonzero_count(r.subrange(0, n - 1)) as int;
        let x = r[n - 1];
        let y = q[n - 1];
        assert(rp.last() == x);
        assert(qp.last() == y);
        assert(seq_sum(qp) == a + y);
        assert(seq_sum(rp) == b + x);
        assert(nonzero_count(rp) == k + if x != 0 { 1int } else { 0int });
        assert(y == (2 * x * p + big_s) / (2 * big_s));
        assert(2 * big_s * (a + y) - 2 * p * (b + x) == (2 * big_s * a - 2 * p * b) + (2 * big_s * y - 2 * x * p))
            by (nonlinear_arith);
        assert(big_s * (k + 1) == big_s * k + big_s) by (nonlinear_arith);
        assert(-big_s * (k + 1) == -big_s * k - big_s) by (nonlinear_arith);
        let t = 2 * big_s * y - 2 * x * p;
        assert(-big_s <= t <= big_s);
        if x == 0 {
            assert(y == 0);
            assert(t == 0) by (nonlinear_arith) requires t == 2 * big_s * y - 2 * x * p, x == 0, y == 0;
        }
        let e0 = 2 * big_s * a - 2 * p * b;
        assert(-big_s * k <= e0 <= big_s * k);
    }
}

/// Renormalization error: when the rounded shares of a word do not all
/// vanish, the post-processed weights sum to 1.0 plus a whole number `e` of
/// steps of the last kept digit, with `|e|` at most half the number of
/// categories kept.
pub proof fn lemma_normalized_sum(c: Seq<u64>, total: int, threshold: int, places: nat)
    requires
        c.len() == crate::types::NUM_POS,
        forall|i: int| 0 <= i < c.len() ==> c[i] <= total,
        places <= SCALE_DIGITS,
        seq_sum(rounded_shares(c, total, threshold, places)) > 0,
    ensures
        ({
            let r = rounded_shares(c, total, threshold, places);
            let k = nonzero_count(r) as int;
            let e = seq_sum(rescaled(r, seq_sum(r), pow10(places))) - pow10(places);
            &&& seq_sum(postprocess_spec(c, total, threshold, places)) - UNIT == e * step(places)
            &&& 2 * e <= k
            &&& -2 * e <= k
        }),
{
    let r = rounded_shares(c, total, threshold, places);
    let big_s = seq_sum(r);
    let p = pow10(places);
    let m = step(places);
    lemma_pow10_pos(places);
    lemma_pow10_pos((SCALE_DIGITS - places) as nat);
    crate::weights::lemma_pow10_split(places);
    assert forall|i: int| 0 <= i < r.len() implies r[i] >= 0 by {
        if crate::estimate::kept(c, total, threshold, i) {
            let n = c[i] as int;
            assert(n >= 1 && total >= 1);
            assert((2 * n * p + total) / (2 * total) >= 0) by (nonlinear_arith)
                requires n >= 1, total >= 1, p >= 1;
            assert(m >= 1);
            let q = (2 * n * p + total) / (2 * total);
            assert(q * m >= 0) by (nonlinear_arith) requires q >= 0, m >= 1;
        }
    }
    lemma_rescaled_prefix(r, big_s, p, r.len() as int);
    let q = rescaled(r, big_s, p);
    assert(r.subrange(0, r.len() as int) =~= r);
    assert(q.subrange(0, q.len() as int) =~= q);
    let o = postprocess_spec(c, total, threshold, places);
    assert(o =~= q.map_values(|y: int| y * m));
    lemma_sum_scaled(q, m);
    let k = nonzero_count(r) as int;
    let e = seq_sum(q) - p;
    assert(2 * big_s * seq_sum(q) - 2 * p * big_s == 2 * big_s * e) by (nonlinear_arith)
        requires e == seq_sum(q) - p;
    assert(2 * e <= k && -2 * e <= k) by (nonlinear_arith)
        requires -big_s * k <= 2 * big_s * e <= big_s * k, big_s > 0;
    assert(seq_sum(o) - UNIT == e * m) by (nonlinear_arith)
        requires seq_sum(o) == seq_sum(q) * m, p * m == UNIT, e == seq_sum(q) - p;
}

proof fn lemma_sum_scaled(q: Seq<int>, m: int)
    ensures
        seq_sum(q.map_values(|y: int| y * m)) == seq_sum(q) * m,
    decreases q.len(),
{
    if q.len() > 0 {
        let qm = q.map_values(|y: int| y * m);
        assert(qm.drop_last() =~= q.drop_last().map_values(|y: int| y * m));
        lemma_sum_scaled(q.drop_last(), m);
        let a = seq_sum(q.drop_last());
        assert(a * m + q.last() * m == (a + q.last()) * m) by (nonlinear_arith);
    }
}

/// Estimation normalization: when at most three categories survive the
/// threshold with a non-zero rounded share, the post-processed weights sum to
/// 1.0 within one step of the last kept digit.
pub proof fn lemma_normalized_within_step(c: Seq<u64>, total: int, threshold: int, places: nat)
    requires
        c.len() == crate::types::NUM_POS,
        forall|i: int| 0 <= i < c.len() ==> c[i] <= total,
        places <= SCALE_DIGITS,
        seq_sum(rounded_shares(c, total, threshold, places)) > 0,
        nonzero_count(rounded_shares(c, total, threshold, places)) <= 3,
    ensures
        -step(places) <= seq_sum(postprocess_spec(c, total, threshold, places)) - UNIT <= step(places),
{
    lemma_normalized_sum(c, total, threshold, places);
    let k = nonzero_count(rounded_shares(c, total, threshold, places)) as int;
    let m = step(places);
    let err = seq_sum(postprocess_spec(c, total, threshold, places)) - UNIT;
    let r = rounded_shares(c, total, threshold, places);
    let e = seq_sum(rescaled(r, seq_sum(r), pow10(places))) - pow10(places);
    lemma_pow10_pos((SCALE_DIGITS - places) as nat);
    assert(-1 <= e <= 1);
    assert(-m <= e * m <= m) by (nonlinear_arith) requires -1 <= e <= 1, m >= 1;
}

} // verus!
