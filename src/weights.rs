use vstd::prelude::*;
use crate::types::NUM_POS;

verus! {

/// Number of decimal digits held by a fixed-point weight.
pub const SCALE_DIGITS: usize = 9;

/// The fixed-point value of 1.0.
pub const UNIT: u64 = 1_000_000_000;

/// Bound on the magnitude of any weight held in a table.
pub const WEIGHT_MAX: i64 = 1_000_000_000_000_000_000;

pub open spec fn pow10(n: nat) -> int
    decreases n,
{
    if n == 0 { 1 } else { 10 * pow10((n - 1) as nat) }
}

/// Size, in fixed-point units, of one step of the last kept decimal digit.
pub open spec fn step(places: nat) -> int {
    pow10((SCALE_DIGITS - places) as nat)
}

/// `v` rounded to a multiple of `m`, halves away from zero.
pub open spec fn round_to(v: int, m: int) -> int {
    if v >= 0 {
        ((2 * v + m) / (2 * m)) * m
    } else {
        -(((-2 * v + m) / (2 * m)) * m)
    }
}

/// `v` rounded to `places` decimal digits.
pub open spec fn round_places(v: int, places: nat) -> int {
    round_to(v, step(places))
}

/// The ratio `n / d`, as a fixed-point weight rounded to `places` digits
/// (halves away from zero).
pub open spec fn round_ratio(n: int, d: int, places: nat) -> int {
    ((2 * n * pow10(places) + d) / (2 * d)) * step(places)
}

/// Number of non-zero entries.
pub open spec fn count_nonzero(s: Seq<i64>) -> nat
    decreases s.len(),
{
    if s.len() == 0 { 0 } else { count_nonzero(s.drop_last()) + if s.last() != 0 { 1nat } else { 0nat } }
}

pub open spec fn seq_sum(s: Seq<int>) -> int
    decreases s.len(),
{
    if s.len() == 0 { 0 } else { seq_sum(s.drop_last()) + s.last() }
}

/// A weight vector with one entry per category; zero means absent.
#[derive(Clone, Debug, PartialEq, Eq)]
pub struct Dist {
    pub w: Vec<i64>,
}

impl Dist {
    pub open spec fn view(&self) -> Seq<int> {
        self.w@.map_values(|x: i64| x as int)
    }

    pub open spec fn wf(&self) -> bool {
        &&& self.w@.len() == NUM_POS
        &&& forall|i: int| 0 <= i < NUM_POS ==> -WEIGHT_MAX <= #[trigger] self.w@[i] <= WEIGHT_MAX
    }

    /// The distribution with no categories.
    pub fn empty() -> (r: Dist)
        ensures
            r.wf(),
            r.is_zero(),
    {
        let mut w: Vec<i64> = Vec::new();
        let mut i: usize = 0;
        while i < NUM_POS
            invariant
                i <= NUM_POS,
                w@.len() == i,
                forall|j: int| 0 <= j < i ==> w@[j] == 0,
            decreases NUM_POS - i,
        {
            w.push(0);
            i = i + 1;
        }
        Dist { w }
    }

    pub open spec fn is_zero(&self) -> bool {
        forall|i: int| 0 <= i < self.w@.len() ==> self.w@[i] == 0
    }

    /// Number of categories present (non-zero weights).
    pub open spec fn nuance(&self) -> nat {
        count_nonzero(self.w@)
    }

    /// True when no category is present.
    pub fn is_empty(&self) -> (r: bool)
        ensures
            r == self.is_zero(),
    {
        let mut i: usize = 0;
        while i < self.w.len()
            invariant
                forall|j: int| 0 <= j < i ==> self.w@[j] == 0,
            decreases self.w.len() - i,
        {
            if self.w[i] != 0 {
                return false;
            }
            i = i + 1;
        }
        true
    }

    /// Number of categories present.
    pub fn category_count(&self) -> (r: usize)
        ensures
            r == self.nuance(),
    {
        let mut n: usize = 0;
        let mut i: usize = 0;
        while i < self.w.len()
            invariant
                i <= self.w@.len(),
                n == count_nonzero(self.w@.subrange(0, i as int)),
                n <= i,
            decreases self.w.len() - i,
        {
            proof {
                let s = self.w@.subrange(0, i as int + 1);
                assert(s.drop_last() =~= self.w@.subrange(0, i as int));
            }
            if self.w[i] != 0 {
                n = n + 1;
            }
            i = i + 1;
        }
        assert(self.w@.subrange(0, i as int) =~= self.w@);
        n
    }
}

/// `10^n` for `n` up to the fixed-point precision.
fn pow10_exec(n: usize) -> (r: u64)
    requires
        n <= SCALE_DIGITS,
    ensures
        r == pow10(n as nat),
        1 <= r <= UNIT,
{
    reveal_with_fuel(pow10, 10);
    if n == 0 { 1 }
    else if n == 1 { 10 }
    else if n == 2 { 100 }
    else if n == 3 { 1_000 }
    else if n == 4 { 10_000 }
    else if n == 5 { 100_000 }
    else if n == 6 { 1_000_000 }
    else if n == 7 { 10_000_000 }
    else if n == 8 { 100_000_000 }
    else { 1_000_000_000 }
}

pub(crate) proof fn lemma_pow10_split(p: nat)
    requires
        p <= SCALE_DIGITS,
    ensures
        pow10(p) * step(p) == UNIT,
{
    reveal_with_fuel(pow10, 10);
    assert(pow10(0) == 1);
    assert(pow10(9) == 1_000_000_000);
    assert(UNIT == 1_000_000_000);
    if p == 0 { assert(pow10(0) == 1); assert(step(0) == 1000000000); assert(pow10(p) * step(p) == 1000000000); }
    else if p == 1 { assert(pow10(1) == 10); assert(step(1) == 100000000); assert(pow10(p) * step(p) == 1000000000); }
    else if p == 2 { assert(pow10(2) == 100); assert(step(2) == 10000000); assert(pow10(p) * step(p) == 1000000000); }
    else if p == 3 { assert(pow10(3) == 1000); assert(step(3) == 1000000); assert(pow10(p) * step(p) == 1000000000); }
    else if p == 4 { assert(pow10(4) == 10000); assert(step(4) == 100000); let (a, b) = (pow10(p), step(p)); assert(a * b == 1000000000) by (nonlinear_arith) requires a == 10000, b == 100000; }
    else if p == 5 { assert(pow10(5) == 100000); assert(step(5) == 10000); assert(pow10(p) * step(p) == 1000000000); }
    else if p == 6 { assert(pow10(6) == 1000000); assert(step(6) == 1000); assert(pow10(p) * step(p) == 1000000000); }
    else if p == 7 { assert(pow10(7) == 10000000); assert(step(7) == 100); assert(pow10(p) * step(p) == 1000000000); }
    else if p == 8 { assert(pow10(8) == 100000000); assert(step(8) == 10); assert(pow10(p) * step(p) == 1000000000); }
    else { assert(pow10(9) == 1000000000); assert(step(9) == 1); assert(pow10(p) * step(p) == 1000000000); }
}

/// Rounds a fixed-point value to `places` decimal digits, halves away from zero.
pub fn round_to_decimal_places(value: i64, places: usize) -> (r: i64)
    requires
        places <= SCALE_DIGITS,
        -2 * WEIGHT_MAX <= value <= 2 * WEIGHT_MAX,
    ensures
        r == round_places(value as int, places as nat),
        -2 * WEIGHT_MAX - UNIT <= r <= 2 * WEIGHT_MAX + UNIT,
{
    let m = pow10_exec(SCALE_DIGITS - places) as i128;
    let v = value as i128;
    if v >= 0 {
        let q = (2 * v + m) / (2 * m);
        assert(q * m <= v + m) by (nonlinear_arith)
            requires q == (2 * v + m) / (2 * m), m >= 1, v >= 0;
        assert(q >= 0) by (nonlinear_arith)
            requires q == (2 * v + m) / (2 * m), m >= 1, v >= 0;
        assert(q * m >= 0) by (nonlinear_arith) requires q >= 0, m >= 1;
        (q * m) as i64
    } else {
        let q = (-2 * v + m) / (2 * m);
        assert(q * m <= -v + m) by (nonlinear_arith)
            requires q == (-2 * v + m) / (2 * m), m >= 1, v < 0;
        assert(q >= 0) by (nonlinear_arith)
            requires q == (-2 * v + m) / (2 * m), m >= 1, v < 0;
        assert(q * m >= 0) by (nonlinear_arith) requires q >= 0, m >= 1;
        (-(q * m)) as i64
    }
}

/// `n / d` rounded to `places` digits, as a fixed-point weight.
pub(crate) fn ratio_to_places(n: u64, d: u64, places: usize) -> (r: u64)
    requires
        n <= d,
        d > 0,
        places <= SCALE_DIGITS,
    ensures
        r == round_ratio(n as int, d as int, places as nat),
        r <= UNIT,
{
    let p = pow10_exec(places) as u128;
    let s = pow10_exec(SCALE_DIGITS - places) as u128;
    proof { lemma_pow10_split(places as nat); }
    let nn = n as u128;
    let dd = d as u128;
    assert(2 * nn * p + dd <= 2 * dd * p + dd) by (nonlinear_arith)
        requires nn <= dd, p >= 1;
    assert(2 * nn * p <= 2 * 0x1_0000_0000_0000_0000u128 * 1_000_000_000) by (nonlinear_arith)
        requires nn < 0x1_0000_0000_0000_0000u128, p <= 1_000_000_000;
    let x = 2 * nn * p + dd;
    let q = x / (2 * dd);
    assert(q <= p) by (nonlinear_arith)
        requires q as int == (x as int) / (2 * dd as int), x <= 2 * dd * p + dd, dd > 0;
    assert(q * s <= p * s) by (nonlinear_arith) requires q <= p;
    (q * s) as u64
}

/// Per-category difference `a - b`, each rounded to `places` digits; a zero
/// result marks the category absent.
pub open spec fn diff_spec(a: Seq<int>, b: Seq<int>, places: nat) -> Seq<int> {
    Seq::new(NUM_POS as nat, |i: int| round_places(a[i] - b[i], places))
}

/// Subtracts `weights2` from `weights1` category by category and rounds.
pub fn calculate_differences(weights1: &Dist, weights2: &Dist, places: usize) -> (r: Dist)
    requires
        weights1.wf(),
        weights2.wf(),
        places <= SCALE_DIGITS,
    ensures
        r.w@.len() == NUM_POS,
        r@ == diff_spec(weights1@, weights2@, places as nat),
{
    let mut w: Vec<i64> = Vec::new();
    let mut i: usize = 0;
    while i < NUM_POS
        invariant
            i <= NUM_POS,
            weights1.wf(),
            weights2.wf(),
            places <= SCALE_DIGITS,
            w@.len() == i,
            forall|j: int| 0 <= j < i ==> #[trigger] w@[j] == round_places(
                weights1.w@[j] - weights2.w@[j], places as nat),
        decreases NUM_POS - i,
    {
        let d = round_to_decimal_places(weights1.w[i] - weights2.w[i], places);
        w.push(d);
        i = i + 1;
    }
    let r = Dist { w };
    assert(r@ =~= diff_spec(weights1@, weights2@, places as nat));
    r
}

} // verus!
