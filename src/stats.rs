use vstd::prelude::*;

verus! {

/// The largest number of records whose statistics one key may accumulate:
/// `999 * MAX_RECORDS` still fits an `i64` sum.
pub const MAX_RECORDS: u64 = 9_000_000_000_000_000;

/// Statistics of one key as mathematical integers.
pub struct Summary {
    pub min: int,
    pub max: int,
    pub sum: int,
    pub count: nat,
}

/// The statistics of a single value.
pub open spec fn single(v: int) -> Summary {
    Summary { min: v, max: v, sum: v, count: 1 }
}

/// Statistics of the union of two groups of values.
pub open spec fn combine(a: Summary, b: Summary) -> Summary {
    Summary {
        min: if a.min <= b.min { a.min } else { b.min },
        max: if a.max >= b.max { a.max } else { b.max },
        sum: a.sum + b.sum,
        count: a.count + b.count,
    }
}

/// Combining two groups does not depend on their order.
pub proof fn lemma_combine_commutative(a: Summary, b: Summary)
    ensures
        combine(a, b) == combine(b, a),
{
}

/// Combining three groups does not depend on how they are grouped.
pub proof fn lemma_combine_associative(a: Summary, b: Summary, c: Summary)
    ensures
        combine(combine(a, b), c) == combine(a, combine(b, c)),
{
}

/// Running statistics of the values seen for one key, in tenths.
#[derive(Debug, Clone, Copy, PartialEq, Eq, Structural)]
pub struct StationStats {
    pub min: i64,
    pub max: i64,
    pub sum: i64,
    pub count: u64,
}

impl View for StationStats {
    type V = Summary;

    open spec fn view(&self) -> Summary {
        Summary { min: self.min as int, max: self.max as int, sum: self.sum as int, count: self.count as nat }
    }
}

/// Statistics that some non-empty group of at most `MAX_RECORDS` values in
/// `[-999, 999]` can have.
pub open spec fn summary_wf(s: Summary) -> bool {
    &&& 1 <= s.count <= MAX_RECORDS
    &&& -999 <= s.min <= s.max <= 999
    &&& s.count * s.min <= s.sum <= s.count * s.max
}

pub proof fn lemma_single_wf(v: int)
    requires
        -999 <= v <= 999,
    ensures
        summary_wf(single(v)),
{
}

pub proof fn lemma_combine_wf(a: Summary, b: Summary)
    requires
        summary_wf(a),
        summary_wf(b),
        a.count + b.count <= MAX_RECORDS,
    ensures
        summary_wf(combine(a, b)),
{
    let c = combine(a, b);
    assert(a.count * c.min <= a.count * a.min) by (nonlinear_arith)
        requires c.min <= a.min, a.count >= 1;
    assert(b.count * c.min <= b.count * b.min) by (nonlinear_arith)
        requires c.min <= b.min, b.count >= 1;
    assert(a.count * a.max <= a.count * c.max) by (nonlinear_arith)
        requires c.max >= a.max, a.count >= 1;
    assert(b.count * b.max <= b.count * c.max) by (nonlinear_arith)
        requires c.max >= b.max, b.count >= 1;
    assert(c.count * c.min == a.count * c.min + b.count * c.min) by (nonlinear_arith)
        requires c.count == a.count + b.count;
    assert(c.count * c.max == a.count * c.max + b.count * c.max) by (nonlinear_arith)
        requires c.count == a.count + b.count;
}

/// A well-formed summary's sum fits an `i64` with room for the bounds above.
pub proof fn lemma_summary_sum_bounds(s: Summary)
    requires
        summary_wf(s),
    ensures
        -999 * MAX_RECORDS <= s.sum <= 999 * MAX_RECORDS,
{
    assert(-999 * s.count <= s.count * s.min) by (nonlinear_arith)
        requires s.min >= -999, s.count >= 0;
    assert(s.count * s.max <= 999 * s.count) by (nonlinear_arith)
        requires s.max <= 999, s.count >= 0;
}

impl StationStats {
    /// Statistics of one value.
    pub fn new(v: i64) -> (r: StationStats)
        ensures
            r@ == single(v as int),
    {
        StationStats { min: v, max: v, sum: v, count: 1 }
    }

    /// Folds in the statistics of another group of values.
    pub fn combine_with(&mut self, other: &StationStats)
        requires
            summary_wf(old(self)@),
            summary_wf(other@),
            old(self)@.count + other@.count <= MAX_RECORDS,
        ensures
            final(self)@ == combine(old(self)@, other@),
            summary_wf(final(self)@),
    {
        proof {
            lemma_combine_wf(self@, other@);
            lemma_summary_sum_bounds(combine(self@, other@));
        }
        if other.min < self.min {
            self.min = other.min;
        }
        if other.max > self.max {
            self.max = other.max;
        }
        self.sum = self.sum + other.sum;
        self.count = self.count + other.count;
    }

    /// Folds in one more value.
    pub fn absorb(&mut self, v: i64)
        requires
            summary_wf(old(self)@),
            -999 <= v <= 999,
            old(self)@.count + 1 <= MAX_RECORDS,
        ensures
            final(self)@ == combine(old(self)@, single(v as int)),
            summary_wf(final(self)@),
    {
        proof {
            lemma_single_wf(v as int);
        }
        let one = StationStats::new(v);
        self.combine_with(&one);
    }
}

} // verus!
