use vstd::prelude::*;

verus! {

/// The mathematical content of a station's running statistic.
pub struct Stat {
    pub count: nat,
    pub min: int,
    pub max: int,
    pub sum: int,
}

/// The statistic of a single reading.
pub open spec fn stat_of(value: int) -> Stat {
    Stat { count: 1, min: value, max: value, sum: value }
}

pub open spec fn spec_min(a: int, b: int) -> int {
    if a <= b { a } else { b }
}

pub open spec fn spec_max(a: int, b: int) -> int {
    if a >= b { a } else { b }
}

/// Folding one more reading into a statistic.
pub open spec fn add_value(s: Stat, value: int) -> Stat {
    Stat {
        count: s.count + 1,
        min: spec_min(s.min, value),
        max: spec_max(s.max, value),
        sum: s.sum + value,
    }
}

/// Merging the statistics of two disjoint sets of readings.
pub open spec fn combine(a: Stat, b: Stat) -> Stat {
    Stat {
        count: a.count + b.count,
        min: spec_min(a.min, b.min),
        max: spec_max(a.max, b.max),
        sum: a.sum + b.sum,
    }
}

/// Integer division that truncates toward zero.
pub open spec fn trunc_div(a: int, b: int) -> int {
    if a >= 0 { a / b } else { -((-a) / b) }
}

/// The mean reading, truncated toward zero.
pub open spec fn mean_of(s: Stat) -> int {
    trunc_div(s.sum, s.count as int)
}

/// The invariant that every statistic built from readings satisfies.
pub open spec fn stat_wf(s: Stat) -> bool {
    &&& 1 <= s.count <= u64::MAX
    &&& i64::MIN <= s.min <= s.max <= i64::MAX
    &&& s.count * s.min <= s.sum <= s.count * s.max
}

/// Running count, minimum, maximum and sum of the scaled readings of one station.
#[derive(Clone, Copy, Debug, PartialEq, Eq, Structural)]
pub struct StationData {
    count: u64,
    min: i64,
    max: i64,
    sum: i128,
}

impl View for StationData {
    type V = Stat;

    closed spec fn view(&self) -> Stat {
        Stat { count: self.count as nat, min: self.min as int, max: self.max as int, sum: self.sum as int }
    }
}

proof fn lemma_sum_bounds(count: int, min: int, max: int, sum: int)
    requires
        1 <= count <= u64::MAX,
        i64::MIN <= min <= max <= i64::MAX,
        count * min <= sum <= count * max,
    ensures
        i128::MIN < sum < i128::MAX,
{
    assert(count * min >= u64::MAX * i64::MIN) by (nonlinear_arith)
        requires
            1 <= count <= u64::MAX,
            i64::MIN <= min <= 0 || 0 <= min,
    {
    }
    assert(count * max <= u64::MAX * i64::MAX) by (nonlinear_arith)
        requires
            1 <= count <= u64::MAX,
            max <= i64::MAX,
    {
    }
}

impl StationData {
    pub open spec fn wf(&self) -> bool {
        stat_wf(self@)
    }

    /// The statistic of a single reading.
    pub fn new(temp: i64) -> (r: Self)
        ensures
            r@ == stat_of(temp as int),
            r.wf(),
    {
        StationData { count: 1, min: temp, max: temp, sum: temp as i128 }
    }

    /// Folds one more reading in; the count must still fit.
    pub fn add_temp_data(&mut self, temperature: i64)
        requires
            old(self).wf(),
            old(self)@.count < u64::MAX,
        ensures
            final(self)@ == add_value(old(self)@, temperature as int),
            final(self).wf(),
    {
        proof {
            lemma_sum_bounds(self.count as int, self.min as int, self.max as int, self.sum as int);
            let c = self.count as int;
            let (lo, hi, s, t) = (self.min as int, self.max as int, self.sum as int, temperature as int);
            let nlo = spec_min(lo, t);
            let nhi = spec_max(hi, t);
            assert((c + 1) * nlo <= s + t) by (nonlinear_arith)
                requires c >= 1, c * lo <= s, nlo <= lo, nlo <= t;
            assert(s + t <= (c + 1) * nhi) by (nonlinear_arith)
                requires c >= 1, s <= c * hi, hi <= nhi, t <= nhi;
            lemma_sum_bounds(c + 1, nlo, nhi, s + t);
        }
        self.count = self.count + 1;
        if temperature < self.min {
            self.min = temperature;
        }
        if temperature > self.max {
            self.max = temperature;
        }
        self.sum = self.sum + temperature as i128;
    }

    /// Merges another statistic into this one; the combined count must fit.
    pub fn combine(&mut self, other: &Self)
        requires
            old(self).wf(),
            other.wf(),
            old(self)@.count + other@.count <= u64::MAX,
        ensures
            final(self)@ == combine(old(self)@, other@),
            final(self).wf(),
    {
        proof {
            lemma_sum_bounds(self.count as int, self.min as int, self.max as int, self.sum as int);
            lemma_sum_bounds(other.count as int, other.min as int, other.max as int, other.sum as int);
            let (c, d) = (self.count as int, other.count as int);
            let (lo1, hi1, s1) = (self.min as int, self.max as int, self.sum as int);
            let (lo2, hi2, s2) = (other.min as int, other.max as int, other.sum as int);
            let nlo = spec_min(lo1, lo2);
            let nhi = spec_max(hi1, hi2);
            assert((c + d) * nlo <= s1 + s2) by (nonlinear_arith)
                requires c >= 1, d >= 1, c * lo1 <= s1, d * lo2 <= s2, nlo <= lo1, nlo <= lo2;
            assert(s1 + s2 <= (c + d) * nhi) by (nonlinear_arith)
                requires c >= 1, d >= 1, s1 <= c * hi1, s2 <= d * hi2, hi1 <= nhi, hi2 <= nhi;
            lemma_sum_bounds(c + d, nlo, nhi, s1 + s2);
        }
        self.count = self.count + other.count;
        if other.min < self.min {
            self.min = other.min;
        }
        if other.max > self.max {
            self.max = other.max;
        }
        self.sum = self.sum + other.sum;
    }

    pub fn count(&self) -> (r: u64)
        ensures
            r as nat == self@.count,
    {
        self.count
    }

    pub fn min(&self) -> (r: i64)
        ensures
            r as int == self@.min,
    {
        self.min
    }

    pub fn max(&self) -> (r: i64)
        ensures
            r as int == self@.max,
    {
        self.max
    }

    pub fn sum(&self) -> (r: i128)
        ensures
            r as int == self@.sum,
    {
        self.sum
    }

    /// The mean reading, by integer division truncating toward zero.
    pub fn calculate_mean(&self) -> (r: i64)
        requires
            self.wf(),
        ensures
            r as int == mean_of(self@),
    {
        proof {
            lemma_sum_bounds(self.count as int, self.min as int, self.max as int, self.sum as int);
            lemma_mean_in_range(self@);
        }
        if self.sum >= 0 {
            ((self.sum as u128) / (self.count as u128)) as i64
        } else {
            let magnitude: u128 = (-self.sum) as u128;
            let q: u128 = magnitude / (self.count as u128);
            -(q as i128) as i64
        }
    }
}

/// The truncated mean lies between the minimum and the maximum.
pub proof fn lemma_mean_in_range(s: Stat)
    requires
        stat_wf(s),
    ensures
        s.min <= mean_of(s) <= s.max,
{
    let c = s.count as int;
    if s.sum >= 0 {
        let q = s.sum / c;
        assert(q * c <= s.sum < (q + 1) * c) by (nonlinear_arith)
            requires c >= 1, q == s.sum / c;
        assert(s.min <= q) by (nonlinear_arith)
            requires c >= 1, c * s.min <= s.sum, s.sum < (q + 1) * c, s.sum >= 0, q >= 0;
        assert(q <= s.max) by (nonlinear_arith)
            requires c >= 1, q * c <= s.sum, s.sum <= c * s.max;
    } else {
        let q = (-s.sum) / c;
        assert(q * c <= -s.sum < (q + 1) * c) by (nonlinear_arith)
            requires c >= 1, q == (-s.sum) / c;
        assert(-q <= s.max) by (nonlinear_arith)
            requires c >= 1, s.sum <= c * s.max, s.sum < 0, -s.sum < (q + 1) * c, q >= 0;
        assert(s.min <= -q) by (nonlinear_arith)
            requires c >= 1, c * s.min <= s.sum, q * c <= -s.sum;
    }
}

/// Merging statistics does not depend on the order of the operands.
pub proof fn lemma_combine_commutative(a: Stat, b: Stat)
    ensures
        combine(a, b) == combine(b, a),
{
}

/// Merging statistics does not depend on how the merges are grouped.
pub proof fn lemma_combine_associative(a: Stat, b: Stat, c: Stat)
    ensures
        combine(combine(a, b), c) == combine(a, combine(b, c)),
{
}

} // verus!
