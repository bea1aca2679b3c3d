//! Running statistics of one station, and their model as a summary of the
//! readings seen: sum, count, minimum and maximum.

use vstd::prelude::*;
use vstd::arithmetic::div_mod::lemma_fundamental_div_mod_converse;
use crate::parse::MAX_READING;

verus! {

/// What is known of a station after some readings, in tenths.
pub struct Summary {
    pub sum: int,
    pub count: nat,
    pub min: int,
    pub max: int,
}

pub open spec fn min_int(a: int, b: int) -> int {
    if a <= b { a } else { b }
}

pub open spec fn max_int(a: int, b: int) -> int {
    if a >= b { a } else { b }
}

/// The summary of the single reading `r`.
pub open spec fn single(r: int) -> Summary {
    Summary { sum: r, count: 1, min: r, max: r }
}

/// The summary after one more reading `r`.
pub open spec fn add_reading(s: Summary, r: int) -> Summary {
    Summary { sum: s.sum + r, count: s.count + 1, min: min_int(s.min, r), max: max_int(s.max, r) }
}

/// The summary of the readings of `a` and of `b` together.
pub open spec fn merge_summary(a: Summary, b: Summary) -> Summary {
    Summary {
        sum: a.sum + b.sum,
        count: a.count + b.count,
        min: min_int(a.min, b.min),
        max: max_int(a.max, b.max),
    }
}

/// `num / den` rounded to the nearest integer, halves going up
/// (towards positive infinity): `1/2` gives 1, `-1/2` gives 0.
pub open spec fn round_half_up(num: int, den: int) -> int {
    (2 * num + den) / (2 * den)
}

/// The mean of a summary in tenths, rounded as `round_half_up` does.
pub open spec fn mean_of(s: Summary) -> int {
    round_half_up(s.sum, s.count as int)
}

/// Accumulated readings of one station, in tenths.
#[derive(Clone, Copy, Debug)]
pub struct StationStats {
    pub sum: i128,
    pub count: u64,
    pub min: i32,
    pub max: i32,
}

impl View for StationStats {
    type V = Summary;

    open spec fn view(&self) -> Summary {
        Summary { sum: self.sum as int, count: self.count as nat, min: self.min as int, max: self.max as int }
    }
}

impl StationStats {
    /// At least one reading, every reading within the valid range, and the sum
    /// between `count * min` and `count * max`.
    pub open spec fn wf(&self) -> bool {
        &&& self.count >= 1
        &&& -MAX_READING <= self.min <= self.max <= MAX_READING
        &&& self.count * self.min <= self.sum <= self.count * self.max
    }

    /// The statistics of one reading.
    pub fn new(r: i32) -> (s: StationStats)
        requires
            -MAX_READING <= r <= MAX_READING,
        ensures
            s.wf(),
            s@ == single(r as int),
    {
        StationStats { sum: r as i128, count: 1, min: r, max: r }
    }

    /// Takes one more reading into account.
    pub fn add_reading(&mut self, r: i32)
        requires
            old(self).wf(),
            old(self).count < u64::MAX,
            -MAX_READING <= r <= MAX_READING,
        ensures
            final(self).wf(),
            final(self)@ == add_reading(old(self)@, r as int),
    {
        proof {
            let c = self.count as int;
            assert(c * self.min >= c * (-999)) by (nonlinear_arith)
                requires c >= 1, self.min >= -999;
            assert(c * self.max <= c * 999) by (nonlinear_arith)
                requires c >= 1, self.max <= 999;
            assert(c * 999 <= 18446744073709551615 * 999) by (nonlinear_arith)
                requires c <= 18446744073709551615;
            assert((c + 1) * min_int(self.min as int, r as int) <= self.sum + r) by (nonlinear_arith)
                requires c * self.min <= self.sum, c >= 1,
                    min_int(self.min as int, r as int) <= self.min,
                    min_int(self.min as int, r as int) <= r;
            assert((c + 1) * max_int(self.max as int, r as int) >= self.sum + r) by (nonlinear_arith)
                requires c * self.max >= self.sum, c >= 1,
                    max_int(self.max as int, r as int) >= self.max,
                    max_int(self.max as int, r as int) >= r;
        }
        self.sum = self.sum + r as i128;
        self.count = self.count + 1;
        if r < self.min {
            self.min = r;
        }
        if r > self.max {
            self.max = r;
        }
    }

    /// Folds the readings of `other` into `self`.
    pub fn merge(&mut self, other: &StationStats)
        requires
            old(self).wf(),
            other.wf(),
            old(self).count + other.count <= u64::MAX,
        ensures
            final(self).wf(),
            final(self)@ == merge_summary(old(self)@, other@),
    {
        proof {
            let c = self.count as int;
            let d = other.count as int;
            let lo = min_int(self.min as int, other.min as int);
            let hi = max_int(self.max as int, other.max as int);
            assert(c * self.max <= c * 999) by (nonlinear_arith)
                requires c >= 1, self.max <= 999;
            assert(c * self.min >= c * (-999)) by (nonlinear_arith)
                requires c >= 1, self.min >= -999;
            assert(d * other.max <= d * 999) by (nonlinear_arith)
                requires d >= 1, other.max <= 999;
            assert(d * other.min >= d * (-999)) by (nonlinear_arith)
                requires d >= 1, other.min >= -999;
            assert((c + d) * 999 <= 18446744073709551615 * 999) by (nonlinear_arith)
                requires c + d <= 18446744073709551615;
            assert((c + d) * lo <= c * self.min + d * other.min) by (nonlinear_arith)
                requires c >= 1, d >= 1, lo <= self.min, lo <= other.min;
            assert((c + d) * hi >= c * self.max + d * other.max) by (nonlinear_arith)
                requires c >= 1, d >= 1, hi >= self.max, hi >= other.max;
        }
        self.sum = self.sum + other.sum;
        self.count = self.count + other.count;
        if other.min < self.min {
            self.min = other.min;
        }
        if other.max > self.max {
            self.max = other.max;
        }
    }

    /// The mean reading in tenths, rounded to the nearest tenth with halves
    /// going up.
    pub fn mean(&self) -> (m: i32)
        requires
            self.wf(),
        ensures
            m as int == mean_of(self@),
            self.min <= m <= self.max,
    {
        proof {
            let c = self.count as int;
            assert(c * 999 <= 18446744073709551615 * 999) by (nonlinear_arith)
                requires c <= 18446744073709551615;
            assert(c * self.max <= c * 999) by (nonlinear_arith)
                requires c >= 1, self.max <= 999;
            assert(c * self.min >= c * (-999)) by (nonlinear_arith)
                requires c >= 1, self.min >= -999;
        }
        let q = round_ratio(self.sum, self.count);
        proof {
            let c = self.count as int;
            let n = 2 * self.sum + c;
            let d = 2 * c;
            let r = n - d * q;
            assert(n == d * q + r);
            assert(d * self.min == 2 * (c * self.min)) by (nonlinear_arith)
                requires d == 2 * c;
            assert(d * (self.max + 1) == 2 * (c * self.max) + 2 * c) by (nonlinear_arith)
                requires d == 2 * c;
            assert(q >= self.min) by (nonlinear_arith)
                requires n == d * q + r, r < d, d > 0, n >= d * self.min;
            assert(q <= self.max) by (nonlinear_arith)
                requires n == d * q + r, r >= 0, d > 0, n < d * (self.max + 1);
        }
        q as i32
    }
}

/// The bound on the numerator that `round_ratio` accepts.
pub const RATIO_BOUND: i128 = 0x1_0000_0000_0000_0000_0000_0000;

/// `num / den` rounded to the nearest integer, halves going up: the
/// rounding of a mean given in tenths to a whole number of tenths.
pub fn round_ratio(num: i128, den: u64) -> (q: i128)
    requires
        den >= 1,
        -RATIO_BOUND <= num <= RATIO_BOUND,
    ensures
        q as int == round_half_up(num as int, den as int),
        (2 * num + den) == 2 * den * q + ((2 * num + den) - 2 * den * q),
        0 <= (2 * num + den) - 2 * den * q < 2 * den,
{
    let n: i128 = 2 * num + den as i128;
    let d: i128 = 2 * den as i128;
    if n >= 0 {
        let q = ((n as u128) / (d as u128)) as i128;
        proof {
            let r = n - d * q;
            assert(q * d <= n && n < q * d + d) by (nonlinear_arith)
                requires q == n / d, n >= 0, d > 0;
            assert(q * d == d * q) by (nonlinear_arith);
            lemma_fundamental_div_mod_converse(n as int, d as int, q as int, r as int);
        }
        q
    } else {
        let m: u128 = (-n) as u128;
        let p: u128 = (m + d as u128 - 1) / (d as u128);
        let q: i128 = -(p as i128);
        proof {
            let dd = d as int;
            let mm = m as int;
            let pp = p as int;
            assert(pp * dd <= mm + dd - 1 && mm + dd - 1 < pp * dd + dd) by (nonlinear_arith)
                requires pp == (mm + dd - 1) / dd, mm >= 0, dd > 0;
            let r = n - d * q;
            assert(mm == -(n as int));
            assert(d * q == -(pp * dd)) by (nonlinear_arith)
                requires q == -pp, d == dd;
            assert(0 <= r < d);
            assert(q * d == d * q) by (nonlinear_arith);
            lemma_fundamental_div_mod_converse(n as int, d as int, q as int, r as int);
        }
        q
    }
}

} // verus!
