//! Per-station accumulator: the running minimum, maximum, sum, and count of
//! the 1000-scaled readings folded in for one station.
//!
//! A fresh accumulator carries sentinels (`min` at `i64::MAX`, `max` at
//! `i64::MIN`) and a zero sum and count; once a reading has been folded the
//! sentinels are gone and the invariant `count * min <= sum <= count * max`
//! holds, which places the truncated mean between the minimum and the
//! maximum.

use crate::codec::fmt_scaled;
use crate::codec::format_float;
use crate::codec::push_bytes;
use crate::codec::READING_BOUND;
use vstd::arithmetic::div_mod::lemma_div_is_ordered;
use vstd::arithmetic::div_mod::lemma_div_multiples_vanish;
use vstd::arithmetic::div_mod::lemma_div_of0;
use vstd::arithmetic::div_mod::lemma_div_pos_is_pos;
use vstd::arithmetic::mul::lemma_mul_inequality;
use vstd::prelude::*;

verus! {

/// Integer division truncating toward zero, as the report's mean uses it.
pub open spec fn div_trunc(a: int, b: int) -> int
    recommends
        b > 0,
{
    if a >= 0 {
        a / b
    } else {
        -((-a) / b)
    }
}

#[derive(Clone, Copy, Debug)]
pub struct Station {
    pub min: i64,
    pub sum: i64,
    pub max: i64,
    pub count: i64,
}

/// The accumulator a single fold turns `s` into: minimum and maximum pulled
/// toward the reading, the reading added to the sum, the count raised by
/// one.
pub open spec fn spec_fold(s: Station, v: i64) -> Station {
    Station {
        min: if v < s.min { v } else { s.min },
        sum: (s.sum + v) as i64,
        max: if v > s.max { v } else { s.max },
        count: (s.count + 1) as i64,
    }
}

/// The accumulator before any reading: both extrema at their sentinels.
pub open spec fn empty_station() -> Station {
    Station { min: i64::MAX, sum: 0, max: i64::MIN, count: 0 }
}

impl Station {
    /// Well-formedness: an accumulator is either untouched (sentinels, zero
    /// sum and count) or carries at least one reading, bounded extrema, and
    /// a sum between `count * min` and `count * max`.
    pub open spec fn wf(self) -> bool {
        &&& 0 <= self.count
        &&& self.count == 0 ==> self.min == i64::MAX && self.max == i64::MIN && self.sum == 0
        &&& self.count >= 1 ==> {
            &&& -READING_BOUND <= self.min <= self.max <= READING_BOUND
            &&& self.count * self.min <= self.sum <= self.count * self.max
        }
    }

    /// Constructs an untouched accumulator.
    pub fn default() -> (s: Self)
        ensures
            s == empty_station(),
            s.wf(),
    {
        Self { min: i64::MAX, sum: 0, max: i64::MIN, count: 0 }
    }

    /// Constructs an accumulator holding one reading.
    pub fn new(value: i64) -> (s: Self)
        requires
            -READING_BOUND <= value <= READING_BOUND,
        ensures
            s == spec_fold(empty_station(), value),
            s.wf(),
    {
        let mut station = Self::default();
        station.add(value);
        station
    }

    /// Folds one reading into the accumulator.
    pub fn add(&mut self, value: i64)
        requires
            old(self).wf(),
            -READING_BOUND <= value <= READING_BOUND,
            i64::MIN <= old(self).sum + value <= i64::MAX,
            old(self).count < i64::MAX,
        ensures
            *final(self) == spec_fold(*old(self), value),
            final(self).wf(),
    {
        proof {
            let s = *self;
            let c = s.count as int;
            let nmin: int = if value < s.min { value as int } else { s.min as int };
            let nmax: int = if value > s.max { value as int } else { s.max as int };
            if c >= 1 {
                lemma_mul_inequality(nmin, s.min as int, c);
                lemma_mul_inequality(s.max as int, nmax, c);
                assert(c * nmin == nmin * c && c * (s.min as int) == (s.min as int) * c)
                    by (nonlinear_arith);
                assert(c * nmax == nmax * c && c * (s.max as int) == (s.max as int) * c)
                    by (nonlinear_arith);
            }
            assert((c + 1) * nmin == c * nmin + nmin) by (nonlinear_arith);
            assert((c + 1) * nmax == c * nmax + nmax) by (nonlinear_arith);
        }
        if value > self.max {
            self.max = value
        }
        if value < self.min {
            self.min = value
        }
        self.sum = self.sum + value;
        self.count = self.count + 1;
    }

    /// The truncated mean of the readings folded in so far.
    pub fn avg(&self) -> (r: i64)
        requires
            self.wf(),
            self.count >= 1,
        ensures
            r == div_trunc(self.sum as int, self.count as int),
            self.min <= r <= self.max,
    {
        proof {
            lemma_mean_between(self.min as int, self.max as int, self.sum as int,
                self.count as int);
            lemma_div_of0(self.count as int);
        }
        match self.sum.checked_div(self.count) {
            Some(q) => q,
            None => {
                proof {
                    assert(false);
                }
                0
            },
        }
    }

    /// The summary triple `(min, mean, max)` for the report.  It reads the
    /// accumulator without changing it, so repeated queries agree.
    pub fn summary(&self) -> (r: (i64, i64, i64))
        requires
            self.wf(),
            self.count >= 1,
        ensures
            r.0 == self.min,
            r.1 == div_trunc(self.sum as int, self.count as int),
            r.2 == self.max,
    {
        (self.min, self.avg(), self.max)
    }
}

/// The rendered form of an accumulator: `min/mean/max`, each field in the
/// codec's surface form.
pub open spec fn summary_seq(s: Station) -> Seq<u8> {
    fmt_scaled(s.min as int) + seq![47u8] + fmt_scaled(
        div_trunc(s.sum as int, s.count as int),
    ) + seq![47u8] + fmt_scaled(s.max as int)
}

impl Station {
    /// Renders `min/mean/max`, each field formatted by the codec.
    pub fn summary_bytes(&self) -> (r: Vec<u8>)
        requires
            self.wf(),
            self.count >= 1,
        ensures
            r@ == summary_seq(*self),
    {
        let mut out = format_float(self.min);
        out.push(47);
        let mid = format_float(self.avg());
        push_bytes(&mut out, mid.as_slice());
        out.push(47);
        let hi = format_float(self.max);
        push_bytes(&mut out, hi.as_slice());
        proof {
            assert(out@ =~= summary_seq(*self));
        }
        out
    }
}

/// The mean lies between the extrema: for every accumulator state with
/// `count >= 1` and `count * min <= sum <= count * max`, the truncated mean
/// `sum / count` satisfies `min <= sum / count <= max`.
pub proof fn lemma_mean_between(min: int, max: int, sum: int, count: int)
    requires
        count >= 1,
        count * min <= sum,
        sum <= count * max,
    ensures
        min <= div_trunc(sum, count) <= max,
{
    if sum >= 0 {
        let q = sum / count;
        lemma_div_pos_is_pos(sum, count);
        if max >= 0 {
            lemma_div_is_ordered(sum, count * max, count);
            lemma_div_multiples_vanish(max, count);
        } else {
            assert(count * max <= max) by (nonlinear_arith)
                requires
                    count >= 1 && max < 0,
            ;
        }
        if min > 0 {
            lemma_div_is_ordered(count * min, sum, count);
            lemma_div_multiples_vanish(min, count);
        }
    } else {
        let t = (-sum) / count;
        lemma_div_pos_is_pos(-sum, count);
        assert(min < 0) by {
            if min >= 0 {
                assert(count * min >= 0) by (nonlinear_arith)
                    requires
                        count >= 1 && min >= 0,
                ;
            }
        }
        assert(count * (-min) == -(count * min)) by (nonlinear_arith);
        lemma_div_is_ordered(-sum, count * (-min), count);
        lemma_div_multiples_vanish(-min, count);
        if max < 0 {
            assert(count * (-max) == -(count * max)) by (nonlinear_arith);
            lemma_div_is_ordered(count * (-max), -sum, count);
            lemma_div_multiples_vanish(-max, count);
        }
    }
}

} // verus!
