//! Running statistics of one station.

use vstd::prelude::*;
use vstd::arithmetic::div_mod::{lemma_fundamental_div_mod, lemma_fundamental_div_mod_converse, lemma_mod_bound};

verus! {

/// The statistics of one station as mathematical values: the smallest and
/// the largest reading, the sum of all readings (each a whole number of
/// units, see `number`)
/// and how many readings there were.
pub struct Stats {
    pub min: int,
    pub max: int,
    pub sum: int,
    pub count: nat,
}

impl Stats {
    /// The statistics of a single reading.
    pub open spec fn single(value: int) -> Stats {
        Stats { min: value, max: value, sum: value, count: 1 }
    }

    /// The statistics after one more reading.
    pub open spec fn absorb(self, value: int) -> Stats {
        Stats {
            min: if value < self.min { value } else { self.min },
            max: if value > self.max { value } else { self.max },
            sum: self.sum + value,
            count: self.count + 1,
        }
    }

    /// The statistics of two groups of readings taken together.
    pub open spec fn combine(self, other: Stats) -> Stats {
        Stats {
            min: if other.min < self.min { other.min } else { self.min },
            max: if other.max > self.max { other.max } else { self.max },
            sum: self.sum + other.sum,
            count: self.count + other.count,
        }
    }

    /// The mean of the readings, rounded to the nearest whole unit, a tie
    /// going away from zero.
    pub open spec fn mean(self) -> int {
        if self.sum >= 0 {
            (2 * self.sum + self.count) / (2 * (self.count as int))
        } else {
            -((2 * (-self.sum) + self.count) / (2 * (self.count as int)))
        }
    }

    /// What holds of the statistics of any non-empty group of readings:
    /// there is at least one reading, the extrema are ordered, and the sum
    /// lies between `count` times the minimum and `count` times the maximum,
    /// so that the mean lies between the extrema.
    pub open spec fn consistent(self) -> bool {
        &&& self.count >= 1
        &&& self.min <= self.max
        &&& self.min * self.count <= self.sum <= self.max * self.count
    }
}

/// The running statistics of one station, within machine limits.
#[derive(Clone, Copy, Debug)]
pub struct Summary {
    min: i64,
    max: i64,
    sum: i128,
    count: u64,
}

impl View for Summary {
    type V = Stats;

    closed spec fn view(&self) -> Stats {
        Stats { min: self.min as int, max: self.max as int, sum: self.sum as int, count: self.count as nat }
    }
}

impl Summary {
    #[verifier::type_invariant]
    spec fn inv(self) -> bool {
        self@.consistent()
    }

    /// The summary of a single reading.
    pub fn single(value: i64) -> (s: Summary)
        ensures
            s@ == Stats::single(value as int),
    {
        Summary { min: value, max: value, sum: value as i128, count: 1 }
    }

    /// The smallest reading.
    pub fn min(&self) -> (v: i64)
        ensures
            v == self@.min,
    {
        self.min
    }

    /// The largest reading.
    pub fn max(&self) -> (v: i64)
        ensures
            v == self@.max,
    {
        self.max
    }

    /// The sum of the readings.
    pub fn sum(&self) -> (v: i128)
        ensures
            v == self@.sum,
    {
        self.sum
    }

    /// The number of readings; it is never zero.
    pub fn count(&self) -> (n: u64)
        ensures
            n == self@.count,
            self@.consistent(),
    {
        proof {
            use_type_invariant(self);
        }
        self.count
    }

    /// The mean of the readings, to the nearest unit. It differs from the
    /// exact mean by at most half a unit and lies between the extrema.
    pub fn mean(&self) -> (m: i64)
        ensures
            m == self@.mean(),
            self@.min <= m <= self@.max,
            -(self@.count as int) <= 2 * (m * self@.count - self@.sum) <= self@.count,
    {
        proof {
            use_type_invariant(self);
            lemma_sum_bounds(self@);
            lemma_mean_near(self@);
        }
        let c = self.count as u128;
        let negative = self.sum < 0;
        let mag: u128 = if negative { (-self.sum) as u128 } else { self.sum as u128 };
        let q = mag / c;
        let r = mag % c;
        let rounded: u128 = if r >= c - r { q + 1 } else { q };
        proof {
            lemma_fundamental_div_mod(mag as int, c as int);
            lemma_mod_bound(mag as int, c as int);
            let x = 2 * mag + c;
            let rest = if r >= c - r { 2 * r - c } else { 2 * r + c };
            assert(x == rounded * (2 * c) + rest) by (nonlinear_arith)
                requires
                    mag == c * q + r,
                    x == 2 * mag + c,
                    r >= c - r ==> rounded == q + 1 && rest == 2 * r - c,
                    r < c - r ==> rounded == q && rest == 2 * r + c,
            ;
            lemma_fundamental_div_mod_converse(x, 2 * c, rounded as int, rest as int);
        }
        if negative {
            (-(rounded as i128)) as i64
        } else {
            rounded as i64
        }
    }

    /// Takes one more reading in. There must be room to count it.
    pub fn absorb(&mut self, value: i64)
        requires
            old(self)@.count < u64::MAX,
        ensures
            final(self)@ == old(self)@.absorb(value as int),
    {
        proof {
            use_type_invariant(&*self);
            lemma_sum_bounds(self@);
            lemma_absorb_consistent(self@, value as int);
        }
        *self = Summary {
            min: if value < self.min { value } else { self.min },
            max: if value > self.max { value } else { self.max },
            sum: self.sum + value as i128,
            count: self.count + 1,
        };
    }

    /// Takes in the readings that another summary stands for. There must
    /// be room to count them.
    pub fn combine(&mut self, other: &Summary)
        requires
            old(self)@.count + other@.count <= u64::MAX,
        ensures
            final(self)@ == old(self)@.combine(other@),
    {
        proof {
            use_type_invariant(&*self);
            use_type_invariant(other);
            lemma_combine_consistent(self@, other@);
            lemma_sum_bounds(self@.combine(other@));
        }
        *self = Summary {
            min: if other.min < self.min { other.min } else { self.min },
            max: if other.max > self.max { other.max } else { self.max },
            sum: self.sum + other.sum,
            count: self.count + other.count,
        };
    }
}

/// The rounded mean of consistent statistics lies between the extrema, and
/// twice its distance from the exact mean, times the count, is at most the
/// count.
pub proof fn lemma_mean_near(s: Stats)
    requires
        s.consistent(),
    ensures
        s.min <= s.mean() <= s.max,
        -(s.count as int) <= 2 * (s.mean() * s.count - s.sum) <= s.count,
{
    let c = s.count as int;
    let d = 2 * c;
    if s.sum >= 0 {
        let x = 2 * s.sum + c;
        let m = x / d;
        lemma_fundamental_div_mod(x, d);
        lemma_mod_bound(x, d);
        assert(d * m <= x < d * m + d);
        assert(s.min <= m <= s.max) by (nonlinear_arith)
            requires
                d * m <= x < d * m + d,
                x == 2 * s.sum + c,
                d == 2 * c,
                c >= 1,
                s.min * c <= s.sum <= s.max * c,
        ;
        assert(-c <= 2 * (m * c - s.sum) <= c) by (nonlinear_arith)
            requires
                d * m <= x < d * m + d,
                x == 2 * s.sum + c,
                d == 2 * c,
        ;
    } else {
        let x = 2 * (-s.sum) + c;
        let m = x / d;
        lemma_fundamental_div_mod(x, d);
        lemma_mod_bound(x, d);
        assert(d * m <= x < d * m + d);
        assert(s.min <= -m <= s.max) by (nonlinear_arith)
            requires
                d * m <= x < d * m + d,
                x == 2 * (-s.sum) + c,
                d == 2 * c,
                c >= 1,
                s.min * c <= s.sum <= s.max * c,
                s.sum < 0,
        ;
        assert(-c <= 2 * ((-m) * c - s.sum) <= c) by (nonlinear_arith)
            requires
                d * m <= x < d * m + d,
                x == 2 * (-s.sum) + c,
                d == 2 * c,
        ;
    }
}

/// Consistent statistics stay consistent when combined.
pub proof fn lemma_combine_consistent(s: Stats, o: Stats)
    requires
        s.consistent(),
        o.consistent(),
    ensures
        s.combine(o).consistent(),
{
    let t = s.combine(o);
    assert(t.min * t.count <= t.sum) by (nonlinear_arith)
        requires
            t.min <= s.min,
            t.min <= o.min,
            s.min * s.count <= s.sum,
            o.min * o.count <= o.sum,
            t.sum == s.sum + o.sum,
            t.count == s.count + o.count,
    ;
    assert(t.sum <= t.max * t.count) by (nonlinear_arith)
        requires
            t.max >= s.max,
            t.max >= o.max,
            s.max * s.count >= s.sum,
            o.max * o.count >= o.sum,
            t.sum == s.sum + o.sum,
            t.count == s.count + o.count,
    ;
}

/// Consistent statistics stay consistent when a reading is taken in.
pub proof fn lemma_absorb_consistent(s: Stats, value: int)
    requires
        s.consistent(),
    ensures
        s.absorb(value).consistent(),
{
    let t = s.absorb(value);
    assert(t.min * t.count <= t.sum) by (nonlinear_arith)
        requires
            t.min <= s.min,
            t.min <= value,
            s.min * s.count <= s.sum,
            t.sum == s.sum + value,
            t.count == s.count + 1,
            s.count >= 1,
    ;
    assert(t.sum <= t.max * t.count) by (nonlinear_arith)
        requires
            t.max >= s.max,
            t.max >= value,
            s.max * s.count >= s.sum,
            t.sum == s.sum + value,
            t.count == s.count + 1,
            s.count >= 1,
    ;
}

/// The sum of consistent statistics within machine limits is far from the
/// limits of `i128`.
proof fn lemma_sum_bounds(s: Stats)
    requires
        s.consistent(),
        i64::MIN <= s.min,
        s.max <= i64::MAX,
        s.count <= u64::MAX,
    ensures
        -0x8000_0000_0000_0000 * 0xffff_ffff_ffff_ffff <= s.sum <= 0x7fff_ffff_ffff_ffff * 0xffff_ffff_ffff_ffff,
{
    assert(s.min * s.count >= -0x8000_0000_0000_0000 * 0xffff_ffff_ffff_ffff) by (nonlinear_arith)
        requires
            s.min >= -0x8000_0000_0000_0000,
            s.min <= 0x7fff_ffff_ffff_ffff,
            0 <= s.count <= 0xffff_ffff_ffff_ffff,
    ;
    assert(s.max * s.count <= 0x7fff_ffff_ffff_ffff * 0xffff_ffff_ffff_ffff) by (nonlinear_arith)
        requires
            s.max <= 0x7fff_ffff_ffff_ffff,
            s.max >= -0x8000_0000_0000_0000,
            0 <= s.count <= 0xffff_ffff_ffff_ffff,
    ;
}

} // verus!
