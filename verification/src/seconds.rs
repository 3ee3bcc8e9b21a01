//! Exact times. A lower bound on wall-clock time is a quotient of work and rate, or infinite
//! where a plan cannot run at all; sums and comparisons are exact.
use crate::natural::Natural;
use vstd::prelude::*;

verus! {

/// A time: `num / den` seconds, or infinitely long.
pub enum Time {
    Finite { num: nat, den: nat },
    Infinite,
}

impl Time {
    /// Whether this is a proper quotient.
    pub open spec fn valid(self) -> bool {
        match self {
            Time::Finite { num, den } => den > 0,
            Time::Infinite => true,
        }
    }

    /// No time at all.
    pub open spec fn zero() -> Time {
        Time::Finite { num: 0, den: 1 }
    }

    /// Whether `self` is shorter than `other`.
    pub open spec fn less(self, other: Time) -> bool {
        match (self, other) {
            (Time::Finite { num: a, den: b }, Time::Finite { num: c, den: d }) => a * d < c * b,
            (Time::Finite { .. }, Time::Infinite) => true,
            (Time::Infinite, _) => false,
        }
    }

    /// One after the other.
    pub open spec fn plus(self, other: Time) -> Time {
        match (self, other) {
            (Time::Finite { num: a, den: b }, Time::Finite { num: c, den: d }) => if b == d {
                Time::Finite { num: a + c, den: b }
            } else {
                Time::Finite { num: a * d + c * b, den: b * d }
            },
            _ => Time::Infinite,
        }
    }

    /// Whether both are finite and `self` is shorter than `other` by more than the `k`-th part
    /// of `other`: `self < other - other / k`.
    pub open spec fn well_below(self, other: Time, k: nat) -> bool {
        match (self, other) {
            (Time::Finite { num: a, den: b }, Time::Finite { num: c, den: d }) => (a * d) * k < (c
                * b) * (k - 1),
            _ => false,
        }
    }

    /// Whether `self` is finite, and longer than `other` by no more than the `k`-th part of that:
    /// `self <= other + other / k`.
    pub open spec fn within(self, other: Time, k: nat) -> bool {
        match (self, other) {
            (Time::Finite { num: a, den: b }, Time::Finite { num: c, den: d }) => (a * d) * k <= (c
                * b) * (k + 1),
            (Time::Finite { .. }, Time::Infinite) => true,
            (Time::Infinite, _) => false,
        }
    }

    /// Whether both are finite and differ by no more than the `k`-th part of `other`:
    /// `|self - other| <= other / k`.
    pub open spec fn near(self, other: Time, k: nat) -> bool {
        match (self, other) {
            (Time::Finite { num: a, den: b }, Time::Finite { num: c, den: d }) => (c * b) * (k - 1)
                <= (a * d) * k <= (c * b) * (k + 1),
            _ => false,
        }
    }
}

/// An exact time.
#[derive(Debug)]
pub enum Seconds {
    Finite { num: Natural, den: Natural },
    Infinite,
}

impl View for Seconds {
    type V = Time;

    open spec fn view(&self) -> Time {
        match self {
            Seconds::Finite { num, den } => Time::Finite { num: num@, den: den@ },
            Seconds::Infinite => Time::Infinite,
        }
    }
}

impl Seconds {
    /// `num / den` seconds.
    pub fn ratio(num: u64, den: u64) -> (time: Self)
        ensures
            time@ == (Time::Finite { num: num as nat, den: den as nat }),
    {
        Seconds::Finite { num: Natural::from_u64(num), den: Natural::from_u64(den) }
    }

    /// No time at all.
    pub fn zero() -> (time: Self)
        ensures
            time@ == Time::zero(),
    {
        Seconds::ratio(0, 1)
    }

    /// A copy.
    pub fn copy(&self) -> (time: Self)
        ensures
            time@ == self@,
    {
        match self {
            Seconds::Finite { num, den } => Seconds::Finite { num: num.copy(), den: den.copy() },
            Seconds::Infinite => Seconds::Infinite,
        }
    }

    /// Whether this time is infinite.
    pub fn is_infinite(&self) -> (infinite: bool)
        ensures
            infinite == (self@ is Infinite),
    {
        match self {
            Seconds::Finite { .. } => false,
            Seconds::Infinite => true,
        }
    }

    /// Whether `self` is shorter than `other`.
    pub fn less(&self, other: &Seconds) -> (shorter: bool)
        ensures
            shorter == self@.less(other@),
    {
        match (self, other) {
            (Seconds::Finite { num: a, den: b }, Seconds::Finite { num: c, den: d }) => a.times(
                d,
            ).less(&c.times(b)),
            (Seconds::Finite { .. }, Seconds::Infinite) => true,
            (Seconds::Infinite, _) => false,
        }
    }

    /// One after the other.
    pub fn plus(&self, other: &Seconds) -> (sum: Seconds)
        ensures
            sum@ == self@.plus(other@),
    {
        match (self, other) {
            (Seconds::Finite { num: a, den: b }, Seconds::Finite { num: c, den: d }) => {
                if !b.less(d) && !d.less(b) {
                    Seconds::Finite { num: a.plus(c), den: b.copy() }
                } else {
                    Seconds::Finite { num: a.times(d).plus(&c.times(b)), den: b.times(d) }
                }
            },
            _ => Seconds::Infinite,
        }
    }

    /// Whether `self` is finite and shorter than `other` by more than the `k`-th part of `other`.
    pub fn well_below(&self, other: &Seconds, k: u64) -> (below: bool)
        requires
            k > 0,
        ensures
            below == self@.well_below(other@, k as nat),
    {
        match (self, other) {
            (Seconds::Finite { num: a, den: b }, Seconds::Finite { num: c, den: d }) => {
                let mine = a.times(d).times(&Natural::from_u64(k));
                let theirs = c.times(b).times(&Natural::from_u64(k - 1));
                mine.less(&theirs)
            },
            _ => false,
        }
    }

    /// Whether `self` is finite, and longer than `other` by no more than the `k`-th part of that.
    pub fn within(&self, other: &Seconds, k: u64) -> (within: bool)
        requires
            k < u64::MAX,
        ensures
            within == self@.within(other@, k as nat),
    {
        match (self, other) {
            (Seconds::Finite { num: a, den: b }, Seconds::Finite { num: c, den: d }) => {
                let mine = a.times(d).times(&Natural::from_u64(k));
                let top = c.times(b).times(&Natural::from_u64(k + 1));
                !top.less(&mine)
            },
            (Seconds::Finite { .. }, Seconds::Infinite) => true,
            (Seconds::Infinite, _) => false,
        }
    }

    /// Whether both are finite and differ by no more than the `k`-th part of `other`.
    pub fn near(&self, other: &Seconds, k: u64) -> (near: bool)
        requires
            0 < k < u64::MAX,
        ensures
            near == self@.near(other@, k as nat),
    {
        match (self, other) {
            (Seconds::Finite { num: a, den: b }, Seconds::Finite { num: c, den: d }) => {
                let mine = a.times(d).times(&Natural::from_u64(k));
                let theirs = c.times(b);
                let bottom = theirs.times(&Natural::from_u64(k - 1));
                let top = theirs.times(&Natural::from_u64(k + 1));
                !mine.less(&bottom) && !top.less(&mine)
            },
            _ => false,
        }
    }
}

/// What is within a margin of a time is within it of every longer time.
pub proof fn lemma_within_longer(t: Time, least: Time, other: Time, k: nat)
    requires
        least.valid(),
        other.valid(),
        t.within(least, k),
        !other.less(least),
    ensures
        t.within(other, k),
{
    if let (
        Time::Finite { num: a, den: b },
        Time::Finite { num: l, den: m },
        Time::Finite { num: c, den: d },
    ) = (t, least, other) {
        assert((a * d) * k <= (c * b) * (k + 1)) by (nonlinear_arith)
            requires
                (a * m) * k <= (l * b) * (k + 1),
                l * d <= c * m,
                m > 0,
                d > 0,
        {
            assert(((a * m) * k) * d <= ((l * b) * (k + 1)) * d);
            assert((l * d) * (b * (k + 1)) <= (c * m) * (b * (k + 1)));
            assert(((a * d) * k) * m <= ((c * b) * (k + 1)) * m);
        }
    }
}

/// The order of times is irreflexive and transitive, and incomparable times are equally long.
pub proof fn time_order(a: Time, b: Time, c: Time)
    requires
        a.valid(),
        b.valid(),
        c.valid(),
    ensures
        !a.less(a),
        a.less(b) && b.less(c) ==> a.less(c),
        !a.less(b) && !b.less(c) ==> !a.less(c),
{
    if let (
        Time::Finite { num: p, den: q },
        Time::Finite { num: r, den: s },
        Time::Finite { num: t, den: u },
    ) = (a, b, c) {
        if p * s < r * q && r * u < t * s {
            assert(p * u < t * q) by (nonlinear_arith)
                requires
                    p * s < r * q,
                    r * u < t * s,
                    q > 0,
                    s > 0,
                    u > 0,
            ;
        }
        if p * s >= r * q && r * u >= t * s {
            assert(p * u >= t * q) by (nonlinear_arith)
                requires
                    p * s >= r * q,
                    r * u >= t * s,
                    q > 0,
                    s > 0,
                    u > 0,
            ;
        }
    }
}

} // verus!
