//! Double-precision numbers by their bits, and how they compare.
use vstd::arithmetic::power2::{lemma_pow2_adds, lemma_pow2_pos, lemma_pow2_strictly_increases, pow2};
use vstd::prelude::*;

verus! {

/// A number of the binary64 format, as its 64 bits: the sign, 11 bits of exponent and 52 bits of
/// fraction.
#[derive(Clone, Copy, Debug, PartialEq, Eq, Structural)]
pub struct Number {
    pub bits: u64,
}

/// The weight of the exponent field.
pub const EXPONENT_UNIT: u64 = 0x10_0000_0000_0000;

/// The weight of the sign.
pub const SIGN: u64 = 0x8000_0000_0000_0000;

/// The bits of infinity.
pub const INFINITY: u64 = 0x7ff0_0000_0000_0000;

/// What the exponent and fraction bits `m` stand for, in units of the smallest positive number.
/// The bits of infinity stand for more than any finite number.
pub open spec fn magnitude(m: nat) -> nat {
    let exponent = m / EXPONENT_UNIT as nat;
    let fraction = m % EXPONENT_UNIT as nat;
    if exponent == 0 {
        fraction
    } else {
        (EXPONENT_UNIT as nat + fraction) * pow2((exponent - 1) as nat)
    }
}

impl Number {
    /// The bits without the sign.
    pub open spec fn unsigned(self) -> nat {
        (self.bits % SIGN) as nat
    }

    /// Whether this is not a number at all.
    pub open spec fn is_nan(self) -> bool {
        self.unsigned() > INFINITY
    }

    /// The value, in units of the smallest positive number.
    pub open spec fn value(self) -> int {
        if self.bits >= SIGN {
            -(magnitude(self.unsigned()) as int)
        } else {
            magnitude(self.unsigned()) as int
        }
    }

    /// Whether `self` is less than `other`. What is not a number is neither less nor more than
    /// anything.
    pub open spec fn below(self, other: Number) -> bool {
        !self.is_nan() && !other.is_nan() && self.value() < other.value()
    }

    /// Whether `self` is at least `other`.
    pub open spec fn reaches(self, other: Number) -> bool {
        !self.is_nan() && !other.is_nan() && self.value() >= other.value()
    }

    /// Whether this is not a number at all.
    pub fn nan(&self) -> (nan: bool)
        ensures
            nan == self.is_nan(),
    {
        self.bits % SIGN > INFINITY
    }

    /// Whether `self < other`.
    pub fn less(&self, other: &Number) -> (less: bool)
        ensures
            less == self.below(*other),
    {
        if self.nan() || other.nan() {
            return false;
        }
        let (a, b): (u64, u64) = (self.bits % SIGN, other.bits % SIGN);
        proof {
            lemma_magnitude_order(a as nat, b as nat);
            lemma_magnitude_order(b as nat, a as nat);
            lemma_magnitude_order(0, a as nat);
            lemma_magnitude_order(0, b as nat);
            assert(magnitude(0) == 0);
        }
        if self.bits >= SIGN {
            if other.bits >= SIGN {
                b < a
            } else {
                a > 0 || b > 0
            }
        } else if other.bits >= SIGN {
            false
        } else {
            a < b
        }
    }

    /// Whether `self >= other`.
    pub fn at_least(&self, other: &Number) -> (reaches: bool)
        ensures
            reaches == self.reaches(*other),
    {
        !self.nan() && !other.nan() && !self.less(other)
    }
}

/// The order of the bits is the order of the magnitudes.
pub proof fn lemma_magnitude_order(m: nat, n: nat)
    ensures
        m < n ==> magnitude(m) < magnitude(n),
{
    if m < n {
        let u = EXPONENT_UNIT as nat;
        let (e, f) = (m / u, m % u);
        let (g, h) = (n / u, n % u);
        assert(m == e * u + f && n == g * u + h && f < u && h < u) by {
            vstd::arithmetic::div_mod::lemma_fundamental_div_mod(m as int, u as int);
            vstd::arithmetic::div_mod::lemma_fundamental_div_mod(n as int, u as int);
        }
        if e == g {
            if e > 0 {
                let w = pow2((e - 1) as nat) as int;
                lemma_pow2_pos((e - 1) as nat);
                assert((u + f) * w < (u + h) * w) by (nonlinear_arith)
                    requires
                        f < h,
                        w > 0,
                ;
            }
        } else {
            assert(e < g) by (nonlinear_arith)
                requires
                    m == e * u + f,
                    n == g * u + h,
                    m < n,
                    e != g,
                    f < u,
                    h < u,
            ;
            let w = pow2((g - 1) as nat) as int;
            lemma_pow2_pos((g - 1) as nat);
            assert((u + h) * w >= u * w) by (nonlinear_arith)
                requires
                    w > 0,
                    h >= 0,
            ;
            if e == 0 {
                assert(u * w >= u) by (nonlinear_arith)
                    requires
                        w > 0,
                ;
            } else {
                let v = pow2((e - 1) as nat) as int;
                if e < g - 1 {
                    lemma_pow2_strictly_increases(e, (g - 1) as nat);
                }
                assert(pow2(e) <= w);
                lemma_pow2_adds(1, (e - 1) as nat);
                vstd::arithmetic::power2::lemma2_to64();
                assert(2 * v == pow2(e));
                lemma_pow2_pos((e - 1) as nat);
                assert((u + f) * v < u * (2 * v)) by (nonlinear_arith)
                    requires
                        f < u,
                        v > 0,
                ;
                assert(u * (2 * v) <= u * w) by (nonlinear_arith)
                    requires
                        2 * v <= w,
                        u > 0,
                ;
            }
        }
    }
}

/// Comparison is that of the values: of two numbers exactly one is less, or both are equal in
/// value; and a number reaches another exactly if it is not less.
pub proof fn comparison_is_total(a: Number, b: Number)
    requires
        !a.is_nan(),
        !b.is_nan(),
    ensures
        a.below(b) || b.below(a) || a.value() == b.value(),
        a.reaches(b) <==> !a.below(b),
        !(a.below(b) && b.below(a)),
{
}

/// Numbers are ordered by their bits: without a sign by the bits themselves, with a sign in reverse,
/// and a negative number is less than one without a sign unless both are zero. What has more bits
/// set than infinity is not a number, and neither less than anything nor as large.
pub proof fn numbers_are_ordered_by_their_bits(a: Number, b: Number)
    ensures
        ({
            let (x, y) = (a.bits as int, b.bits as int);
            let sign = 0x8000_0000_0000_0000int;
            let (u, v) = (
                if x < sign {
                    x
                } else {
                    x - sign
                },
                if y < sign {
                    y
                } else {
                    y - sign
                },
            );
            if u > 0x7ff0_0000_0000_0000 || v > 0x7ff0_0000_0000_0000 {
                !a.below(b) && !a.reaches(b)
            } else {
                &&& a.reaches(b) <==> !a.below(b)
                &&& x < sign && y < sign ==> (a.below(b) <==> u < v)
                &&& x >= sign && y >= sign ==> (a.below(b) <==> v < u)
                &&& x >= sign && y < sign ==> (a.below(b) <==> u > 0 || v > 0)
                &&& x < sign && y >= sign ==> !a.below(b)
            }
        }),
{
    let (u, v) = (a.unsigned(), b.unsigned());
    lemma_magnitude_order(u, v);
    lemma_magnitude_order(v, u);
    lemma_magnitude_order(0, u);
    lemma_magnitude_order(0, v);
    assert(magnitude(0) == 0);
}

} // verus!
