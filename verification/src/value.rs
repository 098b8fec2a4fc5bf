//! The mathematical model of single-precision numbers.
//!
//! A number is either not-a-number or a sign with a magnitude. Magnitudes
//! are counted in units of 2^-149, the smallest positive single-precision
//! number, so that every finite number has a whole magnitude. A magnitude
//! of 2^277 units, which is the number 2^128, stands for infinity.

use vstd::prelude::*;
use vstd::arithmetic::power2::pow2;

verus! {

/// The magnitude that stands for infinity.
pub open spec fn limit() -> nat {
    pow2(277)
}

/// The magnitude of the number one.
pub open spec fn one() -> nat {
    pow2(149)
}

/// What a single-precision bit pattern denotes.
pub enum Value {
    Nan,
    Num { negative: bool, magnitude: nat },
}

/// The number of binary digits of `n`.
pub open spec fn bit_length(n: nat) -> nat
    decreases n,
{
    if n == 0 {
        0
    } else {
        1 + bit_length(n / 2)
    }
}

/// The quotient `n / d` rounded to the nearest whole number, a tie going to
/// the even neighbour.
pub open spec fn div_half_even(n: nat, d: nat) -> nat
    recommends
        d > 0,
{
    let q = n / d;
    let r = n % d;
    if 2 * r < d || (2 * r == d && q % 2 == 0) {
        q
    } else {
        q + 1
    }
}

/// The binary exponent of the distance between neighbouring single-precision
/// magnitudes around a magnitude whose whole part is `whole`: numbers below
/// 2^24 units are one unit apart, and the distance doubles with each further
/// binary digit.
pub open spec fn spacing(whole: nat) -> nat {
    if bit_length(whole) <= 24 {
        0
    } else {
        (bit_length(whole) - 24) as nat
    }
}

/// The single-precision magnitude nearest to `num / den` units, a tie going to
/// the neighbour with the even significand; `limit()` where that is beyond
/// the largest finite number.
pub open spec fn nearest(num: nat, den: nat) -> nat
    recommends
        den > 0,
{
    let step = pow2(spacing(num / den));
    let m = div_half_even(num, den * step) * step;
    if m >= limit() {
        limit()
    } else {
        m
    }
}

impl Value {
    pub open spec fn is_nan(self) -> bool {
        self is Nan
    }

    pub open spec fn is_finite(self) -> bool {
        self matches Value::Num { magnitude, .. } && magnitude < limit()
    }

    pub open spec fn is_infinite(self) -> bool {
        self matches Value::Num { magnitude, .. } && magnitude >= limit()
    }

    /// The signed number of units; zero for not-a-number.
    pub open spec fn amount(self) -> int {
        match self {
            Value::Nan => 0,
            Value::Num { negative, magnitude } => if negative {
                -(magnitude as int)
            } else {
                magnitude as int
            },
        }
    }

    /// `self > other` as IEEE 754 orders numbers: false where either side is
    /// not-a-number, and the two zeros are equal.
    pub open spec fn greater(self, other: Value) -> bool {
        !self.is_nan() && !other.is_nan() && self.amount() > other.amount()
    }

    /// The number with the sign removed.
    pub open spec fn absolute(self) -> Value {
        match self {
            Value::Nan => Value::Nan,
            Value::Num { negative, magnitude } => Value::Num { negative: false, magnitude },
        }
    }

    /// The whole number `n` rounded to single precision.
    pub open spec fn of_integer(n: nat) -> Value {
        Value::Num { negative: false, magnitude: nearest(n * one(), 1) }
    }

    /// The rounded product.
    pub open spec fn product(self, other: Value) -> Value {
        match (self, other) {
            (
                Value::Num { negative: s1, magnitude: m1 },
                Value::Num { negative: s2, magnitude: m2 },
            ) => {
                if (m1 >= limit() && m2 == 0) || (m1 == 0 && m2 >= limit()) {
                    Value::Nan
                } else if m1 >= limit() || m2 >= limit() {
                    Value::Num { negative: s1 != s2, magnitude: limit() }
                } else {
                    Value::Num { negative: s1 != s2, magnitude: nearest(m1 * m2, one()) }
                }
            },
            _ => Value::Nan,
        }
    }

    /// The rounded quotient `self / other`. A number that is not zero
    /// divided by zero is infinite.
    pub open spec fn quotient(self, other: Value) -> Value {
        match (self, other) {
            (
                Value::Num { negative: s1, magnitude: m1 },
                Value::Num { negative: s2, magnitude: m2 },
            ) => {
                if (m1 == 0 && m2 == 0) || (m1 >= limit() && m2 >= limit()) {
                    Value::Nan
                } else if m1 >= limit() || m2 == 0 {
                    Value::Num { negative: s1 != s2, magnitude: limit() }
                } else if m2 >= limit() {
                    Value::Num { negative: s1 != s2, magnitude: 0 }
                } else {
                    Value::Num { negative: s1 != s2, magnitude: nearest(m1 * one(), m2) }
                }
            },
            _ => Value::Nan,
        }
    }

    /// The rounded difference `self - other`. An exact zero is positive,
    /// except that negative zero minus positive zero is negative zero.
    pub open spec fn difference(self, other: Value) -> Value {
        match (self, other) {
            (
                Value::Num { negative: s1, magnitude: m1 },
                Value::Num { negative: s2, magnitude: m2 },
            ) => {
                if m1 >= limit() && m2 >= limit() {
                    if s1 == s2 {
                        Value::Nan
                    } else {
                        self
                    }
                } else if m1 >= limit() {
                    self
                } else if m2 >= limit() {
                    Value::Num { negative: !s2, magnitude: limit() }
                } else {
                    let d = self.amount() - other.amount();
                    if d == 0 {
                        Value::Num { negative: s1 && !s2, magnitude: 0 }
                    } else if d < 0 {
                        Value::Num { negative: true, magnitude: nearest((-d) as nat, 1) }
                    } else {
                        Value::Num { negative: false, magnitude: nearest(d as nat, 1) }
                    }
                }
            },
            _ => Value::Nan,
        }
    }

    /// The number cut to a whole number toward zero and held to the range of
    /// `i32`; zero for not-a-number.
    pub open spec fn to_i32(self) -> i32 {
        match self {
            Value::Nan => 0i32,
            Value::Num { negative, magnitude } => {
                let whole = magnitude / one();
                if negative {
                    if whole >= 0x8000_0000 {
                        i32::MIN
                    } else {
                        (-(whole as int)) as i32
                    }
                } else {
                    if whole > 0x7fff_ffff {
                        i32::MAX
                    } else {
                        whole as i32
                    }
                }
            },
        }
    }

    /// The number cut to a whole number toward zero and held to the range of
    /// `u32`; zero for not-a-number and for every negative number.
    pub open spec fn to_u32(self) -> u32 {
        match self {
            Value::Nan => 0u32,
            Value::Num { negative, magnitude } => {
                let whole = magnitude / one();
                if negative {
                    0u32
                } else if whole > 0xffff_ffff {
                    u32::MAX
                } else {
                    whole as u32
                }
            },
        }
    }
}

} // verus!
