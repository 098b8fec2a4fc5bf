//! Single-precision numbers as bit patterns, with the operations that the
//! detector's arithmetic needs, each proved against the model in `value`.

use vstd::prelude::*;
use vstd::arithmetic::power2::pow2;
use vstd::arithmetic::power2::lemma2_to64;
use vstd::arithmetic::power2::lemma_pow2_adds;
use vstd::arithmetic::power2::lemma_pow2_pos;
use vstd::arithmetic::power2::lemma_pow2_unfold;
use crate::rounding::lemma_bit_length_below;
use crate::rounding::lemma_nearest_zero;
use crate::rounding::lemma_pow2_monotone;
use crate::rounding::lemma_quotient;
use crate::rounding::lemma_absorb_difference;
use crate::rounding::lemma_absorb_sum;
use crate::rounding::lemma_scale_order;
use crate::rounding::lemma_whole_part;
use crate::rounding::lemma_scaled_nearest;
use crate::rounding::lemma_scaled_nearest_ratio;
use crate::rounding::lemma_significand_range;
use crate::rounding::scaled_nearest;
use crate::rounding::significand_at;
use crate::rounding::spacing_at;
use crate::value::bit_length;
use crate::value::div_half_even;
use crate::value::limit;
use crate::value::nearest;
use crate::value::one;
use crate::value::Value;

verus! {

/// The eight exponent bits of a pattern.
pub open spec fn exponent_field(bits: u32) -> nat {
    ((bits / 0x80_0000) % 0x100) as nat
}

/// The twenty-three fraction bits of a pattern.
pub open spec fn fraction_field(bits: u32) -> nat {
    (bits % 0x80_0000) as nat
}

/// The sign bit of a pattern.
pub open spec fn sign_field(bits: u32) -> bool {
    bits >= 0x8000_0000
}

/// The significand of a pattern: the fraction alone where the exponent bits
/// are zero, else the fraction with a leading one.
pub open spec fn significand_of(bits: u32) -> nat {
    if exponent_field(bits) == 0 {
        fraction_field(bits)
    } else {
        0x80_0000 + fraction_field(bits)
    }
}

/// How often the significand of a pattern is doubled: once for each
/// exponent above one.
pub open spec fn scale_of(bits: u32) -> nat {
    if exponent_field(bits) == 0 {
        0
    } else {
        (exponent_field(bits) - 1) as nat
    }
}

/// The magnitude that the exponent and fraction bits stand for, in units of
/// 2^-149.
pub open spec fn magnitude_of(bits: u32) -> nat {
    significand_of(bits) * pow2(scale_of(bits))
}

/// What a pattern denotes.
pub open spec fn denoted(bits: u32) -> Value {
    if exponent_field(bits) == 255 && fraction_field(bits) != 0 {
        Value::Nan
    } else {
        Value::Num { negative: sign_field(bits), magnitude: magnitude_of(bits) }
    }
}

/// A single-precision number, held as its bit pattern.
#[derive(Clone, Copy, Debug)]
pub struct Single {
    pub bits: u32,
}

impl View for Single {
    type V = Value;

    open spec fn view(&self) -> Value {
        denoted(self.bits)
    }
}

/// The pattern with exponent bits `e + 1` and the significand `m` has the
/// magnitude `m * 2^e`; a significand of 2^24 carries into the exponent.
pub proof fn lemma_pack(e: nat, m: nat)
    requires
        e <= 253,
        m <= 0x100_0000,
        e > 0 ==> m >= 0x80_0000,
    ensures
        e * 0x80_0000 + m <= 0x7f80_0000,
        magnitude_of((e * 0x80_0000 + m) as u32) == m * pow2(e),
        exponent_field((e * 0x80_0000 + m) as u32) == 255 ==> fraction_field(
            (e * 0x80_0000 + m) as u32,
        ) == 0,
        !sign_field((e * 0x80_0000 + m) as u32),
{
    let bits = (e * 0x80_0000 + m) as u32;
    lemma2_to64();
    let p = pow2(e);
    if m < 0x80_0000 {
        assert(e == 0);
        assert(exponent_field(bits) == 0);
        assert(fraction_field(bits) == m);
        assert(magnitude_of(bits) == m * pow2(0));
    } else if m < 0x100_0000 {
        assert(bits / 0x80_0000 == e + 1);
        assert(exponent_field(bits) == e + 1);
        assert(fraction_field(bits) == m - 0x80_0000);
        assert(magnitude_of(bits) == (0x80_0000 + (m - 0x80_0000)) * pow2(e));
    } else {
        assert(bits / 0x80_0000 == e + 2);
        assert(exponent_field(bits) == e + 2);
        assert(fraction_field(bits) == 0);
        lemma_pow2_unfold(e + 1);
        let doubled = pow2(e + 1);
        assert(magnitude_of(bits) == 0x80_0000 * doubled);
        assert(0x80_0000 * doubled == m * p) by (nonlinear_arith)
            requires
                doubled == 2 * p,
                m == 0x100_0000,
        ;
    }
}

/// The number of binary digits of `x`.
fn digits(x: u64) -> (n: u32)
    ensures
        n == bit_length(x as nat),
        n <= 64,
{
    let mut rest: u64 = x;
    let mut n: u32 = 0;
    proof {
        lemma2_to64();
        lemma_bit_length_below(x as nat, 64);
    }
    while rest > 0
        invariant
            bit_length(x as nat) == n + bit_length(rest as nat),
            bit_length(x as nat) <= 64,
        decreases rest,
    {
        rest = rest / 2;
        n = n + 1;
    }
    n
}

/// Two to the power `k`.
fn power_of_two(k: u32) -> (p: u64)
    requires
        k < 64,
    ensures
        p == pow2(k as nat),
{
    let mut p: u64 = 1;
    let mut i: u32 = 0;
    proof {
        lemma2_to64();
    }
    while i < k
        invariant
            i <= k,
            k < 64,
            p == pow2(i as nat),
        decreases k - i,
    {
        proof {
            lemma_pow2_unfold((i + 1) as nat);
            lemma_pow2_monotone((i + 1) as nat, 63);
            lemma2_to64();
            vstd::arithmetic::power2::lemma2_to64_rest();
        }
        p = p * 2;
        i = i + 1;
    }
    p
}

/// The pattern, with the sign bit clear, of the magnitude nearest to
/// `sig * 2^exp` units.
fn round_pack(sig: u64, exp: i32) -> (bits: u32)
    requires
        sig < 0x8000_0000_0000_0000,
        -1000 <= exp <= 1000,
    ensures
        bits <= 0x7f80_0000,
        magnitude_of(bits) == scaled_nearest(sig as nat, exp as int),
        denoted(bits) == (Value::Num {
            negative: false,
            magnitude: scaled_nearest(sig as nat, exp as int),
        }),
{
    proof {
        lemma2_to64();
    }
    if sig == 0 {
        proof {
            if exp >= 0 {
                assert(0 * pow2(exp as nat) == 0) by (nonlinear_arith);
                lemma_nearest_zero(1);
            } else {
                lemma_pow2_pos((-exp) as nat);
                lemma_nearest_zero(pow2((-exp) as nat));
            }
            assert(significand_of(0) == 0);
            assert(magnitude_of(0) == 0) by (nonlinear_arith)
                requires
                    magnitude_of(0) == 0 * pow2(scale_of(0)),
            ;
        }
        return 0;
    }
    let len: i32 = digits(sig) as i32;
    let top: i32 = len + exp;
    let e: i32 = if top > 24 {
        top - 24
    } else {
        0
    };
    proof {
        lemma_scaled_nearest(sig as nat, exp as int);
        lemma_significand_range(sig as nat, exp as int);
        assert(e == spacing_at(sig as nat, exp as int));
        lemma_pow2_adds(23, 254);
        lemma_pow2_adds(24, 253);
    }
    let ghost m_spec = significand_at(sig as nat, exp as int, e as int);
    if e >= 254 {
        proof {
            lemma_pow2_monotone(254, e as nat);
            assert(m_spec * pow2(e as nat) >= limit()) by (nonlinear_arith)
                requires
                    m_spec >= pow2(23),
                    pow2(e as nat) >= pow2(254),
                    pow2(23) * pow2(254) == limit(),
            ;
            assert(exponent_field(0x7f80_0000) == 255);
            assert(fraction_field(0x7f80_0000) == 0);
        }
        return 0x7f80_0000;
    }
    let k: i32 = e - exp;
    let m: u64;
    if k <= 0 {
        proof {
            lemma_pow2_pos((exp - e) as nat);
            if exp - e >= 64 {
                lemma_pow2_monotone(64, (exp - e) as nat);
                assert(m_spec >= pow2((exp - e) as nat)) by (nonlinear_arith)
                    requires
                        m_spec == sig * pow2((exp - e) as nat),
                        sig >= 1,
                ;
            }
        }
        let p = power_of_two((0 - k) as u32);
        proof {
            assert(sig * p == m_spec);
        }
        m = sig * p;
    } else if k >= 64 {
        proof {
            lemma_pow2_monotone(64, k as nat);
            lemma_quotient(sig as nat, pow2(k as nat), 0, sig as nat);
        }
        m = 0;
    } else {
        let d = power_of_two(k as u32);
        proof {
            lemma_pow2_unfold(k as nat);
            lemma_pow2_pos((k - 1) as nat);
        }
        let q = sig / d;
        let r = sig % d;
        let half = d / 2;
        m = if r > half || (r == half && q % 2 == 1) {
            q + 1
        } else {
            q
        };
        proof {
            assert(d == 2 * half);
            assert(m == div_half_even(sig as nat, d as nat));
        }
    }
    proof {
        assert(m == m_spec);
        lemma_pack(e as nat, m as nat);
        lemma_pow2_monotone(e as nat, 253);
        assert(m * pow2(e as nat) <= limit()) by (nonlinear_arith)
            requires
                m <= pow2(24),
                pow2(e as nat) <= pow2(253),
                pow2(24) * pow2(253) == limit(),
        ;
    }
    let bits: u64 = (e as u64) * 0x80_0000 + m;
    bits as u32
}

/// A pattern with exponent bits below 255 has a magnitude below the limit,
/// and one with exponent bits 255 has a magnitude of the limit or more.
pub proof fn lemma_magnitude_range(bits: u32)
    ensures
        exponent_field(bits) < 255 ==> magnitude_of(bits) < limit(),
        exponent_field(bits) == 255 ==> magnitude_of(bits) >= limit(),
        exponent_field(bits) == 255 && fraction_field(bits) == 0 ==> magnitude_of(bits) == limit(),
        magnitude_of(bits) == 0 <==> bits % 0x8000_0000 == 0,
{
    let m = significand_of(bits);
    let s = scale_of(bits);
    let p = pow2(s);
    lemma2_to64();
    lemma_pow2_pos(s);
    lemma_pow2_adds(24, 253);
    lemma_pow2_adds(23, 254);
    if exponent_field(bits) < 255 {
        lemma_pow2_monotone(s, 253);
        assert(m * p < limit()) by (nonlinear_arith)
            requires
                m < pow2(24),
                0 < p <= pow2(253),
                pow2(24) * pow2(253) == limit(),
        ;
    } else {
        assert(m * p >= limit()) by (nonlinear_arith)
            requires
                m >= pow2(23),
                p == pow2(254),
                pow2(23) * pow2(254) == limit(),
        ;
    }
    assert(m * p == 0 <==> m == 0) by (nonlinear_arith)
        requires
            p > 0,
    ;
}

/// Setting the sign bit changes only the sign.
pub proof fn lemma_sign_bit(bits: u32)
    requires
        bits < 0x8000_0000,
    ensures
        exponent_field((bits + 0x8000_0000) as u32) == exponent_field(bits),
        fraction_field((bits + 0x8000_0000) as u32) == fraction_field(bits),
        magnitude_of((bits + 0x8000_0000) as u32) == magnitude_of(bits),
        sign_field((bits + 0x8000_0000) as u32),
        !sign_field(bits),
{
}

/// The significand and the scale of a pattern.
fn split(bits: u32) -> (r: (u32, u32))
    ensures
        r.0 == significand_of(bits),
        r.1 == scale_of(bits),
        r.0 < 0x100_0000,
        r.1 <= 254,
        r.1 > 0 ==> r.0 >= 0x80_0000,
{
    let e = (bits / 0x80_0000) % 0x100;
    let f = bits % 0x80_0000;
    if e == 0 {
        (f, 0)
    } else {
        (0x80_0000 + f, e - 1)
    }
}

/// The pattern `bits`, which has its sign bit clear, with the sign given.
fn with_sign(bits: u32, negative: bool) -> (r: u32)
    requires
        bits < 0x8000_0000,
    ensures
        exponent_field(r) == exponent_field(bits),
        fraction_field(r) == fraction_field(bits),
        magnitude_of(r) == magnitude_of(bits),
        sign_field(r) == negative,
{
    proof {
        lemma_sign_bit(bits);
    }
    if negative {
        bits + 0x8000_0000
    } else {
        bits
    }
}

/// Patterns with the sign bit clear are ordered as their magnitudes are.
pub proof fn lemma_magnitude_order(a: u32, b: u32)
    ensures
        a % 0x8000_0000 < b % 0x8000_0000 ==> magnitude_of(a) < magnitude_of(b),
        a % 0x8000_0000 == b % 0x8000_0000 ==> magnitude_of(a) == magnitude_of(b),
{
    lemma2_to64();
    let x = a % 0x8000_0000;
    let y = b % 0x8000_0000;
    assert(exponent_field(a) == x / 0x80_0000 && fraction_field(a) == x % 0x80_0000);
    assert(exponent_field(b) == y / 0x80_0000 && fraction_field(b) == y % 0x80_0000);
    if x < y {
        let m1 = significand_of(a);
        let m2 = significand_of(b);
        let s1 = scale_of(a);
        let s2 = scale_of(b);
        lemma_scale_order(m2, s2, m1, s1);
        if exponent_field(a) == 0 && exponent_field(b) == 1 {
            assert(m1 * pow2(0) < m2 * pow2(0)) by (nonlinear_arith)
                requires
                    m1 < m2,
                    pow2(0) == 1,
            ;
        }
    }
}

/// The whole part of the magnitude of a pattern, held to 2^32.
fn whole_part(bits: u32) -> (w: u64)
    ensures
        w == if magnitude_of(bits) / one() > 0x1_0000_0000 {
            0x1_0000_0000
        } else {
            magnitude_of(bits) / one()
        },
{
    let (m, s) = split(bits);
    proof {
        lemma_whole_part(m as nat, s as nat);
        lemma2_to64();
    }
    if s >= 149 {
        let up = s - 149;
        if up >= 9 {
            proof {
                lemma_pow2_monotone(9, up as nat);
                assert(m * pow2(up as nat) >= 0x1_0000_0000) by (nonlinear_arith)
                    requires
                        m >= 0x80_0000,
                        pow2(up as nat) >= 0x200,
                ;
            }
            0x1_0000_0000
        } else {
            let p = power_of_two(up);
            proof {
                lemma_pow2_monotone(up as nat, 8);
                assert(m * p <= 0x1_0000_0000) by (nonlinear_arith)
                    requires
                        m < 0x100_0000,
                        p <= 0x100,
                ;
            }
            (m as u64) * p
        }
    } else {
        let down = 149 - s;
        if down >= 24 {
            proof {
                lemma_pow2_monotone(24, down as nat);
                lemma_quotient(m as nat, pow2(down as nat), 0, m as nat);
            }
            0
        } else {
            let p = power_of_two(down);
            proof {
                lemma_pow2_pos(down as nat);
            }
            (m as u64) / p
        }
    }
}

/// The pattern of the magnitude nearest to the sum of two finite magnitudes,
/// of which the first has the scale that is not below the other's.
fn sum_pattern(high: u32, low: u32) -> (bits: u32)
    requires
        high < 0x7f80_0000,
        low < 0x7f80_0000,
        scale_of(high) >= scale_of(low),
    ensures
        bits <= 0x7f80_0000,
        denoted(bits) == (Value::Num {
            negative: false,
            magnitude: nearest(magnitude_of(high) + magnitude_of(low), 1),
        }),
{
    let (mh, sh) = split(high);
    let (ml, sl) = split(low);
    let gap = sh - sl;
    proof {
        lemma2_to64();
        lemma_pow2_adds(gap as nat, sl as nat);
        lemma_pow2_pos(sl as nat);
    }
    if gap >= 26 {
        proof {
            lemma_pow2_monotone(26, gap as nat);
            assert(4 * (ml * pow2(sl as nat)) < pow2(sh as nat)) by (nonlinear_arith)
                requires
                    ml < 0x100_0000,
                    pow2(sh as nat) == pow2(gap as nat) * pow2(sl as nat),
                    pow2(gap as nat) >= 0x400_0000,
                    pow2(sl as nat) > 0,
            ;
            lemma_absorb_sum(mh as nat, sh as nat, (ml * pow2(sl as nat)) as nat);
        }
        high
    } else {
        let p = power_of_two(gap);
        proof {
            lemma_pow2_monotone(gap as nat, 25);
            assert(mh * p < 0x2_0000_0000_0000) by (nonlinear_arith)
                requires
                    mh < 0x100_0000,
                    p <= 0x200_0000,
            ;
        }
        let sum: u64 = (mh as u64) * p + (ml as u64);
        proof {
            assert(sum * pow2(sl as nat) == magnitude_of(high) + magnitude_of(low))
                by (nonlinear_arith)
                requires
                    sum == mh * p + ml,
                    pow2(sh as nat) == p * pow2(sl as nat),
                    magnitude_of(high) == mh * pow2(sh as nat),
                    magnitude_of(low) == ml * pow2(sl as nat),
            ;
        }
        round_pack(sum, sl as i32)
    }
}

/// The pattern of the magnitude nearest to the difference of two finite
/// magnitudes, of which the first is not below the other.
fn difference_pattern(high: u32, low: u32) -> (bits: u32)
    requires
        high < 0x7f80_0000,
        low < 0x7f80_0000,
        scale_of(high) >= scale_of(low),
        magnitude_of(high) >= magnitude_of(low),
    ensures
        bits <= 0x7f80_0000,
        denoted(bits) == (Value::Num {
            negative: false,
            magnitude: nearest((magnitude_of(high) - magnitude_of(low)) as nat, 1),
        }),
{
    let (mh, sh) = split(high);
    let (ml, sl) = split(low);
    let gap = sh - sl;
    proof {
        lemma2_to64();
        lemma_pow2_adds(gap as nat, sl as nat);
        lemma_pow2_pos(sl as nat);
    }
    if gap >= 26 {
        proof {
            lemma_pow2_monotone(26, gap as nat);
            assert(4 * (ml * pow2(sl as nat)) < pow2(sh as nat)) by (nonlinear_arith)
                requires
                    ml < 0x100_0000,
                    pow2(sh as nat) == pow2(gap as nat) * pow2(sl as nat),
                    pow2(gap as nat) >= 0x400_0000,
                    pow2(sl as nat) > 0,
            ;
            lemma_absorb_difference(mh as nat, sh as nat, (ml * pow2(sl as nat)) as nat);
        }
        high
    } else {
        let p = power_of_two(gap);
        proof {
            lemma_pow2_monotone(gap as nat, 25);
            assert(mh * p < 0x2_0000_0000_0000) by (nonlinear_arith)
                requires
                    mh < 0x100_0000,
                    p <= 0x200_0000,
            ;
            assert(mh * p >= ml) by (nonlinear_arith)
                requires
                    mh * pow2(sh as nat) >= ml * pow2(sl as nat),
                    pow2(sh as nat) == p * pow2(sl as nat),
                    pow2(sl as nat) > 0,
            ;
        }
        let diff: u64 = (mh as u64) * p - (ml as u64);
        proof {
            assert(diff * pow2(sl as nat) == magnitude_of(high) - magnitude_of(low))
                by (nonlinear_arith)
                requires
                    diff == mh * p - ml,
                    pow2(sh as nat) == p * pow2(sl as nat),
                    magnitude_of(high) == mh * pow2(sh as nat),
                    magnitude_of(low) == ml * pow2(sl as nat),
            ;
        }
        round_pack(diff, sl as i32)
    }
}

/// The pattern of the least number above the one that a pattern denotes.
pub open spec fn next_above(bits: u32) -> u32 {
    if bits % 0x8000_0000 == 0 {
        1
    } else if bits < 0x8000_0000 {
        (bits + 1) as u32
    } else {
        (bits - 1) as u32
    }
}

/// The order is strict: no number is greater than itself, and the least
/// number above a finite number is greater than it. So a score that equals
/// the threshold does not pass it, and the next score above does.
pub proof fn lemma_order_is_strict(bits: u32)
    ensures
        !denoted(bits).greater(denoted(bits)),
        denoted(bits).is_finite() ==> denoted(next_above(bits)).greater(denoted(bits)),
{
    if denoted(bits).is_finite() {
        let next = next_above(bits);
        lemma_magnitude_range(bits);
        lemma_magnitude_range(next);
        lemma_magnitude_order(bits, next);
        lemma_magnitude_order(next, bits);
    }
}

/// Clearing the sign bit changes only the sign.
pub proof fn lemma_unsigned_pattern(bits: u32)
    ensures
        exponent_field(bits % 0x8000_0000) == exponent_field(bits),
        fraction_field(bits % 0x8000_0000) == fraction_field(bits),
        magnitude_of(bits % 0x8000_0000) == magnitude_of(bits),
        !sign_field(bits % 0x8000_0000),
        exponent_field(bits) < 255 ==> bits % 0x8000_0000 < 0x7f80_0000,
        exponent_field(bits) == 255 && fraction_field(bits) == 0 ==> bits % 0x8000_0000
            == 0x7f80_0000,
{
}

/// Of two patterns with the sign bit clear, the one that is larger as a
/// whole number has the larger scale and the larger magnitude.
pub proof fn lemma_pattern_order(a: u32, b: u32)
    requires
        a < 0x8000_0000,
        b < 0x8000_0000,
        a >= b,
    ensures
        scale_of(a) >= scale_of(b),
        magnitude_of(a) >= magnitude_of(b),
        a > b ==> magnitude_of(a) > magnitude_of(b),
{
    lemma_magnitude_order(b, a);
}

/// The pattern of the rounded difference of two finite numbers, given by
/// their signs and their patterns without the sign.
fn finite_difference(a: u32, n1: bool, b: u32, n2: bool) -> (bits: u32)
    requires
        a < 0x7f80_0000,
        b < 0x7f80_0000,
    ensures
        denoted(bits) == (Value::Num { negative: n1, magnitude: magnitude_of(a) }).difference(
            Value::Num { negative: n2, magnitude: magnitude_of(b) },
        ),
{
    let ghost x = Value::Num { negative: n1, magnitude: magnitude_of(a) };
    let ghost y = Value::Num { negative: n2, magnitude: magnitude_of(b) };
    let ghost d = x.amount() - y.amount();
    proof {
        lemma_magnitude_range(a);
        lemma_magnitude_range(b);
        if a >= b {
            lemma_pattern_order(a, b);
        } else {
            lemma_pattern_order(b, a);
        }
    }
    if n1 != n2 {
        let sum = if a >= b {
            sum_pattern(a, b)
        } else {
            sum_pattern(b, a)
        };
        proof {
            if d == 0 {
                lemma_nearest_zero(1);
            }
        }
        with_sign(sum, n1)
    } else if a == b {
        proof {
            lemma_magnitude_range(0);
        }
        0
    } else if a > b {
        let diff = difference_pattern(a, b);
        with_sign(diff, n1)
    } else {
        let diff = difference_pattern(b, a);
        with_sign(diff, !n1)
    }
}

/// The pattern of the magnitude nearest to the ratio of two finite
/// magnitudes that are not zero.
fn ratio_pattern(a: u32, b: u32) -> (bits: u32)
    requires
        0 < a < 0x7f80_0000,
        0 < b < 0x7f80_0000,
    ensures
        bits <= 0x7f80_0000,
        denoted(bits) == (Value::Num {
            negative: false,
            magnitude: nearest(magnitude_of(a) * one(), magnitude_of(b)),
        }),
{
    let (m1, s1) = split(a);
    let (m2, s2) = split(b);
    proof {
        lemma2_to64();
        lemma_magnitude_range(a);
        lemma_magnitude_range(b);
        lemma_bit_length_below(m1 as nat, 24);
    }
    assert(m1 > 0 && m2 > 0) by (nonlinear_arith)
        requires
            magnitude_of(a) == m1 * pow2(s1 as nat),
            magnitude_of(b) == m2 * pow2(s2 as nat),
            magnitude_of(a) > 0,
            magnitude_of(b) > 0,
    ;
    let z = 24 - digits(m1 as u64);
    let c = power_of_two(z + 38);
    let ghost lead = m1 * pow2(z as nat);
    proof {
        crate::rounding::lemma_bit_length_shift_up(m1 as nat, z as nat);
        lemma_pow2_pos(z as nat);
        assert(lead > 0) by (nonlinear_arith)
            requires
                lead == m1 * pow2(z as nat),
                m1 > 0,
                pow2(z as nat) > 0,
        ;
        crate::rounding::lemma_bit_length_bounds(lead as nat);
        lemma_pow2_adds(z as nat, 38);
        vstd::arithmetic::power2::lemma2_to64_rest();
        assert(m1 * c == lead * 0x40_0000_0000 && 0x2000_0000_0000_0000 <= m1 * c
            < 0x4000_0000_0000_0000) by (nonlinear_arith)
            requires
                c == pow2(z as nat) * 0x40_0000_0000,
                lead == m1 * pow2(z as nat),
                0x80_0000 <= lead < 0x100_0000,
        ;
    }
    let n: u64 = (m1 as u64) * c;
    let q = n / (m2 as u64);
    let r = n % (m2 as u64);
    let up: u32 = s1 + 149;
    let down: u32 = s2 + z + 38;
    let exp: i32 = up as i32 - down as i32;
    proof {
        let mag1 = magnitude_of(a);
        let mag2 = magnitude_of(b);
        // The ratio of the magnitudes is that of n * 2^up to m2 * 2^down.
        lemma_pow2_adds(s1 as nat, 149);
        lemma_pow2_adds(s2 as nat, (z + 38) as nat);
        lemma_pow2_pos((z + 38) as nat);
        crate::rounding::lemma_nearest_cancel(mag1 * one(), mag2, c as nat);
        assert(mag1 * one() * c == n * pow2(up as nat)) by (nonlinear_arith)
            requires
                mag1 == m1 * pow2(s1 as nat),
                pow2(up as nat) == pow2(s1 as nat) * one(),
                n == m1 * c,
        ;
        assert(mag2 * c == m2 * pow2(down as nat)) by (nonlinear_arith)
            requires
                mag2 == m2 * pow2(s2 as nat),
                pow2(down as nat) == pow2(s2 as nat) * c,
        ;
        crate::rounding::lemma_nearest_shift(n as nat, m2 as nat, up as nat, down as nat);
        vstd::arithmetic::div_mod::lemma_fundamental_div_mod(n as int, m2 as int);
        assert(n == q * m2 + r) by (nonlinear_arith)
            requires
                n == m2 * q + r,
        ;
        if r == 0 {
            if exp >= 0 {
                let p = pow2(exp as nat);
                assert(n * p == (q * p) * m2 && m2 == 1 * m2) by (nonlinear_arith)
                    requires
                        n == q * m2,
                ;
                crate::rounding::lemma_nearest_cancel((q * p) as nat, 1, m2 as nat);
            } else {
                let p = pow2((-exp) as nat);
                lemma_pow2_pos((-exp) as nat);
                assert(m2 * p == p * m2) by (nonlinear_arith);
                crate::rounding::lemma_nearest_cancel(q as nat, p, m2 as nat);
            }
        } else {
            assert(q >= 0x20_0000_0000) by (nonlinear_arith)
                requires
                    n == q * m2 + r,
                    r < m2,
                    m2 < 0x100_0000,
                    n >= 0x2000_0000_0000_0000,
            ;
            crate::rounding::lemma_bit_length_bounds(q as nat);
            if bit_length(q as nat) < 38 {
                lemma_pow2_monotone(bit_length(q as nat), 37);
            }
            crate::rounding::lemma_nearest_inexact(
                n as nat,
                m2 as nat,
                q as nat,
                r as nat,
                exp as int,
            );
        }
    }
    if r == 0 {
        round_pack(q, exp)
    } else {
        round_pack(2 * q + 1, exp - 1)
    }
}

impl Single {
    /// The pattern of a quiet not-a-number.
    pub open spec fn nan_bits() -> u32 {
        0x7fc0_0000
    }

    /// The pattern of positive infinity.
    pub open spec fn infinity_bits() -> u32 {
        0x7f80_0000
    }

    pub fn from_bits(bits: u32) -> (r: Single)
        ensures
            r.bits == bits,
    {
        Single { bits }
    }

    pub fn to_bits(self) -> (bits: u32)
        ensures
            bits == self.bits,
    {
        self.bits
    }

    pub fn is_nan(self) -> (r: bool)
        ensures
            r == self@.is_nan(),
    {
        (self.bits / 0x80_0000) % 0x100 == 255 && self.bits % 0x80_0000 != 0
    }

    pub fn is_finite(self) -> (r: bool)
        ensures
            r == self@.is_finite(),
    {
        proof {
            lemma_magnitude_range(self.bits);
        }
        (self.bits / 0x80_0000) % 0x100 != 255
    }

    /// Whether the sign bit is set, as it is for negative zero too.
    pub fn is_negative(self) -> (r: bool)
        ensures
            r == sign_field(self.bits),
            self@ matches Value::Num { negative, .. } ==> r == negative,
    {
        self.bits >= 0x8000_0000
    }

    /// The number without its sign.
    pub fn abs(self) -> (r: Single)
        ensures
            r@ == self@.absolute(),
    {
        let bits = self.bits % 0x8000_0000;
        proof {
            if self.bits >= 0x8000_0000 {
                lemma_sign_bit(bits);
            }
        }
        Single { bits }
    }

    /// The whole number `n` as a single-precision number, rounded where it
    /// has more than 24 binary digits.
    pub fn from_u32(n: u32) -> (r: Single)
        ensures
            r@ == Value::of_integer(n as nat),
    {
        let bits = round_pack(n as u64, 149);
        Single { bits }
    }

    /// The rounded product of two numbers.
    pub fn times(self, other: Single) -> (r: Single)
        ensures
            r@ == self@.product(other@),
    {
        if self.is_nan() || other.is_nan() {
            return Single { bits: 0x7fc0_0000 };
        }
        let negative = self.is_negative() != other.is_negative();
        let (m1, s1) = split(self.bits);
        let (m2, s2) = split(other.bits);
        proof {
            lemma_magnitude_range(self.bits);
            lemma_magnitude_range(other.bits);
            lemma_magnitude_range(0x7f80_0000);
        }
        if s1 == 254 || s2 == 254 {
            if m1 == 0 || m2 == 0 {
                return Single { bits: 0x7fc0_0000 };
            }
            let bits = with_sign(0x7f80_0000, negative);
            return Single { bits };
        }
        assert(m1 * m2 < 0x1_0000_0000_0000) by (nonlinear_arith)
            requires
                m1 < 0x100_0000,
                m2 < 0x100_0000,
        ;
        let sig: u64 = (m1 as u64) * (m2 as u64);
        let exp: i32 = (s1 + s2) as i32 - 149;
        proof {
            lemma_scaled_nearest_ratio(sig as nat, (s1 + s2) as nat, 149);
            lemma_pow2_adds(s1 as nat, s2 as nat);
            assert(sig * pow2((s1 + s2) as nat) == magnitude_of(self.bits) * magnitude_of(
                other.bits,
            )) by (nonlinear_arith)
                requires
                    sig == m1 * m2,
                    pow2((s1 + s2) as nat) == pow2(s1 as nat) * pow2(s2 as nat),
                    magnitude_of(self.bits) == m1 * pow2(s1 as nat),
                    magnitude_of(other.bits) == m2 * pow2(s2 as nat),
            ;
        }
        let rounded = round_pack(sig, exp);
        let bits = with_sign(rounded, negative);
        proof {
            lemma_magnitude_range(rounded);
        }
        Single { bits }
    }

    /// `self > other` in the order of IEEE 754.
    pub fn gt(self, other: Single) -> (r: bool)
        ensures
            r == self@.greater(other@),
    {
        if self.is_nan() || other.is_nan() {
            return false;
        }
        let a = self.bits % 0x8000_0000;
        let b = other.bits % 0x8000_0000;
        proof {
            lemma_magnitude_order(self.bits, other.bits);
            lemma_magnitude_order(other.bits, self.bits);
            lemma_magnitude_range(self.bits);
            lemma_magnitude_range(other.bits);
        }
        if self.is_negative() {
            other.is_negative() && a < b
        } else if other.is_negative() {
            a > 0 || b > 0
        } else {
            a > b
        }
    }

    /// The number cut to a whole number toward zero, as a cast to `i32`
    /// gives it: held to the range of `i32`, and zero for not-a-number.
    pub fn to_i32(self) -> (r: i32)
        ensures
            r == self@.to_i32(),
    {
        if self.is_nan() {
            return 0;
        }
        let whole = whole_part(self.bits);
        if self.is_negative() {
            if whole >= 0x8000_0000 {
                i32::MIN
            } else {
                0 - (whole as i32)
            }
        } else {
            if whole > 0x7fff_ffff {
                i32::MAX
            } else {
                whole as i32
            }
        }
    }

    /// The number cut to a whole number toward zero, as a cast to `u32`
    /// gives it: held to the range of `u32`, and zero for not-a-number.
    pub fn to_u32(self) -> (r: u32)
        ensures
            r == self@.to_u32(),
    {
        if self.is_nan() {
            return 0;
        }
        let whole = whole_part(self.bits);
        if self.is_negative() {
            0
        } else if whole > 0xffff_ffff {
            u32::MAX
        } else {
            whole as u32
        }
    }

    /// The rounded quotient of two numbers.
    pub fn over(self, other: Single) -> (r: Single)
        ensures
            r@ == self@.quotient(other@),
    {
        if self.is_nan() || other.is_nan() {
            return Single { bits: 0x7fc0_0000 };
        }
        let negative = self.is_negative() != other.is_negative();
        let a = self.bits % 0x8000_0000;
        let b = other.bits % 0x8000_0000;
        proof {
            lemma_unsigned_pattern(self.bits);
            lemma_unsigned_pattern(other.bits);
            lemma_magnitude_range(a);
            lemma_magnitude_range(b);
            lemma_magnitude_range(0x7f80_0000);
            lemma_magnitude_range(0);
        }
        if (a == 0 && b == 0) || (a == 0x7f80_0000 && b == 0x7f80_0000) {
            return Single { bits: 0x7fc0_0000 };
        }
        if a == 0x7f80_0000 || b == 0 {
            let bits = with_sign(0x7f80_0000, negative);
            return Single { bits };
        }
        if b == 0x7f80_0000 || a == 0 {
            proof {
                if a == 0 && b != 0x7f80_0000 {
                    assert(0 * one() == 0) by (nonlinear_arith);
                    lemma_nearest_zero(magnitude_of(b));
                }
            }
            let bits = with_sign(0, negative);
            return Single { bits };
        }
        let ratio = ratio_pattern(a, b);
        proof {
            lemma_magnitude_range(ratio);
        }
        let bits = with_sign(ratio, negative);
        Single { bits }
    }

    /// The rounded difference of two numbers.
    pub fn minus(self, other: Single) -> (r: Single)
        ensures
            r@ == self@.difference(other@),
    {
        if self.is_nan() || other.is_nan() {
            return Single { bits: 0x7fc0_0000 };
        }
        let n1 = self.is_negative();
        let n2 = other.is_negative();
        let a = self.bits % 0x8000_0000;
        let b = other.bits % 0x8000_0000;
        proof {
            lemma_unsigned_pattern(self.bits);
            lemma_unsigned_pattern(other.bits);
            lemma_magnitude_range(a);
            lemma_magnitude_range(b);
        }
        if a == 0x7f80_0000 {
            if b == 0x7f80_0000 && n1 == n2 {
                return Single { bits: 0x7fc0_0000 };
            }
            return self;
        }
        if b == 0x7f80_0000 {
            let bits = with_sign(0x7f80_0000, !n2);
            return Single { bits };
        }
        let bits = finite_difference(a, n1, b, n2);
        Single { bits }
    }
}

} // verus!
