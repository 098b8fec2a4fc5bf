//! Facts about binary digits and rounding that the arithmetic rests on.

use vstd::prelude::*;
use vstd::arithmetic::div_mod::lemma_fundamental_div_mod;
use vstd::arithmetic::div_mod::lemma_fundamental_div_mod_converse;
use vstd::arithmetic::power2::pow2;
use vstd::arithmetic::power2::lemma_pow2_pos;
use vstd::arithmetic::power2::lemma_pow2_adds;
use vstd::arithmetic::power2::lemma_pow2_unfold;
use vstd::arithmetic::power2::lemma_pow2_strictly_increases;
use crate::value::bit_length;
use crate::value::div_half_even;
use crate::value::nearest;
use crate::value::spacing;
use crate::value::limit;

verus! {

/// `q` and `r` are the quotient and the remainder of `x` by `d`.
pub proof fn lemma_quotient(x: nat, d: nat, q: nat, r: nat)
    requires
        d > 0,
        r < d,
        x == q * d + r,
    ensures
        x / d == q,
        x % d == r,
{
    lemma_fundamental_div_mod_converse(x as int, d as int, q as int, r as int);
}

/// Powers of two grow with the exponent.
pub proof fn lemma_pow2_monotone(a: nat, b: nat)
    requires
        a <= b,
    ensures
        pow2(a) <= pow2(b),
        pow2(a) > 0,
{
    lemma_pow2_pos(a);
    if a < b {
        lemma_pow2_strictly_increases(a, b);
    }
}

/// A number with `k` binary digits lies between 2^(k-1) and 2^k.
pub proof fn lemma_bit_length_bounds(n: nat)
    requires
        n > 0,
    ensures
        bit_length(n) >= 1,
        pow2((bit_length(n) - 1) as nat) <= n < pow2(bit_length(n)),
    decreases n,
{
    if n == 1 {
        assert(bit_length(1) == 1) by {
            reveal_with_fuel(bit_length, 3);
        }
        lemma_pow2_unfold(1);
        assert(pow2(0) == 1) by {
            reveal(pow2);
            vstd::arithmetic::power::lemma_pow0(2);
        }
    } else {
        let h = n / 2;
        lemma_bit_length_bounds(h);
        let k = bit_length(h);
        assert(bit_length(n) == k + 1);
        lemma_pow2_unfold(k);
        lemma_pow2_unfold(k + 1);
    }
}

/// A number between 2^(k-1) and 2^k has `k` binary digits.
pub proof fn lemma_bit_length_unique(n: nat, k: nat)
    requires
        k >= 1,
        pow2((k - 1) as nat) <= n < pow2(k),
    ensures
        bit_length(n) == k,
{
    lemma_pow2_pos((k - 1) as nat);
    lemma_bit_length_bounds(n);
    let b = bit_length(n);
    if b < k {
        lemma_pow2_monotone(b, (k - 1) as nat);
    } else if b > k {
        lemma_pow2_monotone(k, (b - 1) as nat);
    }
}

/// A number below 2^k has at most `k` binary digits.
pub proof fn lemma_bit_length_below(n: nat, k: nat)
    requires
        n < pow2(k),
    ensures
        bit_length(n) <= k,
{
    if n > 0 {
        lemma_bit_length_bounds(n);
        let b = bit_length(n);
        if b > k {
            lemma_pow2_monotone(k, (b - 1) as nat);
        }
    }
}

/// Multiplying by 2^e appends `e` binary digits.
pub proof fn lemma_bit_length_shift_up(n: nat, e: nat)
    requires
        n > 0,
    ensures
        bit_length(n * pow2(e)) == bit_length(n) + e,
{
    lemma_bit_length_bounds(n);
    let b = bit_length(n);
    lemma_pow2_adds((b - 1) as nat, e);
    lemma_pow2_adds(b, e);
    lemma_pow2_pos(e);
    let p = pow2(e);
    let lo = pow2((b - 1) as nat);
    let hi = pow2(b);
    assert(lo * p <= n * p < hi * p) by (nonlinear_arith)
        requires
            lo <= n < hi,
            p > 0,
    ;
    lemma_bit_length_unique(n * p, b + e);
}

/// Dividing by 2^k removes `k` binary digits, as far as there are any.
pub proof fn lemma_bit_length_shift_down(n: nat, k: nat)
    ensures
        bit_length(n / pow2(k)) == if bit_length(n) >= k {
            (bit_length(n) - k) as nat
        } else {
            0
        },
{
    lemma_pow2_pos(k);
    let p = pow2(k);
    let q = n / p;
    lemma_fundamental_div_mod(n as int, p as int);
    if n == 0 {
        assert(q == 0);
    } else {
        lemma_bit_length_bounds(n);
        let b = bit_length(n);
        if b <= k {
            lemma_pow2_monotone(b, k);
            assert(n < p);
            lemma_quotient(n, p, 0, n);
        } else {
            let j = (b - k) as nat;
            lemma_pow2_adds((j - 1) as nat, k);
            lemma_pow2_adds(j, k);
            let lo = pow2((j - 1) as nat);
            let hi = pow2(j);
            // lo * p <= n < hi * p
            assert(lo <= q < hi) by (nonlinear_arith)
                requires
                    lo * p <= n < hi * p,
                    n == p * q + n % p,
                    0 <= n % p < p,
                    p > 0,
            ;
            lemma_bit_length_unique(q, j);
        }
    }
}

/// A common factor of numerator and denominator does not change the
/// rounded quotient.
pub proof fn lemma_div_half_even_cancel(n: nat, d: nat, c: nat)
    requires
        d > 0,
        c > 0,
    ensures
        div_half_even(n * c, d * c) == div_half_even(n, d),
{
    let q = n / d;
    let r = n % d;
    lemma_fundamental_div_mod(n as int, d as int);
    assert(d * c > 0) by (nonlinear_arith)
        requires
            d > 0,
            c > 0,
    ;
    assert(n * c == q * (d * c) + r * c && r * c < d * c) by (nonlinear_arith)
        requires
            n == d * q + r,
            r < d,
            c > 0,
    ;
    lemma_quotient(n * c, d * c, q, r * c);
    assert((2 * (r * c) < d * c) == (2 * r < d) && (2 * (r * c) == d * c) == (2 * r == d))
        by (nonlinear_arith)
        requires
            c > 0,
    ;
}

/// A multiple of the denominator is divided without rounding.
pub proof fn lemma_div_half_even_exact(a: nat, d: nat)
    requires
        d > 0,
    ensures
        div_half_even(a * d, d) == a,
{
    lemma_quotient(a * d, d, a, 0);
}

/// A common factor of numerator and denominator does not change the
/// nearest single-precision magnitude.
pub proof fn lemma_nearest_cancel(n: nat, d: nat, c: nat)
    requires
        d > 0,
        c > 0,
    ensures
        nearest(n * c, d * c) == nearest(n, d),
{
    let q = n / d;
    let r = n % d;
    lemma_fundamental_div_mod(n as int, d as int);
    assert(d * c > 0) by (nonlinear_arith)
        requires
            d > 0,
            c > 0,
    ;
    assert(n * c == q * (d * c) + r * c && r * c < d * c) by (nonlinear_arith)
        requires
            n == d * q + r,
            r < d,
            c > 0,
    ;
    lemma_quotient(n * c, d * c, q, r * c);
    let step = pow2(spacing(q));
    lemma_pow2_pos(spacing(q));
    assert(d * step > 0) by (nonlinear_arith)
        requires
            d > 0,
            step > 0,
    ;
    lemma_div_half_even_cancel(n, d * step, c);
    assert((d * step) * c == (d * c) * step) by (nonlinear_arith);
}

/// Zero is rounded to zero.
pub proof fn lemma_nearest_zero(d: nat)
    requires
        d > 0,
    ensures
        nearest(0, d) == 0,
{
    assert(0 == 0 * d + 0) by (nonlinear_arith);
    lemma_quotient(0, d, 0, 0);
    assert(bit_length(0) == 0);
    assert(spacing(0) == 0);
    let step = pow2(0);
    assert(step == 1) by {
        vstd::arithmetic::power2::lemma2_to64();
    }
    assert(d * step == d) by (nonlinear_arith)
        requires
            step == 1,
    ;
    assert(div_half_even(0, d) == 0);
    assert(0 * step == 0) by (nonlinear_arith);
    lemma_pow2_pos(277);
}

/// The magnitude nearest to `sig * 2^exp` units, for an exponent of either
/// sign.
pub open spec fn scaled_nearest(sig: nat, exp: int) -> nat {
    if exp >= 0 {
        nearest(sig * pow2(exp as nat), 1)
    } else {
        nearest(sig, pow2((-exp) as nat))
    }
}

/// The number of digits that `sig * 2^exp` has before the binary point
/// decides the spacing there.
pub open spec fn spacing_at(sig: nat, exp: int) -> int {
    if bit_length(sig) + exp > 24 {
        bit_length(sig) + exp - 24
    } else {
        0
    }
}

/// The significand of `sig * 2^exp` at spacing 2^e: exact where the value
/// has no digit below the spacing, rounded otherwise.
pub open spec fn significand_at(sig: nat, exp: int, e: int) -> nat {
    if e <= exp {
        sig * pow2((exp - e) as nat)
    } else {
        div_half_even(sig, pow2((e - exp) as nat))
    }
}

/// Rounding `sig * 2^exp` comes to rounding its significand at the spacing
/// that its digits give.
pub proof fn lemma_scaled_nearest(sig: nat, exp: int)
    requires
        sig > 0,
    ensures
        ({
            let e = spacing_at(sig, exp);
            let m = significand_at(sig, exp, e) * pow2(e as nat);
            scaled_nearest(sig, exp) == if m >= limit() {
                limit()
            } else {
                m
            }
        }),
{
    let len = bit_length(sig);
    let e = spacing_at(sig, exp);
    lemma_pow2_pos(e as nat);
    if exp >= 0 {
        let up = pow2(exp as nat);
        lemma_pow2_pos(exp as nat);
        let num = sig * up;
        lemma_quotient(num, 1, num, 0);
        lemma_bit_length_shift_up(sig, exp as nat);
        assert(spacing(num / 1) == e);
        assert(1 * pow2(e as nat) == pow2(e as nat));
        if e <= exp {
            lemma_pow2_adds((exp - e) as nat, e as nat);
            assert(num == (sig * pow2((exp - e) as nat)) * pow2(e as nat)) by (nonlinear_arith)
                requires
                    num == sig * up,
                    up == pow2((exp - e) as nat) * pow2(e as nat),
            ;
            lemma_div_half_even_exact(sig * pow2((exp - e) as nat), pow2(e as nat));
        } else {
            lemma_pow2_adds((e - exp) as nat, exp as nat);
            lemma_pow2_pos((e - exp) as nat);
            lemma_div_half_even_cancel(sig, pow2((e - exp) as nat), up);
        }
    } else {
        let down = pow2((-exp) as nat);
        lemma_pow2_pos((-exp) as nat);
        lemma_bit_length_shift_down(sig, (-exp) as nat);
        assert(spacing(sig / down) == e);
        lemma_pow2_adds((-exp) as nat, e as nat);
    }
}

/// The significand at the spacing that the digits give has at most 24
/// binary digits, and exactly 24 where the spacing is more than one unit,
/// unless rounding carried it to 2^24.
pub proof fn lemma_significand_range(sig: nat, exp: int)
    requires
        sig > 0,
    ensures
        ({
            let e = spacing_at(sig, exp);
            let m = significand_at(sig, exp, e);
            &&& m <= pow2(24)
            &&& e > 0 ==> m >= pow2(23)
        }),
{
    let len = bit_length(sig);
    let e = spacing_at(sig, exp);
    let m = significand_at(sig, exp, e);
    lemma_bit_length_bounds(sig);
    lemma_pow2_pos(24);
    if e <= exp {
        lemma_bit_length_shift_up(sig, (exp - e) as nat);
        lemma_pow2_pos((exp - e) as nat);
        assert(m > 0) by (nonlinear_arith)
            requires
                m == sig * pow2((exp - e) as nat),
                sig > 0,
                pow2((exp - e) as nat) > 0,
        ;
        lemma_bit_length_bounds(m);
        if e > 0 {
            assert(bit_length(m) == 24);
        } else {
            lemma_pow2_monotone(bit_length(m), 24);
        }
    } else {
        let k = (e - exp) as nat;
        let d = pow2(k);
        lemma_pow2_pos(k);
        let q = sig / d;
        lemma_bit_length_shift_down(sig, k);
        assert(q <= m <= q + 1);
        if e > 0 {
            assert(bit_length(q) == 24);
            lemma_bit_length_bounds(q);
        } else {
            assert(bit_length(q) <= 24);
            if q > 0 {
                lemma_bit_length_bounds(q);
                lemma_pow2_monotone(bit_length(q), 24);
            }
        }
    }
}

/// Rounding `sig * 2^(up - down)` is rounding the ratio of `sig * 2^up` to
/// `2^down`.
pub proof fn lemma_scaled_nearest_ratio(sig: nat, up: nat, down: nat)
    ensures
        scaled_nearest(sig, up - down) == nearest(sig * pow2(up), pow2(down)),
{
    lemma_pow2_pos(up);
    lemma_pow2_pos(down);
    if up >= down {
        let d = (up - down) as nat;
        lemma_pow2_adds(d, down);
        lemma_nearest_cancel(sig * pow2(d), 1, pow2(down));
        assert(sig * pow2(d) * pow2(down) == sig * pow2(up)) by (nonlinear_arith)
            requires
                pow2(d) * pow2(down) == pow2(up),
        ;
        assert(1 * pow2(down) == pow2(down));
    } else {
        let d = (down - up) as nat;
        lemma_pow2_adds(d, up);
        lemma_pow2_pos(d);
        lemma_nearest_cancel(sig, pow2(d), pow2(up));
    }
}

/// The whole part of `m * 2^s` units, one being 2^149 units.
pub proof fn lemma_whole_part(m: nat, s: nat)
    ensures
        (m * pow2(s)) / pow2(149) == if s >= 149 {
            m * pow2((s - 149) as nat)
        } else {
            m / pow2((149 - s) as nat)
        },
{
    lemma_pow2_pos(149);
    lemma_pow2_pos(s);
    if s >= 149 {
        let d = (s - 149) as nat;
        lemma_pow2_adds(d, 149);
        assert(m * pow2(s) == (m * pow2(d)) * pow2(149) + 0) by (nonlinear_arith)
            requires
                pow2(d) * pow2(149) == pow2(s),
        ;
        lemma_quotient(m * pow2(s), pow2(149), m * pow2(d), 0);
    } else {
        let k = (149 - s) as nat;
        let d = pow2(k);
        let c = pow2(s);
        lemma_pow2_pos(k);
        lemma_pow2_adds(k, s);
        let q = m / d;
        let r = m % d;
        lemma_fundamental_div_mod(m as int, d as int);
        assert(m * c == q * (d * c) + r * c && r * c < d * c) by (nonlinear_arith)
            requires
                m == d * q + r,
                r < d,
                c > 0,
        ;
        lemma_quotient(m * c, pow2(149), q, r * c);
    }
}

/// A significand of 24 binary digits at scale `s` is unchanged by adding
/// less than a quarter of its spacing: the sum rounds back to it.
pub proof fn lemma_absorb_sum(m: nat, s: nat, t: nat)
    requires
        pow2(23) <= m < pow2(24),
        s <= 253,
        4 * t < pow2(s),
    ensures
        nearest(m * pow2(s) + t, 1) == m * pow2(s),
{
    let p = pow2(s);
    let x = m * p + t;
    lemma_pow2_pos(s);
    lemma_pow2_adds(23, s);
    lemma_pow2_adds(24, s);
    lemma_pow2_adds(24, 253);
    lemma_pow2_monotone(s, 253);
    assert(pow2(23) * p <= m * p && m * p + p <= pow2(24) * p && m * p < pow2(24) * pow2(253))
        by (nonlinear_arith)
        requires
            pow2(23) <= m < pow2(24),
            0 < p <= pow2(253),
    ;
    lemma_bit_length_unique(x, 24 + s);
    lemma_quotient(x, 1, x, 0);
    assert(spacing(x) == s);
    assert(1 * p == p);
    lemma_quotient(x, p, m, t);
    assert(div_half_even(x, p) == m);
}

/// A significand of 24 binary digits at scale `s` is unchanged by taking
/// away less than a quarter of its spacing: the difference rounds back to it.
pub proof fn lemma_absorb_difference(m: nat, s: nat, t: nat)
    requires
        pow2(23) <= m < pow2(24),
        s <= 253,
        4 * t < pow2(s),
    ensures
        nearest((m * pow2(s) - t) as nat, 1) == m * pow2(s),
{
    if t == 0 {
        lemma_absorb_sum(m, s, 0);
    } else {
        let p = pow2(s);
        lemma_pow2_pos(s);
        lemma_pow2_adds(23, s);
        lemma_pow2_adds(24, s);
        lemma_pow2_adds(24, 253);
        lemma_pow2_monotone(s, 253);
        vstd::arithmetic::power2::lemma2_to64();
        assert(s >= 1) by {
            if s == 0 {
                assert(p == 1);
            }
        }
        assert(pow2(23) * p <= m * p && m * p < pow2(24) * pow2(253) && p <= m * p)
            by (nonlinear_arith)
            requires
                1 <= pow2(23) <= m < pow2(24),
                0 < p <= pow2(253),
        ;
        let x = (m * p - t) as nat;
        assert(x == m * p - t);
        lemma_quotient(x, 1, x, 0);
        if m > pow2(23) {
            assert(x == (m - 1) * p + (p - t) && pow2(23) * p <= (m - 1) * p && m * p <= pow2(24)
                * p) by (nonlinear_arith)
                requires
                    x == m * p - t,
                    pow2(23) < m < pow2(24),
                    p > 0,
            ;
            lemma_bit_length_unique(x, 24 + s);
            assert(spacing(x) == s);
            assert(1 * p == p);
            lemma_quotient(x, p, (m - 1) as nat, (p - t) as nat);
            assert(div_half_even(x, p) == m);
        } else {
            let s1 = (s - 1) as nat;
            let pa = pow2(s1);
            lemma_pow2_unfold(s);
            lemma_pow2_pos(s1);
            lemma_pow2_adds(23, s1);
            lemma_pow2_adds(24, s1);
            lemma_pow2_unfold(24);
            let top = pow2(24);
            assert(x == (top - 1) * pa + (pa - t) && pow2(23) * pa <= (top - 1) * pa && x < top
                * pa && top * pa == m * p) by (nonlinear_arith)
                requires
                    x == m * p - t,
                    m == pow2(23),
                    top == 2 * pow2(23),
                    p == 2 * pa,
                    0 < 2 * t < pa,
                    pow2(23) >= 1,
            ;
            lemma_bit_length_unique(x, 24 + s1);
            assert(spacing(x) == s1);
            assert(1 * pa == pa);
            lemma_quotient(x, pa, (top - 1) as nat, (pa - t) as nat);
            assert(div_half_even(x, pa) == top);
        }
    }
}

/// Numbers written with at most 24 binary digits, and with exactly 24 where
/// the scale is above zero, are ordered by scale first and by significand
/// second.
pub proof fn lemma_scale_order(m1: nat, s1: nat, m2: nat, s2: nat)
    requires
        m1 < pow2(24),
        m2 < pow2(24),
        s1 > 0 ==> m1 >= pow2(23),
        s2 > 0 ==> m2 >= pow2(23),
    ensures
        s1 > s2 ==> m1 * pow2(s1) > m2 * pow2(s2),
        s1 == s2 && m1 >= m2 ==> m1 * pow2(s1) >= m2 * pow2(s2),
        s1 == s2 && m1 > m2 ==> m1 * pow2(s1) > m2 * pow2(s2),
{
    let pa = pow2(s1);
    let pb = pow2(s2);
    lemma_pow2_pos(s1);
    lemma_pow2_pos(s2);
    if s1 > s2 {
        lemma_pow2_unfold(s2 + 1);
        lemma_pow2_unfold(24);
        lemma_pow2_monotone(s2 + 1, s1);
        assert(m1 * pa > m2 * pb) by (nonlinear_arith)
            requires
                m2 < 2 * pow2(23),
                m1 >= pow2(23),
                pa >= 2 * pb,
                pb > 0,
        ;
    } else if s1 == s2 {
        assert(m1 >= m2 ==> m1 * pa >= m2 * pa) by (nonlinear_arith)
            requires
                pa > 0,
        ;
        assert(m1 > m2 ==> m1 * pa > m2 * pa) by (nonlinear_arith)
            requires
                pa > 0,
        ;
    }
}

/// Powers of two common to numerator and denominator leave the nearest
/// magnitude as it is.
pub proof fn lemma_nearest_shift(n: nat, d: nat, up: nat, down: nat)
    requires
        d > 0,
    ensures
        nearest(n * pow2(up), d * pow2(down)) == if up >= down {
            nearest(n * pow2((up - down) as nat), d)
        } else {
            nearest(n, d * pow2((down - up) as nat))
        },
{
    lemma_pow2_pos(up);
    lemma_pow2_pos(down);
    if up >= down {
        let g = (up - down) as nat;
        lemma_pow2_adds(g, down);
        lemma_nearest_cancel(n * pow2(g), d, pow2(down));
        assert(n * pow2(g) * pow2(down) == n * pow2(up)) by (nonlinear_arith)
            requires
                pow2(g) * pow2(down) == pow2(up),
        ;
    } else {
        let g = (down - up) as nat;
        lemma_pow2_adds(g, up);
        lemma_pow2_pos(g);
        assert(d * pow2(g) > 0) by (nonlinear_arith)
            requires
                d > 0,
                pow2(g) > 0,
        ;
        lemma_nearest_cancel(n, d * pow2(g), pow2(up));
        assert(d * pow2(g) * pow2(up) == d * pow2(down)) by (nonlinear_arith)
            requires
                pow2(g) * pow2(up) == pow2(down),
        ;
    }
}

/// The quotient of `q` by 2^k rounded by the digit below the last one kept,
/// as is right for a number that lies strictly between `q` and `q + 1`.
pub open spec fn rounded_above(q: nat, k: nat) -> nat {
    if q % pow2(k) >= pow2((k - 1) as nat) {
        q / pow2(k) + 1
    } else {
        q / pow2(k)
    }
}

/// A ratio strictly between `q` and `q + 1`, rounded at 2^k, is settled by
/// the digits of `q`.
pub proof fn lemma_round_between(n: nat, m: nat, q: nat, r: nat, k: nat)
    requires
        n == q * m + r,
        0 < r < m,
        k >= 1,
    ensures
        div_half_even(n, m * pow2(k)) == rounded_above(q, k),
{
    let p = pow2(k);
    let half = pow2((k - 1) as nat);
    lemma_pow2_pos(k);
    lemma_pow2_unfold(k);
    let t = q / p;
    let rho = q % p;
    lemma_fundamental_div_mod(q as int, p as int);
    assert(n == t * (m * p) + (rho * m + r) && rho * m + r < m * p && m * p > 0) by (nonlinear_arith)
        requires
            n == q * m + r,
            q == p * t + rho,
            0 <= rho < p,
            0 < r < m,
    ;
    lemma_quotient(n, m * p, t, rho * m + r);
    if rho >= half {
        assert(2 * (rho * m + r) > m * p) by (nonlinear_arith)
            requires
                rho >= half,
                p == 2 * half,
                0 < r < m,
        ;
    } else {
        assert(2 * (rho * m + r) < m * p) by (nonlinear_arith)
            requires
                rho + 1 <= half,
                p == 2 * half,
                0 < r < m,
        ;
    }
}

/// The odd number `2q + 1`, which stands for any number strictly between `q`
/// and `q + 1`, rounds at 2^(k+1) as the digits of `q` settle it.
pub proof fn lemma_round_odd(q: nat, k: nat)
    requires
        k >= 1,
    ensures
        div_half_even(2 * q + 1, pow2(k + 1)) == rounded_above(q, k),
{
    lemma_pow2_unfold(k + 1);
    lemma_round_between(2 * q + 1, 2, q, 1, k);
}

/// A number from `q * 2^e` up to below `(q + 1) * 2^e` has the digits of `q`
/// and `e` more.
pub proof fn lemma_bit_length_between(q: nat, e: nat, y: nat)
    requires
        q > 0,
        q * pow2(e) <= y < (q + 1) * pow2(e),
    ensures
        bit_length(y) == bit_length(q) + e,
{
    lemma_bit_length_bounds(q);
    let b = bit_length(q);
    let p = pow2(e);
    lemma_pow2_pos(e);
    lemma_pow2_adds((b - 1) as nat, e);
    lemma_pow2_adds(b, e);
    assert(pow2((b - 1) as nat) * p <= q * p && (q + 1) * p <= pow2(b) * p) by (nonlinear_arith)
        requires
            pow2((b - 1) as nat) <= q < pow2(b),
            p > 0,
    ;
    lemma_bit_length_unique(y, b + e);
}

/// The ratio of `n * 2^exp` to `m`, where `n / m` lies strictly between `q`
/// and `q + 1` and `q` has digits to spare, is rounded as the odd number
/// `2q + 1` at half the scale is.
pub proof fn lemma_nearest_inexact(n: nat, m: nat, q: nat, r: nat, exp: int)
    requires
        n == q * m + r,
        0 < r < m,
        bit_length(q) >= 26,
    ensures
        scaled_nearest(2 * q + 1, exp - 1) == if exp >= 0 {
            nearest(n * pow2(exp as nat), m)
        } else {
            nearest(n, m * pow2((-exp) as nat))
        },
{
    let len = bit_length(q);
    assert(q > 0);
    lemma_quotient(n, m, q, r);
    // The odd number.
    let odd = 2 * q + 1;
    assert(bit_length(odd) == len + 1) by {
        assert(odd / 2 == q);
    }
    lemma_scaled_nearest(odd, exp - 1);
    let e = spacing_at(odd, exp - 1);
    assert(e == if len + exp > 24 {
        len + exp - 24
    } else {
        0
    });
    let k = (e - exp) as nat;
    assert(e - exp >= 2);
    assert(significand_at(odd, exp - 1, e) == div_half_even(odd, pow2(k + 1)));
    lemma_round_odd(q, k);
    lemma_round_between(n, m, q, r, k);
    lemma_pow2_pos(e as nat);
    lemma_pow2_pos(k);
    // The ratio.
    if exp >= 0 {
        let up = pow2(exp as nat);
        lemma_pow2_pos(exp as nat);
        let x = n * up;
        let whole = x / m;
        lemma_fundamental_div_mod(x as int, m as int);
        assert(q * up <= whole < (q + 1) * up) by (nonlinear_arith)
            requires
                x == m * whole + x % m,
                0 <= x % m < m,
                x == n * up,
                n == q * m + r,
                0 < r < m,
                up > 0,
        ;
        lemma_bit_length_between(q, exp as nat, whole);
        assert(spacing(whole) == e);
        lemma_pow2_adds(k, exp as nat);
        assert(m * pow2(e as nat) == (m * pow2(k)) * up) by (nonlinear_arith)
            requires
                pow2(e as nat) == pow2(k) * up,
        ;
        assert(m * pow2(k) > 0) by (nonlinear_arith)
            requires
                m > 0,
                pow2(k) > 0,
        ;
        lemma_div_half_even_cancel(n, m * pow2(k), up);
    } else {
        let down = pow2((-exp) as nat);
        lemma_pow2_pos((-exp) as nat);
        assert(m * down > 0) by (nonlinear_arith)
            requires
                m > 0,
                down > 0,
        ;
        vstd::arithmetic::div_mod::lemma_div_denominator(n as int, m as int, down as int);
        assert(n / (m * down) == q / down);
        lemma_bit_length_shift_down(q, (-exp) as nat);
        assert(spacing(q / down) == e);
        lemma_pow2_adds((-exp) as nat, e as nat);
        assert((m * down) * pow2(e as nat) == m * pow2(k)) by (nonlinear_arith)
            requires
                down * pow2(e as nat) == pow2(k),
        ;
    }
}

} // verus!
