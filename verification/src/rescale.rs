//! Rescaling an amplitude to the range of the colour scale:
//! `(value - min) / (max - min)` in binary32 arithmetic, every operation
//! rounded to the nearest number, ties to even, and computed on the bit
//! patterns with whole numbers only.

use crate::binary32::{
    abs_bits, is_finite, is_infinite, is_nan, is_negative, is_zero, magnitude, nan, rank, NAN,
    ONE, POS_INFINITY, SIGN_BIT,
};
use crate::format::{lemma_nearest_exists_in, lemma_nearest_monotone_in};
use crate::rounding::HIDDEN;
use crate::rounding::{
    at_or_below, exp_of, lemma_nearest_unique, lemma_units_increasing, lemma_units_step, nearest,
    round_scaled, split, units,
};
use vstd::arithmetic::power2::{
    lemma2_to64, lemma_pow2_adds, lemma_pow2_pos, lemma_pow2_strictly_increases, pow2,
};
use vstd::prelude::*;

verus! {

/// The nearest binary32 magnitude to `num / den` units.
pub open spec fn rounded(num: int, den: int) -> nat {
    choose|r: nat| nearest(r, num, den)
}

/// The value of a finite pattern in units of 2^-149, with its sign.
pub open spec fn signed_units(x: u32) -> int {
    if is_negative(x) {
        -(units(magnitude(x) as nat) as int)
    } else {
        units(magnitude(x) as nat) as int
    }
}

/// The pattern of a magnitude with a sign.
pub open spec fn with_sign(negative: bool, m: nat) -> u32 {
    if negative {
        (m + SIGN_BIT) as u32
    } else {
        m as u32
    }
}

/// `a - b` in binary32: a not-a-number where an operand is one or where two
/// like infinities meet, the infinity where one operand is one, else the
/// exact difference rounded to the nearest number. A difference of exactly
/// zero is positive zero, but for negative zero less positive zero.
pub open spec fn difference(a: u32, b: u32) -> u32 {
    if is_nan(a) || is_nan(b) {
        NAN
    } else if is_infinite(a) {
        if is_infinite(b) && is_negative(a) == is_negative(b) {
            NAN
        } else {
            a
        }
    } else if is_infinite(b) {
        with_sign(!is_negative(b), POS_INFINITY as nat)
    } else {
        let x = signed_units(a) - signed_units(b);
        if x == 0 {
            with_sign(is_negative(a) && !is_negative(b), 0)
        } else if x > 0 {
            with_sign(false, rounded(x, 1))
        } else {
            with_sign(true, rounded(-x, 1))
        }
    }
}

/// `n / d` in binary32: a not-a-number where an operand is one and for
/// infinity by infinity and zero by zero; else the sign is negative where
/// the signs of the operands differ, and the magnitude is infinity for an
/// infinity or by a zero, zero for a zero or by an infinity, and otherwise
/// the exact quotient rounded to the nearest number.
pub open spec fn quotient(n: u32, d: u32) -> u32 {
    let negative = is_negative(n) != is_negative(d);
    if is_nan(n) || is_nan(d) {
        NAN
    } else if is_infinite(n) {
        if is_infinite(d) {
            NAN
        } else {
            with_sign(negative, POS_INFINITY as nat)
        }
    } else if is_infinite(d) {
        with_sign(negative, 0)
    } else if is_zero(d) {
        if is_zero(n) {
            NAN
        } else {
            with_sign(negative, POS_INFINITY as nat)
        }
    } else if is_zero(n) {
        with_sign(negative, 0)
    } else {
        with_sign(
            negative,
            rounded(
                (units(magnitude(n) as nat) * pow2(149)) as int,
                units(magnitude(d) as nat) as int,
            ),
        )
    }
}

/// The amplitude rescaled from the range `min ..= max` to the unit interval.
pub open spec fn rescaled(value: u32, min: u32, max: u32) -> u32 {
    quotient(difference(value, min), difference(max, min))
}

/// A magnitude that is nearest is the one that `rounded` names.
pub proof fn lemma_rounded_is(r: nat, num: int, den: int)
    requires
        den > 0,
        nearest(r, num, den),
    ensures
        rounded(num, den) == r,
{
    lemma_nearest_unique(r, rounded(num, den), num, den);
}

/// Puts a sign on a magnitude.
fn signed(negative: bool, m: u32) -> (r: u32)
    requires
        m <= POS_INFINITY,
    ensures
        r == with_sign(negative, m as nat),
{
    if negative {
        m + SIGN_BIT
    } else {
        m
    }
}

/// Tells whether the sign bit is set.
fn negative(x: u32) -> (r: bool)
    ensures
        r == is_negative(x),
{
    x >= SIGN_BIT
}

/// The sum of the values of two finite magnitudes, rounded.
fn add_magnitudes(ma: u32, mb: u32) -> (r: u32)
    requires
        ma < POS_INFINITY,
        mb < POS_INFINITY,
    ensures
        r <= POS_INFINITY,
        units(ma as nat) + units(mb as nat) > 0 ==> r == rounded(
            (units(ma as nat) + units(mb as nat)) as int,
            1,
        ),
        units(ma as nat) + units(mb as nat) == 0 ==> r == 0,
{
    let (hi, lo) = if ma >= mb {
        (ma, mb)
    } else {
        (mb, ma)
    };
    let (sig_hi, exp_hi) = split(hi);
    let (sig_lo, exp_lo) = split(lo);
    let d: u32 = exp_hi - exp_lo;
    let ghost a = units(hi as nat) as int;
    let ghost b = units(lo as nat) as int;
    proof {
        lemma2_to64();
        lemma_pow2_pos(exp_lo as nat);
        lemma_pow2_pos(exp_hi as nat);
        lemma_pow2_adds(d as nat, exp_lo as nat);
    }
    if hi == 0 {
        assert(a == 0 && b == 0) by (nonlinear_arith)
            requires
                a == 0 * pow2(0),
                b == 0 * pow2(0),
        ;
        return 0;
    }
    if d <= 37 {
        proof {
            vstd::arithmetic::power2::lemma2_to64_rest();
            if d < 37 {
                lemma_pow2_strictly_increases(d as nat, 37);
            }
            assert(sig_hi * pow2(d as nat) <= 0x100_0000 * 0x20_0000_0000) by (nonlinear_arith)
                requires
                    sig_hi < 0x100_0000,
                    pow2(d as nat) <= 0x20_0000_0000,
            ;
            vstd::bits::lemma_u64_shl_is_mul(sig_hi as u64, d as u64);
        }
        let sum: u64 = ((sig_hi as u64) << d) + (sig_lo as u64);
        let r = round_scaled(sum, exp_lo, 1, 0);
        proof {
            let p = pow2(exp_lo as nat) as int;
            let q = pow2(d as nat) as int;
            assert(sum * p == sig_hi * (q * p) + sig_lo * p) by (nonlinear_arith)
                requires
                    sum == sig_hi * q + sig_lo,
            ;
            assert(sum * p == a + b);
            assert(1 * pow2(0) == 1);
            if a + b > 0 {
                lemma_rounded_is(r as nat, a + b, 1);
            } else {
                assert(sum == 0) by (nonlinear_arith)
                    requires
                        sum * p == 0,
                        p > 0,
                        sum >= 0,
                ;
            }
        }
        assert(sum == 0 ==> r == 0) by {
            if sum == 0 {
                assert(0 * pow2(exp_lo as nat) == 0);
                if r > 0 {
                    lemma_units_step((r - 1) as nat);
                    lemma_pow2_pos(exp_of((r - 1) as nat));
                    assert(at_or_below((r - 1) as nat, 0, 1));
                }
            }
        }
        r
    } else {
        proof {
            lemma_units_step(hi as nat);
            lemma_units_increasing((hi - 1) as nat, hi as nat);
            lemma_pow2_adds(24, exp_lo as nat);
            lemma_pow2_strictly_increases((24 + exp_lo) as nat, (exp_hi - 1) as nat);
            vstd::arithmetic::power2::lemma_pow2_unfold(exp_hi as nat);
            let s = pow2(exp_hi as nat) as int;
            assert(b < pow2(24) * pow2(exp_lo as nat)) by (nonlinear_arith)
                requires
                    b == sig_lo * pow2(exp_lo as nat),
                    sig_lo < pow2(24),
                    pow2(exp_lo as nat) > 0,
            ;
            assert(2 * b < s);
            assert(nearest(hi as nat, a + b, 1));
            lemma_rounded_is(hi as nat, a + b, 1);
        }
        hi
    }
}

/// The difference of the values of two finite magnitudes, the first the
/// greater, rounded.
fn sub_magnitudes(hi: u32, lo: u32) -> (r: u32)
    requires
        lo < hi < POS_INFINITY,
    ensures
        r <= POS_INFINITY,
        units(hi as nat) > units(lo as nat),
        r == rounded(units(hi as nat) - units(lo as nat), 1),
{
    let (sig_hi, exp_hi) = split(hi);
    let (sig_lo, exp_lo) = split(lo);
    let ghost a = units(hi as nat) as int;
    let ghost b = units(lo as nat) as int;
    proof {
        lemma2_to64();
        lemma_units_increasing(lo as nat, hi as nat);
        lemma_pow2_pos(exp_lo as nat);
        lemma_pow2_pos(exp_hi as nat);
        assert(exp_lo <= exp_hi) by {
            if hi >= 0x80_0000 && lo >= 0x80_0000 {
                vstd::arithmetic::div_mod::lemma_div_is_ordered(lo as int, hi as int, 0x80_0000);
            }
        }
    }
    let d: u32 = exp_hi - exp_lo;
    proof {
        lemma_pow2_adds(d as nat, exp_lo as nat);
    }
    if d <= 37 {
        proof {
            vstd::arithmetic::power2::lemma2_to64_rest();
            if d < 37 {
                lemma_pow2_strictly_increases(d as nat, 37);
            }
            assert(sig_hi * pow2(d as nat) <= 0x100_0000 * 0x20_0000_0000) by (nonlinear_arith)
                requires
                    sig_hi < 0x100_0000,
                    pow2(d as nat) <= 0x20_0000_0000,
            ;
            vstd::bits::lemma_u64_shl_is_mul(sig_hi as u64, d as u64);
            let p = pow2(exp_lo as nat) as int;
            let q = pow2(d as nat) as int;
            assert(sig_hi * q > sig_lo) by (nonlinear_arith)
                requires
                    sig_hi * (q * p) > sig_lo * p,
                    p > 0,
            ;
        }
        let diff: u64 = ((sig_hi as u64) << d) - (sig_lo as u64);
        let r = round_scaled(diff, exp_lo, 1, 0);
        proof {
            let p = pow2(exp_lo as nat) as int;
            let q = pow2(d as nat) as int;
            assert(diff * p == sig_hi * (q * p) - sig_lo * p) by (nonlinear_arith)
                requires
                    diff == sig_hi * q - sig_lo,
            ;
            assert(1 * pow2(0) == 1);
            lemma_rounded_is(r as nat, a - b, 1);
        }
        r
    } else {
        proof {
            lemma_units_step(hi as nat);
            lemma_units_step((hi - 1) as nat);
            let below = exp_of((hi - 1) as nat);
            assert(below + 1 >= exp_hi) by {
                if hi - 1 >= 0x80_0000 {
                    vstd::arithmetic::div_mod::lemma_fundamental_div_mod(
                        hi as int,
                        0x80_0000,
                    );
                    vstd::arithmetic::div_mod::lemma_fundamental_div_mod(
                        hi - 1,
                        0x80_0000,
                    );
                }
            }
            lemma_pow2_adds(24, exp_lo as nat);
            lemma_pow2_strictly_increases((24 + exp_lo) as nat, (exp_hi - 2) as nat);
            if below > exp_hi - 1 {
                lemma_pow2_strictly_increases((exp_hi - 1) as nat, below);
            }
            vstd::arithmetic::power2::lemma_pow2_unfold((exp_hi - 1) as nat);
            lemma_pow2_pos(below);
            let s = pow2(below) as int;
            assert(b < pow2(24) * pow2(exp_lo as nat)) by (nonlinear_arith)
                requires
                    b == sig_lo * pow2(exp_lo as nat),
                    sig_lo < pow2(24),
                    pow2(exp_lo as nat) > 0,
            ;
            assert(2 * b < s);
            assert(nearest(hi as nat, a - b, 1));
            lemma_rounded_is(hi as nat, a - b, 1);
        }
        hi
    }
}

/// Subtracts in binary32.
pub fn subtract(a: u32, b: u32) -> (r: u32)
    ensures
        r == difference(a, b),
{
    if nan(a) || nan(b) {
        return NAN;
    }
    let ma = abs_bits(a);
    let mb = abs_bits(b);
    if ma == POS_INFINITY {
        return if mb == POS_INFINITY && negative(a) == negative(b) {
            NAN
        } else {
            a
        };
    }
    if mb == POS_INFINITY {
        return signed(!negative(b), POS_INFINITY);
    }
    let sa = negative(a);
    let sb = !negative(b);
    let ghost x = signed_units(a) - signed_units(b);
    if sa == sb {
        let r = add_magnitudes(ma, mb);
        proof {
            if units(ma as nat) + units(mb as nat) == 0 {
                assert(x == 0);
            }
        }
        signed(sa, r)
    } else if ma == mb {
        0
    } else if ma > mb {
        let r = sub_magnitudes(ma, mb);
        signed(sa, r)
    } else {
        let r = sub_magnitudes(mb, ma);
        signed(sb, r)
    }
}

/// Divides in binary32.
pub fn divide(n: u32, d: u32) -> (r: u32)
    ensures
        r == quotient(n, d),
{
    if nan(n) || nan(d) {
        return NAN;
    }
    let mn = abs_bits(n);
    let md = abs_bits(d);
    let sign = negative(n) != negative(d);
    if mn == POS_INFINITY {
        return if md == POS_INFINITY {
            NAN
        } else {
            signed(sign, POS_INFINITY)
        };
    }
    if md == POS_INFINITY {
        return signed(sign, 0);
    }
    if md == 0 {
        return if mn == 0 {
            NAN
        } else {
            signed(sign, POS_INFINITY)
        };
    }
    if mn == 0 {
        return signed(sign, 0);
    }
    let (sig_n, exp_n) = split(mn);
    let (sig_d, exp_d) = split(md);
    let r = round_scaled(sig_n as u64, exp_n + 149, sig_d as u64, exp_d);
    proof {
        lemma_pow2_adds(exp_n as nat, 149);
        lemma_pow2_pos(exp_d as nat);
        let p = pow2(exp_n as nat) as int;
        let q = pow2(149) as int;
        assert(sig_n * (p * q) == (sig_n * p) * q) by (nonlinear_arith);
        assert(units(md as nat) > 0) by {
            lemma_units_increasing(0, md as nat);
        }
        lemma_rounded_is(
            r as nat,
            (units(mn as nat) * pow2(149)) as int,
            units(md as nat) as int,
        );
    }
    signed(sign, r)
}

/// Rescales an amplitude from the range `min ..= max` to the unit interval:
/// `(value - min) / (max - min)`.
pub fn rescale(value: u32, min: u32, max: u32) -> (r: u32)
    ensures
        r == rescaled(value, min, max),
{
    divide(subtract(value, min), subtract(max, min))
}

/// The value of a magnitude rounds to that magnitude.
pub proof fn lemma_rounded_exact(m: nat)
    requires
        m <= POS_INFINITY,
    ensures
        rounded(units(m) as int, 1) == m,
{
    lemma_units_step(m);
    lemma_pow2_pos(exp_of(m));
    if m > 0 {
        lemma_units_step((m - 1) as nat);
        lemma_pow2_pos(exp_of((m - 1) as nat));
    }
    lemma_rounded_is(m, units(m) as int, 1);
}

/// Subtracting zero changes nothing: `a - 0` is `a` for every number `a`.
pub proof fn lemma_difference_zero(a: u32)
    requires
        !is_nan(a),
    ensures
        difference(a, 0) == a,
{
    assert(units(0) == 0) by {
        assert(crate::rounding::sig_of(0) == 0);
        assert(0 * pow2(exp_of(0)) == 0);
    }
    if !is_infinite(a) {
        lemma_rounded_exact(magnitude(a) as nat);
        if magnitude(a) > 0 {
            lemma_units_increasing(0, magnitude(a) as nat);
        }
    }
}

/// Every exact number rounds to some magnitude, and `rounded` names it.
pub proof fn lemma_rounded_nearest(num: int, den: int)
    requires
        den > 0,
    ensures
        nearest(rounded(num, den), num, den),
{
    lemma_nearest_exists_in(HIDDEN as nat, POS_INFINITY as nat, 0, num, den);
    let r = crate::format::least_at_or_below(HIDDEN as nat, POS_INFINITY as nat, 0, num, den);
    assert(nearest(r, num, den));
}

/// Rounding keeps the order: of two exact numbers over the same
/// denominator, the lesser does not round to the greater magnitude.
pub proof fn lemma_rounded_monotone(num1: int, num2: int, den: int)
    requires
        den > 0,
        num1 <= num2,
    ensures
        rounded(num1, den) <= rounded(num2, den),
{
    lemma_rounded_nearest(num1, den);
    lemma_rounded_nearest(num2, den);
    lemma_nearest_monotone_in(
        HIDDEN as nat,
        POS_INFINITY as nat,
        rounded(num1, den),
        rounded(num2, den),
        num1,
        num2,
        den,
    );
}

/// The order of the patterns is the order of the values.
pub proof fn lemma_rank_orders_values(a: u32, b: u32)
    requires
        is_finite(a),
        is_finite(b),
        rank(a) <= rank(b),
    ensures
        signed_units(a) <= signed_units(b),
{
    let ma = magnitude(a) as nat;
    let mb = magnitude(b) as nat;
    if ma < mb {
        lemma_units_increasing(ma, mb);
    } else if mb < ma {
        lemma_units_increasing(mb, ma);
    }
}

/// The rescaled value of what lies within the scale, spelled out: zero for
/// `min` itself, else the rounded quotient of the rounded distance from
/// `min` by the rounded range, with a positive sign.
pub open spec fn rescaled_within(value: u32, min: u32, max: u32) -> nat {
    let xn = signed_units(value) - signed_units(min);
    let xd = signed_units(max) - signed_units(min);
    if xn == 0 {
        0
    } else {
        rounded((units(rounded(xn, 1)) * pow2(149)) as int, units(rounded(xd, 1)) as int)
    }
}

/// What lies within the scale rescales as `rescaled_within` says.
pub proof fn lemma_rescaled_form(value: u32, min: u32, max: u32)
    requires
        is_finite(value),
        is_finite(min),
        is_finite(max),
        rank(min) <= rank(value) <= rank(max),
        is_finite(difference(max, min)),
        !is_zero(difference(max, min)),
    ensures
        rescaled(value, min, max) == rescaled_within(value, min, max),
        rescaled_within(value, min, max) <= ONE,
{
    let n = difference(value, min);
    let d = difference(max, min);
    let xn = signed_units(value) - signed_units(min);
    let xd = signed_units(max) - signed_units(min);
    lemma_rank_orders_values(min, value);
    lemma_rank_orders_values(value, max);
    lemma_rank_orders_values(min, max);
    assert(0 <= xn <= xd);
    assert(xd > 0);
    lemma_rounded_nearest(xd, 1);
    let md = magnitude(d) as nat;
    assert(md == rounded(xd, 1));
    let un_d = units(md) as int;
    lemma_units_increasing(0, md);
    let p = pow2(149) as int;
    lemma_pow2_pos(149);
    if xn == 0 {
        assert(!is_negative(n)) by {
            if is_negative(value) && !is_negative(min) {
                assert(rank(value) < 0 <= rank(min));
            }
        }
        assert(n == 0);
    } else {
        lemma_rounded_nearest(xn, 1);
        lemma_rounded_monotone(xn, xd, 1);
        let mn = magnitude(n) as nat;
        assert(mn == rounded(xn, 1));
        assert(mn <= md);
        assert(mn > 0) by {
            lemma_units_step(0);
            lemma2_to64();
            assert(crate::rounding::sig_of(0) == 0 && exp_of(0) == 0);
            assert(units(0) + units(1) == 1);
            if mn == 0 {
                assert(at_or_below(0, xn, 1));
                assert(2 * xn < (units(0) + units(1)) * 1 || 2 * xn == (units(0) + units(1)) * 1);
            }
        }
        let un_n = units(mn) as int;
        if mn < md {
            lemma_units_increasing(mn, md);
        }
        assert(un_n * p <= un_d * p) by (nonlinear_arith)
            requires
                un_n <= un_d,
                p > 0,
        ;
        lemma_rounded_monotone(un_n * p, un_d * p, un_d);
        lemma_quotient_of_equals(md);
    }
}

/// What lies within the scale rescales into the unit interval: where the
/// three numbers are finite, `value` lies from `min` to `max`, and the range
/// `max - min` is finite and not zero, the rescaled value is a number from
/// zero to one.
pub proof fn lemma_rescaled_within(value: u32, min: u32, max: u32)
    requires
        is_finite(value),
        is_finite(min),
        is_finite(max),
        rank(min) <= rank(value) <= rank(max),
        is_finite(difference(max, min)),
        !is_zero(difference(max, min)),
    ensures
        !is_nan(rescaled(value, min, max)),
        !is_negative(rescaled(value, min, max)),
        magnitude(rescaled(value, min, max)) <= ONE,
{
    lemma_rescaled_form(value, min, max);
}

/// Within the scale the rescaled value rises with the value: of two values
/// from `min` to `max`, the lesser does not rescale to the greater number.
pub proof fn lemma_rescaled_rises(low: u32, high: u32, min: u32, max: u32)
    requires
        is_finite(low),
        is_finite(high),
        is_finite(min),
        is_finite(max),
        rank(min) <= rank(low) <= rank(high) <= rank(max),
        is_finite(difference(max, min)),
        !is_zero(difference(max, min)),
    ensures
        rank(rescaled(low, min, max)) <= rank(rescaled(high, min, max)),
{
    lemma_rescaled_form(low, min, max);
    lemma_rescaled_form(high, min, max);
    lemma_rank_orders_values(min, low);
    lemma_rank_orders_values(low, high);
    lemma_rank_orders_values(min, max);
    let xl = signed_units(low) - signed_units(min);
    let xh = signed_units(high) - signed_units(min);
    let xd = signed_units(max) - signed_units(min);
    let p = pow2(149) as int;
    lemma_pow2_pos(149);
    lemma_rounded_nearest(xd, 1);
    let md = rounded(xd, 1);
    assert(md == magnitude(difference(max, min)));
    lemma_units_increasing(0, md);
    if xl > 0 {
        lemma_rounded_monotone(xl, xh, 1);
        let ml = rounded(xl, 1);
        let mh = rounded(xh, 1);
        if ml < mh {
            lemma_units_increasing(ml, mh);
        }
        let ul = units(ml) as int;
        let uh = units(mh) as int;
        assert(ul * p <= uh * p) by (nonlinear_arith)
            requires
                ul <= uh,
                p > 0,
        ;
        lemma_rounded_monotone(ul * p, uh * p, units(md) as int);
    }
}

/// A positive finite number divided by itself rounds to one.
pub proof fn lemma_quotient_of_equals(m: nat)
    requires
        0 < m < POS_INFINITY,
    ensures
        rounded((units(m) * pow2(149)) as int, units(m) as int) == ONE,
{
    let u = units(m) as int;
    let one = ONE as nat;
    lemma_units_increasing(0, m);
    lemma_units_step(one);
    lemma_units_step((one - 1) as nat);
    lemma2_to64();
    lemma_pow2_adds(23, 126);
    lemma_pow2_pos(126);
    lemma_pow2_pos(125);
    let p = pow2(149) as int;
    assert(units(one) == p);
    let above = units(one + 1) as int;
    let below = units((one - 1) as nat) as int;
    assert(below < p < above);
    assert(2 * (u * p) < (p + above) * u) by (nonlinear_arith)
        requires
            p < above,
            u > 0,
    ;
    assert(2 * (u * p) > (below + p) * u) by (nonlinear_arith)
        requires
            below < p,
            u > 0,
    ;
    lemma_rounded_is(one, u * p, u);
}

} // verus!
