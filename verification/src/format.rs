//! Binary floating-point formats in general: the value that a magnitude
//! stands for, and what it means that a magnitude is the nearest one to an
//! exact number.
//!
//! A format is given by its hidden bit, 2^23 for binary32 and 2^52 for
//! binary64, and by the magnitude of its infinity. Values are counted in
//! units of the format's smallest positive number, so that the value of
//! every finite magnitude is a whole number. The magnitudes, taken as
//! integers, are in the order of their values: the one after `m` is `m + 1`,
//! up to infinity, which stands where the next power of two would.

use vstd::arithmetic::power2::{lemma_pow2_pos, lemma_pow2_unfold, pow2};
use vstd::prelude::*;

verus! {

/// The significand of a magnitude, with the hidden bit `h` where it is
/// normal.
pub open spec fn sig_in(h: nat, m: nat) -> nat {
    if m < h {
        m
    } else {
        h + m % h
    }
}

/// The binary exponent of a magnitude, counted so that the value is
/// `sig_in(h, m) * 2^exp_in(h, m)` units.
pub open spec fn exp_in(h: nat, m: nat) -> nat {
    if m < h {
        0
    } else {
        (m / h - 1) as nat
    }
}

/// The value of a magnitude in units of the smallest positive number.
pub open spec fn units_in(h: nat, m: nat) -> nat {
    sig_in(h, m) * pow2(exp_in(h, m))
}

/// The exact number `num / den` units lies at or below the point halfway
/// between the values of `m` and `m + 1`, and where it lies on that point,
/// `m` is even.
pub open spec fn at_or_below_in(h: nat, m: nat, num: int, den: int) -> bool {
    let mid = (units_in(h, m) + units_in(h, m + 1)) * den;
    2 * num < mid || (2 * num == mid && m % 2 == 0)
}

/// The magnitude `r` is the number nearest to `num / den` units, the even
/// one of two that are equally near; the infinity `top` stands for what
/// rounds to its place or beyond.
pub open spec fn nearest_in(h: nat, top: nat, r: nat, num: int, den: int) -> bool {
    &&& r <= top
    &&& r > 0 ==> !at_or_below_in(h, (r - 1) as nat, num, den)
    &&& r < top ==> at_or_below_in(h, r, num, den)
}

/// The step from a magnitude to the next is one unit of its last place.
pub proof fn lemma_units_step_in(h: nat, m: nat)
    requires
        h > 0,
    ensures
        units_in(h, m + 1) == units_in(h, m) + pow2(exp_in(h, m)),
        units_in(h, m) + units_in(h, m + 1) == (2 * sig_in(h, m) + 1) * pow2(exp_in(h, m)),
{
    let e = exp_in(h, m);
    lemma_pow2_pos(e);
    assert(pow2(0) == 1) by {
        vstd::arithmetic::power2::lemma2_to64();
    }
    if m + 1 < h {
        assert(units_in(h, m) == m * 1);
        assert(units_in(h, m + 1) == (m + 1) * 1);
    } else if m + 1 == h {
        assert(h / h == 1 && h % h == 0) by {
            vstd::arithmetic::div_mod::lemma_fundamental_div_mod_converse(
                h as int,
                h as int,
                1,
                0,
            );
        }
        assert(sig_in(h, m + 1) == h);
        assert(exp_in(h, m + 1) == 0);
        assert(units_in(h, m) == m * 1);
        assert(units_in(h, m + 1) == h * 1);
    } else {
        let q = m / h;
        let f = m % h;
        assert(m == h * q + f && 0 <= f < h) by {
            vstd::arithmetic::div_mod::lemma_fundamental_div_mod(m as int, h as int);
            vstd::arithmetic::div_mod::lemma_mod_pos_bound(m as int, h as int);
        }
        assert(q >= 1) by (nonlinear_arith)
            requires
                m == h * q + f,
                f < h,
                m >= h,
                q >= 0,
        ;
        if f + 1 < h {
            assert((m + 1) / h == q && (m + 1) % h == f + 1) by {
                vstd::arithmetic::div_mod::lemma_fundamental_div_mod_converse(
                    (m + 1) as int,
                    h as int,
                    q as int,
                    (f + 1) as int,
                );
            }
            assert((h + f + 1) * pow2(e) == (h + f) * pow2(e) + pow2(e)) by (nonlinear_arith);
        } else {
            assert((q + 1) * h + 0 == m + 1) by (nonlinear_arith)
                requires
                    m == h * q + f,
                    f + 1 == h,
            ;
            assert((m + 1) / h == q + 1 && (m + 1) % h == 0) by {
                vstd::arithmetic::div_mod::lemma_fundamental_div_mod_converse(
                    (m + 1) as int,
                    h as int,
                    (q + 1) as int,
                    0,
                );
            }
            assert(exp_in(h, m + 1) == e + 1);
            lemma_pow2_unfold(e + 1);
            assert(pow2(e + 1) == 2 * pow2(e));
            assert(h * (2 * pow2(e)) == (h + f) * pow2(e) + pow2(e)) by (nonlinear_arith)
                requires
                    f + 1 == h,
            ;
        }
    }
    assert((2 * sig_in(h, m) + 1) * pow2(e) == sig_in(h, m) * pow2(e) + (sig_in(h, m) * pow2(e)
        + pow2(e))) by (nonlinear_arith);
}

/// A greater magnitude stands for a greater value.
pub proof fn lemma_units_increasing_in(h: nat, a: nat, b: nat)
    requires
        h > 0,
        a < b,
    ensures
        units_in(h, a) < units_in(h, b),
    decreases b - a,
{
    lemma_units_step_in(h, a);
    lemma_pow2_pos(exp_in(h, a));
    if a + 1 < b {
        lemma_units_increasing_in(h, a + 1, b);
    }
}

/// The halfway points rise with the magnitudes.
pub proof fn lemma_at_or_below_rises_in(h: nat, a: nat, b: nat, num: int, den: int)
    requires
        h > 0,
        a < b,
        den > 0,
        at_or_below_in(h, a, num, den),
    ensures
        at_or_below_in(h, b, num, den),
        2 * num < (units_in(h, b) + units_in(h, b + 1)) * den,
{
    lemma_units_increasing_in(h, a, b);
    lemma_units_increasing_in(h, a + 1, b + 1);
    let lo = units_in(h, a) + units_in(h, a + 1);
    let hi = units_in(h, b) + units_in(h, b + 1);
    assert(lo * den < hi * den) by (nonlinear_arith)
        requires
            lo < hi,
            den > 0,
    ;
}

/// There is one nearest magnitude at most.
pub proof fn lemma_nearest_unique_in(h: nat, top: nat, r1: nat, r2: nat, num: int, den: int)
    requires
        h > 0,
        den > 0,
        nearest_in(h, top, r1, num, den),
        nearest_in(h, top, r2, num, den),
    ensures
        r1 == r2,
{
    if r1 < r2 {
        if r1 < r2 - 1 {
            lemma_at_or_below_rises_in(h, r1, (r2 - 1) as nat, num, den);
        }
    } else if r2 < r1 {
        if r2 < r1 - 1 {
            lemma_at_or_below_rises_in(h, r2, (r1 - 1) as nat, num, den);
        }
    }
}

/// The least magnitude from `from` on that the exact number lies at or below
/// the halfway point of; the infinity where there is none.
pub open spec fn least_at_or_below(h: nat, top: nat, from: nat, num: int, den: int) -> nat
    decreases top - from,
{
    if from >= top {
        top
    } else if at_or_below_in(h, from, num, den) {
        from
    } else {
        least_at_or_below(h, top, from + 1, num, den)
    }
}

/// Every exact number has a nearest magnitude.
pub proof fn lemma_nearest_exists_in(h: nat, top: nat, from: nat, num: int, den: int)
    requires
        from <= top,
        from > 0 ==> !at_or_below_in(h, (from - 1) as nat, num, den),
    ensures
        nearest_in(h, top, least_at_or_below(h, top, from, num, den), num, den),
    decreases top - from,
{
    if from < top && !at_or_below_in(h, from, num, den) {
        lemma_nearest_exists_in(h, top, from + 1, num, den);
    }
}

/// A lesser exact number does not round to a greater magnitude.
pub proof fn lemma_nearest_monotone_in(
    h: nat,
    top: nat,
    r1: nat,
    r2: nat,
    num1: int,
    num2: int,
    den: int,
)
    requires
        h > 0,
        den > 0,
        num1 <= num2,
        nearest_in(h, top, r1, num1, den),
        nearest_in(h, top, r2, num2, den),
    ensures
        r1 <= r2,
{
    if r2 < r1 {
        if r2 < r1 - 1 {
            lemma_at_or_below_rises_in(h, r2, (r1 - 1) as nat, num2, den);
        }
    }
}

} // verus!
