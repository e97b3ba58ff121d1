//! IEEE 754 binary64 numbers, held as their 64-bit patterns, and the
//! arithmetic on them that the frequency of a bin takes: turning a whole
//! number into a binary64 number, multiplying and adding, each rounded to the
//! nearest number, ties to even. Values are counted in units of 2^-1074.

use crate::big::{big_from, minus_small, mul_add};
use crate::decimal::{binary64, round_dyadic, shifted};
use crate::format::{
    exp_in, lemma_nearest_unique_in, lemma_units_increasing_in, nearest_in, sig_in, units_in,
};
use crate::measurement::{Measurement, MeasurementView};
use vstd::arithmetic::power2::{lemma2_to64, lemma_pow2_adds, lemma_pow2_pos, pow2};
use vstd::prelude::*;

verus! {

/// The sign bit of a pattern.
pub const SIGN: u64 = 0x8000_0000_0000_0000;

/// Positive infinity.
pub const INFINITE: u64 = 0x7FF0_0000_0000_0000;

/// The quiet not-a-number.
pub const QUIET_NAN: u64 = 0x7FF8_0000_0000_0000;

/// The hidden bit of a normal number's significand: 2^52.
pub const HIDDEN: u64 = 0x10_0000_0000_0000;

/// The pattern with its sign bit cleared.
pub open spec fn magnitude(bits: u64) -> nat {
    if bits >= SIGN {
        (bits - SIGN) as nat
    } else {
        bits as nat
    }
}

/// The sign bit is set.
pub open spec fn is_negative(bits: u64) -> bool {
    bits >= SIGN
}

/// The pattern is a not-a-number.
pub open spec fn is_nan(bits: u64) -> bool {
    magnitude(bits) > INFINITE
}

/// The pattern is one of the two infinities.
pub open spec fn is_infinite(bits: u64) -> bool {
    magnitude(bits) == INFINITE
}

/// The pattern is one of the two zeros.
pub open spec fn is_zero(bits: u64) -> bool {
    magnitude(bits) == 0
}

/// The value of a magnitude in units of 2^-1074.
pub open spec fn units(m: nat) -> nat {
    units_in(HIDDEN as nat, m)
}

/// The value of a finite pattern in units of 2^-1074, with its sign.
pub open spec fn signed_units(x: u64) -> int {
    if is_negative(x) {
        -(units(magnitude(x)) as int)
    } else {
        units(magnitude(x)) as int
    }
}

/// The magnitude `r` is the binary64 number nearest to `num / den` units.
pub open spec fn nearest(r: nat, num: int, den: int) -> bool {
    nearest_in(HIDDEN as nat, INFINITE as nat, r, num, den)
}

/// The nearest binary64 magnitude to `num / den` units.
pub open spec fn rounded(num: int, den: int) -> nat {
    choose|r: nat| nearest(r, num, den)
}

/// The pattern of a magnitude with a sign.
pub open spec fn with_sign(negative: bool, m: nat) -> u64 {
    if negative {
        (m + SIGN) as u64
    } else {
        m as u64
    }
}

/// The whole number `n` as a binary64 number: the nearest one.
pub open spec fn converted(n: u64) -> u64 {
    rounded((n * pow2(1074)) as int, 1) as u64
}

/// `a * b` in binary64: a not-a-number where an operand is one and for
/// infinity times zero; else the sign is negative where the signs of the
/// operands differ, and the magnitude is infinity where an operand is one,
/// zero where an operand is zero, and otherwise the exact product rounded to
/// the nearest number.
pub open spec fn product(a: u64, b: u64) -> u64 {
    let negative = is_negative(a) != is_negative(b);
    if is_nan(a) || is_nan(b) {
        QUIET_NAN
    } else if is_infinite(a) || is_infinite(b) {
        if is_zero(a) || is_zero(b) {
            QUIET_NAN
        } else {
            with_sign(negative, INFINITE as nat)
        }
    } else if is_zero(a) || is_zero(b) {
        with_sign(negative, 0)
    } else {
        with_sign(
            negative,
            rounded((units(magnitude(a)) * units(magnitude(b))) as int, pow2(1074) as int),
        )
    }
}

/// `a + b` in binary64: a not-a-number where an operand is one or where two
/// unlike infinities meet, the infinity where one operand is one, else the
/// exact sum rounded to the nearest number. A sum of exactly zero is
/// positive zero, but for two negative zeros.
pub open spec fn sum(a: u64, b: u64) -> u64 {
    if is_nan(a) || is_nan(b) {
        QUIET_NAN
    } else if is_infinite(a) {
        if is_infinite(b) && is_negative(a) != is_negative(b) {
            QUIET_NAN
        } else {
            a
        }
    } else if is_infinite(b) {
        b
    } else {
        let x = signed_units(a) + signed_units(b);
        if x == 0 {
            with_sign(is_negative(a) && is_negative(b), 0)
        } else if x > 0 {
            with_sign(false, rounded(x, 1))
        } else {
            with_sign(true, rounded(-x, 1))
        }
    }
}

/// The frequency of the `i`-th bin of a row: `i * freq_step + freq_low`, all
/// in binary64.
pub open spec fn bin_frequency(m: MeasurementView, i: nat) -> u64 {
    sum(product(converted(i as u64), m.freq_step), converted(m.freq_low))
}

/// A magnitude that is nearest is the one that `rounded` names.
pub proof fn lemma_rounded_is(r: nat, num: int, den: int)
    requires
        den > 0,
        nearest(r, num, den),
    ensures
        rounded(num, den) == r,
{
    lemma_nearest_unique_in(HIDDEN as nat, INFINITE as nat, r, rounded(num, den), num, den);
}

/// Clears the sign bit.
fn abs_bits(bits: u64) -> (r: u64)
    ensures
        r == magnitude(bits),
{
    if bits >= SIGN {
        bits - SIGN
    } else {
        bits
    }
}

/// Puts a sign on a magnitude.
fn signed(negative: bool, m: u64) -> (r: u64)
    requires
        m <= INFINITE,
    ensures
        r == with_sign(negative, m as nat),
{
    if negative {
        m + SIGN
    } else {
        m
    }
}

/// Splits a magnitude into its significand and its exponent.
fn split(m: u64) -> (r: (u64, u64))
    requires
        m <= INFINITE,
    ensures
        r.0 == sig_in(HIDDEN as nat, m as nat),
        r.1 == exp_in(HIDDEN as nat, m as nat),
        r.0 < 0x20_0000_0000_0000,
        r.1 <= 2046,
        units(m as nat) == r.0 * pow2(r.1 as nat),
{
    if m < HIDDEN {
        (m, 0)
    } else {
        (HIDDEN + m % HIDDEN, m / HIDDEN - 1)
    }
}

/// Turns a whole number into the nearest binary64 number.
pub fn from_integer(n: u64) -> (r: u64)
    ensures
        r == converted(n),
        r <= INFINITE,
{
    let left = big_from(n);
    let r = round_dyadic(binary64(), &left, 1074, 0);
    proof {
        lemma2_to64();
        lemma_rounded_is(r as nat, (n * pow2(1074)) as int, 1);
    }
    r
}

/// Multiplies in binary64.
pub fn times(a: u64, b: u64) -> (r: u64)
    ensures
        r == product(a, b),
{
    let ma = abs_bits(a);
    let mb = abs_bits(b);
    if ma > INFINITE || mb > INFINITE {
        return QUIET_NAN;
    }
    let negative = (a >= SIGN) != (b >= SIGN);
    if ma == INFINITE || mb == INFINITE {
        return if ma == 0 || mb == 0 {
            QUIET_NAN
        } else {
            signed(negative, INFINITE)
        };
    }
    if ma == 0 || mb == 0 {
        return signed(negative, 0);
    }
    let (sig_a, exp_a) = split(ma);
    let (sig_b, exp_b) = split(mb);
    let left = mul_add(&big_from(sig_a), sig_b, 0);
    let r = round_dyadic(binary64(), &left, (exp_a + exp_b) as u128, 1074);
    proof {
        lemma_pow2_adds(exp_a as nat, exp_b as nat);
        lemma_pow2_pos(1074);
        let pa = pow2(exp_a as nat) as int;
        let pb = pow2(exp_b as nat) as int;
        assert((sig_a * pa) * (sig_b * pb) == (sig_a * sig_b) * (pa * pb)) by (nonlinear_arith);
        lemma_rounded_is(
            r as nat,
            (units(ma as nat) * units(mb as nat)) as int,
            pow2(1074) as int,
        );
    }
    signed(negative, r)
}

/// The sum of the values of two finite magnitudes, rounded.
fn add_magnitudes(ma: u64, mb: u64) -> (r: u64)
    requires
        mb <= ma < INFINITE,
        ma > 0,
    ensures
        r <= INFINITE,
        r == rounded((units(ma as nat) + units(mb as nat)) as int, 1),
        units(ma as nat) + units(mb as nat) > 0,
{
    let (sig_hi, exp_hi) = split(ma);
    let (sig_lo, exp_lo) = split(mb);
    proof {
        lemma_units_increasing_in(HIDDEN as nat, 0, ma as nat);
        if mb >= HIDDEN {
            vstd::arithmetic::div_mod::lemma_div_is_ordered(mb as int, ma as int, HIDDEN as int);
        }
        lemma_pow2_adds((exp_hi - exp_lo) as nat, exp_lo as nat);
        lemma2_to64();
    }
    let wide = shifted(&big_from(sig_hi), (exp_hi - exp_lo) as u128);
    let left = mul_add(&wide, 1, sig_lo);
    let r = round_dyadic(binary64(), &left, exp_lo as u128, 0);
    proof {
        let d = pow2((exp_hi - exp_lo) as nat) as int;
        let p = pow2(exp_lo as nat) as int;
        assert((sig_hi * d * 1 + sig_lo) * p == sig_hi * (d * p) + sig_lo * p)
            by (nonlinear_arith);
        lemma_rounded_is(r as nat, (units(ma as nat) + units(mb as nat)) as int, 1);
    }
    r
}

/// The difference of the values of two finite magnitudes, the first the
/// greater, rounded.
fn sub_magnitudes(ma: u64, mb: u64) -> (r: u64)
    requires
        mb < ma < INFINITE,
    ensures
        r <= INFINITE,
        units(ma as nat) > units(mb as nat),
        r == rounded(units(ma as nat) - units(mb as nat), 1),
{
    let (sig_hi, exp_hi) = split(ma);
    let (sig_lo, exp_lo) = split(mb);
    proof {
        lemma_units_increasing_in(HIDDEN as nat, mb as nat, ma as nat);
        if mb >= HIDDEN {
            vstd::arithmetic::div_mod::lemma_div_is_ordered(mb as int, ma as int, HIDDEN as int);
        }
        lemma_pow2_adds((exp_hi - exp_lo) as nat, exp_lo as nat);
        lemma_pow2_pos(exp_lo as nat);
        lemma2_to64();
        let d = pow2((exp_hi - exp_lo) as nat) as int;
        let p = pow2(exp_lo as nat) as int;
        assert(sig_hi * d > sig_lo) by (nonlinear_arith)
            requires
                sig_hi * (d * p) > sig_lo * p,
                p > 0,
        ;
    }
    let wide = shifted(&big_from(sig_hi), (exp_hi - exp_lo) as u128);
    let left = minus_small(&wide, sig_lo);
    let r = round_dyadic(binary64(), &left, exp_lo as u128, 0);
    proof {
        let d = pow2((exp_hi - exp_lo) as nat) as int;
        let p = pow2(exp_lo as nat) as int;
        assert((sig_hi * d - sig_lo) * p == sig_hi * (d * p) - sig_lo * p) by (nonlinear_arith);
        lemma_rounded_is(r as nat, units(ma as nat) - units(mb as nat), 1);
    }
    r
}

/// Adds in binary64.
pub fn plus(a: u64, b: u64) -> (r: u64)
    ensures
        r == sum(a, b),
{
    let ma = abs_bits(a);
    let mb = abs_bits(b);
    if ma > INFINITE || mb > INFINITE {
        return QUIET_NAN;
    }
    let sa = a >= SIGN;
    let sb = b >= SIGN;
    if ma == INFINITE {
        return if mb == INFINITE && sa != sb {
            QUIET_NAN
        } else {
            a
        };
    }
    if mb == INFINITE {
        return b;
    }
    if sa == sb {
        if ma == 0 && mb == 0 {
            proof {
                assert(units(0) == 0) by {
                    assert(sig_in(HIDDEN as nat, 0) == 0);
                    assert(0 * pow2(exp_in(HIDDEN as nat, 0)) == 0);
                }
            }
            return signed(sa, 0);
        }
        let r = if ma >= mb {
            add_magnitudes(ma, mb)
        } else {
            add_magnitudes(mb, ma)
        };
        signed(sa, r)
    } else if ma == mb {
        0
    } else if ma > mb {
        let r = sub_magnitudes(ma, mb);
        signed(sa, r)
    } else {
        let r = sub_magnitudes(mb, ma);
        signed(sb, r)
    }
}

impl Measurement {
    /// The amplitudes of the row, each with the frequency of its bin.
    pub fn get_values_with_freq(&self) -> (r: Vec<(u64, u32)>)
        ensures
            r@.len() == self.values@.len(),
            forall|i: int|
                0 <= i < r@.len() ==> #[trigger] r@[i] == (
                    bin_frequency(self@, i as nat),
                    self.values@[i],
                ),
    {
        let low = from_integer(self.freq_low);
        let mut out: Vec<(u64, u32)> = Vec::new();
        let mut i: usize = 0;
        while i < self.values.len()
            invariant
                0 <= i <= self.values.len(),
                low == converted(self.freq_low),
                out@.len() == i,
                forall|k: int|
                    0 <= k < i ==> #[trigger] out@[k] == (
                        bin_frequency(self@, k as nat),
                        self.values@[k],
                    ),
            decreases self.values.len() - i,
        {
            let freq = plus(times(from_integer(i as u64), self.freq_step), low);
            out.push((freq, self.values[i]));
            i = i + 1;
        }
        out
    }
}

} // verus!
