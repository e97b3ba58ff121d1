//! From a decimal number to the nearest binary floating-point number: the
//! digits `d` and the power of ten `x` of the exact number `d * 10^x` go in,
//! the magnitude of the nearest number of the format comes out, ties to even.

use crate::big::{big_value, compare, lemma_weight_step, mul_add, weight};
use crate::format::{
    at_or_below_in, exp_in, lemma_nearest_unique_in, lemma_units_increasing_in,
    lemma_units_step_in, nearest_in, sig_in, units_in,
};
use crate::number::{digits_value, is_digit};
use crate::rounding::{relation, Relation};
use vstd::arithmetic::power2::{
    lemma2_to64, lemma_pow2_adds, lemma_pow2_pos, lemma_pow2_strictly_increases,
    lemma_pow2_unfold, pow2,
};
use vstd::prelude::*;

verus! {

/// A binary floating-point format: the hidden bit of its significand, the
/// magnitude of its infinity, and the binary exponent of its unit, the
/// smallest positive number, below zero.
#[derive(Clone, Copy, Debug, PartialEq, Eq, Structural)]
pub struct Format {
    pub hidden: u64,
    pub top: u64,
    pub unit: u32,
}

/// Powers of ten from which on every decimal number other than zero is out
/// of the range of the formats.
pub const FAR: i128 = 400;

/// 10^k.
pub open spec fn pow10(k: nat) -> nat
    decreases k,
{
    if k == 0 {
        1
    } else {
        10 * pow10((k - 1) as nat)
    }
}

/// 5^k.
pub open spec fn pow5(k: nat) -> nat
    decreases k,
{
    if k == 0 {
        1
    } else {
        5 * pow5((k - 1) as nat)
    }
}

/// The numerator of `d * 10^x` in units of 2^-unit.
pub open spec fn decimal_num(d: nat, x: int, unit: nat) -> int {
    if x >= 0 {
        (d * pow10(x as nat) * pow2(unit)) as int
    } else {
        (d * pow2(unit)) as int
    }
}

/// The denominator of `d * 10^x`.
pub open spec fn decimal_den(x: int) -> int {
    if x >= 0 {
        1
    } else {
        pow10((-x) as nat) as int
    }
}

impl Format {
    /// The format is one that the conversion can work with: its significand
    /// has 53 bits at most, its exponent field 11 bits at most, and what lies
    /// 400 powers of ten off is out of its range.
    pub open spec fn well_formed(self) -> bool {
        &&& 0 < self.hidden <= 0x10_0000_0000_0000
        &&& self.hidden <= self.top < 0x8000_0000_0000_0000
        &&& self.top + self.hidden <= 0x8000_0000_0000_0000
        &&& self.top / self.hidden <= 2047
        &&& self.unit <= 1100
        &&& units_in(self.hidden as nat, self.top as nat) <= pow2((self.unit + 1100) as nat)
    }

    /// The magnitude nearest to `d * 10^x`.
    pub open spec fn rounded(self, d: nat, x: int) -> nat {
        choose|r: nat|
            nearest_in(
                self.hidden as nat,
                self.top as nat,
                r,
                decimal_num(d, x, self.unit as nat),
                decimal_den(x),
            )
    }
}

/// The format binary32.
pub fn binary32() -> (f: Format)
    ensures
        f.well_formed(),
        f == (Format { hidden: 0x80_0000, top: 0x7F80_0000, unit: 149 }),
{
    proof {
        lemma2_to64();
        lemma_pow2_adds(23, 254);
        lemma_pow2_strictly_increases(277, 1249);
        assert(0x7F80_0000nat % 0x80_0000nat == 0);
        assert(0x7F80_0000nat / 0x80_0000nat == 255);
    }
    Format { hidden: 0x80_0000, top: 0x7F80_0000, unit: 149 }
}

/// The format binary64.
pub fn binary64() -> (f: Format)
    ensures
        f.well_formed(),
        f == (Format { hidden: 0x10_0000_0000_0000, top: 0x7FF0_0000_0000_0000, unit: 1074 }),
{
    proof {
        lemma2_to64();
        vstd::arithmetic::power2::lemma2_to64_rest();
        lemma_pow2_adds(52, 2046);
        lemma_pow2_strictly_increases(2098, 2174);
        assert(0x7FF0_0000_0000_0000nat % 0x10_0000_0000_0000nat == 0);
        assert(0x7FF0_0000_0000_0000nat / 0x10_0000_0000_0000nat == 2047);
    }
    Format { hidden: 0x10_0000_0000_0000, top: 0x7FF0_0000_0000_0000, unit: 1074 }
}

/// Ten is five times two, to every power.
pub proof fn lemma_pow10_split(k: nat)
    ensures
        pow10(k) == pow5(k) * pow2(k),
        pow10(k) > 0,
        pow5(k) > 0,
    decreases k,
{
    lemma2_to64();
    if k > 0 {
        lemma_pow10_split((k - 1) as nat);
        lemma_pow2_unfold(k);
        let a = pow5((k - 1) as nat) as int;
        let b = pow2((k - 1) as nat) as int;
        assert(10 * (a * b) == (5 * a) * (2 * b)) by (nonlinear_arith);
    }
}

/// A power of ten is at least the power of eight.
pub proof fn lemma_pow10_above(k: nat)
    ensures
        pow10(k) >= pow2(3 * k),
    decreases k,
{
    lemma2_to64();
    if k > 0 {
        lemma_pow10_above((k - 1) as nat);
        lemma_pow2_adds(3, 3 * (k - 1) as nat);
        assert(3 * k == 3 + 3 * (k - 1));
    }
}

/// Powers of ten multiply as their exponents add.
pub proof fn lemma_pow10_adds(a: nat, b: nat)
    ensures
        pow10(a + b) == pow10(a) * pow10(b),
    decreases a,
{
    if a > 0 {
        lemma_pow10_adds((a - 1) as nat, b);
        assert(a + b - 1 == (a - 1) + b);
        assert(10 * (pow10((a - 1) as nat) * pow10(b)) == (10 * pow10((a - 1) as nat)) * pow10(b))
            by (nonlinear_arith);
    } else {
        assert(pow10(0) == 1);
        assert(pow10(0) * pow10(b) == pow10(b));
    }
}

/// A run of `n` digits writes a number below 10^n.
pub proof fn lemma_digits_below(s: Seq<char>)
    requires
        forall|i: int| 0 <= i < s.len() ==> is_digit(#[trigger] s[i]),
    ensures
        digits_value(s) < pow10(s.len()),
    decreases s.len(),
{
    if s.len() > 0 {
        assert(forall|i: int|
            0 <= i < s.drop_last().len() ==> is_digit(#[trigger] s.drop_last()[i])) by {
            assert forall|i: int| 0 <= i < s.drop_last().len() implies is_digit(
                #[trigger] s.drop_last()[i],
            ) by {
                assert(s.drop_last()[i] == s[i]);
            }
        }
        lemma_digits_below(s.drop_last());
        assert(is_digit(s[s.len() - 1]));
    }
}

/// Multiplies a number by 5^k.
pub fn times_five(x: Vec<u64>, k: u128) -> (r: Vec<u64>)
    ensures
        big_value(r@) == big_value(x@) * pow5(k as nat),
{
    let mut out = x;
    let mut i: u128 = 0;
    proof {
        assert(pow5(0) == 1);
        assert(big_value(x@) * pow5(0) == big_value(x@));
    }
    while i < k
        invariant
            0 <= i <= k,
            big_value(out@) == big_value(x@) * pow5(i as nat),
        decreases k - i,
    {
        let ghost before = big_value(out@) as int;
        out = mul_add(&out, 5, 0);
        proof {
            let v = big_value(x@) as int;
            let p = pow5(i as nat) as int;
            assert((v * p) * 5 == v * (5 * p)) by (nonlinear_arith);
        }
        i = i + 1;
    }
    out
}

/// Zero limbs below a number multiply it by the weight of their place.
pub proof fn lemma_limbs_shifted(zeros: Seq<u64>, x: Seq<u64>)
    requires
        forall|i: int| 0 <= i < zeros.len() ==> zeros[i] == 0,
    ensures
        big_value(zeros + x) == big_value(x) * weight(zeros.len()),
    decreases x.len(),
{
    if x.len() == 0 {
        assert(zeros + x =~= zeros);
        lemma_zero_limbs(zeros);
        assert(big_value(x) * weight(zeros.len()) == 0) by (nonlinear_arith)
            requires
                big_value(x) == 0,
        ;
    } else {
        lemma_limbs_shifted(zeros, x.drop_last());
        assert((zeros + x).drop_last() =~= zeros + x.drop_last());
        assert((zeros + x).last() == x.last());
        let n = (x.len() - 1) as nat;
        let q = zeros.len();
        lemma_pow2_adds(64 * q, 64 * n);
        assert(64 * (q + n) == 64 * q + 64 * n);
        let low = big_value(x.drop_last()) as int;
        let top = x.last() as int;
        let wq = weight(q) as int;
        let wn = weight(n) as int;
        assert(low * wq + top * (wq * wn) == (low + top * wn) * wq) by (nonlinear_arith);
    }
}

/// Zero limbs stand for zero.
pub proof fn lemma_zero_limbs(zeros: Seq<u64>)
    requires
        forall|i: int| 0 <= i < zeros.len() ==> zeros[i] == 0,
    ensures
        big_value(zeros) == 0,
    decreases zeros.len(),
{
    if zeros.len() > 0 {
        lemma_zero_limbs(zeros.drop_last());
        assert(0 * weight((zeros.len() - 1) as nat) == 0);
    }
}

/// Multiplies a number by 2^s.
pub fn shifted(x: &Vec<u64>, s: u128) -> (r: Vec<u64>)
    ensures
        big_value(r@) == big_value(x@) * pow2(s as nat),
{
    let whole: u128 = s / 64;
    let rest: u32 = (s % 64) as u32;
    let mut out: Vec<u64> = Vec::new();
    let mut i: u128 = 0;
    while i < whole
        invariant
            0 <= i <= whole,
            out@.len() == i,
            forall|j: int| 0 <= j < out@.len() ==> out@[j] == 0,
        decreases whole - i,
    {
        out.push(0);
        i = i + 1;
    }
    let ghost zeros = out@;
    let mut j: usize = 0;
    while j < x.len()
        invariant
            0 <= j <= x.len(),
            out@ == zeros + x@.take(j as int),
        decreases x.len() - j,
    {
        out.push(x[j]);
        proof {
            assert(out@ =~= zeros + x@.take(j + 1));
        }
        j = j + 1;
    }
    proof {
        assert(x@.take(x@.len() as int) =~= x@);
        lemma_limbs_shifted(zeros, x@);
        lemma2_to64();
        vstd::arithmetic::power2::lemma2_to64_rest();
        lemma_pow2_strictly_increases(rest as nat, 64);
        vstd::bits::lemma_u64_shl_is_mul(1, rest as u64);
        lemma_pow2_adds(64 * whole as nat, rest as nat);
        assert(s == 64 * whole + rest);
    }
    let factor: u64 = 1u64 << rest;
    let r = mul_add(&out, factor, 0);
    proof {
        let v = big_value(x@) as int;
        let w = weight(whole as nat) as int;
        let p = pow2(rest as nat) as int;
        assert((v * w) * p == v * (w * p)) by (nonlinear_arith);
    }
    r
}

/// The halfway test in scaled terms: `left * 2^sl` lies at or below
/// `(2 sig + 1) * 2^exp * five * 2^b`, a tie counting where `m` is even.
pub open spec fn below_scaled(h: nat, m: nat, left: nat, sl: nat, five: nat, b: nat) -> bool {
    let lhs = left * pow2(sl);
    let rhs = (2 * sig_in(h, m) + 1) * five * pow2(exp_in(h, m) + b);
    lhs < rhs || (lhs == rhs && m % 2 == 0)
}

/// The scaled halfway test is the halfway test of the exact number.
pub proof fn lemma_below_scaled(
    h: nat,
    m: nat,
    left: nat,
    sl: nat,
    five: nat,
    b: nat,
    num: int,
    den: int,
)
    requires
        h > 0,
        2 * num == left * pow2(sl),
        den == five * pow2(b),
    ensures
        below_scaled(h, m, left, sl, five, b) == at_or_below_in(h, m, num, den),
{
    lemma_units_step_in(h, m);
    let e = exp_in(h, m);
    lemma_pow2_adds(e, b);
    let s = (2 * sig_in(h, m) + 1) as int;
    let pe = pow2(e) as int;
    let pb = pow2(b) as int;
    assert((s * pe) * (five * pb) == s * five * (pe * pb)) by (nonlinear_arith);
}

/// Tells whether the exact number lies at or below the point halfway between
/// the values of `m` and `m + 1`, in scaled terms.
fn below_halfway_big(fmt: &Format, m: u64, left: &Vec<u64>, sl: u128, five: &Vec<u64>, b: u128) -> (r:
    bool)
    requires
        fmt.well_formed(),
        m < fmt.top,
        b <= 0x1_0000_0000_0000_0000_0000,
    ensures
        r == below_scaled(
            fmt.hidden as nat,
            m as nat,
            big_value(left@),
            sl as nat,
            big_value(five@),
            b as nat,
        ),
{
    let h = fmt.hidden;
    proof {
        vstd::arithmetic::div_mod::lemma_div_is_ordered(m as int, fmt.top as int, h as int);
        if m >= h {
            vstd::arithmetic::div_mod::lemma_div_is_ordered(h as int, m as int, h as int);
            vstd::arithmetic::div_mod::lemma_div_basics(h as int);
        }
    }
    let (sig, exp): (u64, u64) = if m < h {
        (m, 0)
    } else {
        (h + m % h, m / h - 1)
    };
    let q = mul_add(five, 2 * sig + 1, 0);
    let sr: u128 = (exp as u128) + b;
    let ghost lv = big_value(left@) as int;
    let ghost qv = big_value(q@) as int;
    proof {
        let s = (2 * sig + 1) as int;
        let f = big_value(five@) as int;
        assert(s * f == f * s) by (nonlinear_arith);
    }
    let rel = if sl >= sr {
        let l2 = shifted(left, sl - sr);
        proof {
            let c = pow2(sr as nat) as int;
            let d = pow2((sl - sr) as nat) as int;
            lemma_pow2_pos(sr as nat);
            lemma_pow2_adds((sl - sr) as nat, sr as nat);
            assert(lv * (d * c) == (lv * d) * c) by (nonlinear_arith);
            assert(relation((lv * d) * c, qv * c) == relation(lv * d, qv)) by (nonlinear_arith)
                requires
                    c > 0,
            ;
        }
        compare(&l2, &q)
    } else {
        let q2 = shifted(&q, sr - sl);
        proof {
            let c = pow2(sl as nat) as int;
            let d = pow2((sr - sl) as nat) as int;
            lemma_pow2_pos(sl as nat);
            lemma_pow2_adds((sr - sl) as nat, sl as nat);
            assert(qv * (d * c) == (qv * d) * c) by (nonlinear_arith);
            assert(relation(lv * c, (qv * d) * c) == relation(lv, qv * d)) by (nonlinear_arith)
                requires
                    c > 0,
            ;
        }
        compare(left, &q2)
    };
    match rel {
        Relation::Less => true,
        Relation::Equal => m % 2 == 0,
        Relation::Greater => false,
    }
}

/// Finds the magnitude nearest to the exact number, in scaled terms.
fn search(fmt: &Format, left: &Vec<u64>, sl: u128, five: &Vec<u64>, b: u128) -> (r: u64)
    requires
        fmt.well_formed(),
        b <= 0x1_0000_0000_0000_0000_0000,
    ensures
        r <= fmt.top,
        r > 0 ==> !below_scaled(
            fmt.hidden as nat,
            (r - 1) as nat,
            big_value(left@),
            sl as nat,
            big_value(five@),
            b as nat,
        ),
        r < fmt.top ==> below_scaled(
            fmt.hidden as nat,
            r as nat,
            big_value(left@),
            sl as nat,
            big_value(five@),
            b as nat,
        ),
{
    let mut lo: u64 = 0;
    let mut hi: u64 = fmt.top;
    while lo < hi
        invariant
            lo <= hi <= fmt.top,
            fmt.well_formed(),
            b <= 0x1_0000_0000_0000_0000_0000,
            lo > 0 ==> !below_scaled(
                fmt.hidden as nat,
                (lo - 1) as nat,
                big_value(left@),
                sl as nat,
                big_value(five@),
                b as nat,
            ),
            hi < fmt.top ==> below_scaled(
                fmt.hidden as nat,
                hi as nat,
                big_value(left@),
                sl as nat,
                big_value(five@),
                b as nat,
            ),
        decreases hi - lo,
    {
        let mid: u64 = lo + (hi - lo) / 2;
        if below_halfway_big(fmt, mid, left, sl, five, b) {
            hi = mid;
        } else {
            lo = mid + 1;
        }
    }
    lo
}

/// A magnitude that is nearest is the one that `rounded` names.
pub proof fn lemma_rounded_is(fmt: Format, r: nat, d: nat, x: int)
    requires
        fmt.hidden > 0,
        nearest_in(
            fmt.hidden as nat,
            fmt.top as nat,
            r,
            decimal_num(d, x, fmt.unit as nat),
            decimal_den(x),
        ),
    ensures
        fmt.rounded(d, x) == r,
{
    if x < 0 {
        lemma_pow10_split((-x) as nat);
    }
    lemma_nearest_unique_in(
        fmt.hidden as nat,
        fmt.top as nat,
        r,
        fmt.rounded(d, x),
        decimal_num(d, x, fmt.unit as nat),
        decimal_den(x),
    );
}

/// Reads a run of digits as a number.
fn digits_to_big(digits: &Vec<char>) -> (r: Vec<u64>)
    requires
        forall|i: int| 0 <= i < digits@.len() ==> is_digit(#[trigger] digits@[i]),
    ensures
        big_value(r@) == digits_value(digits@),
{
    let mut acc: Vec<u64> = Vec::new();
    let mut i: usize = 0;
    proof {
        assert(digits@.take(0) =~= Seq::<char>::empty());
    }
    while i < digits.len()
        invariant
            0 <= i <= digits.len(),
            forall|k: int| 0 <= k < digits@.len() ==> is_digit(#[trigger] digits@[k]),
            big_value(acc@) == digits_value(digits@.take(i as int)),
        decreases digits.len() - i,
    {
        let c = digits[i];
        assert(is_digit(digits@[i as int]));
        let d: u64 = (c as u32 - 0x30) as u64;
        proof {
            assert(digits@.take(i + 1).drop_last() =~= digits@.take(i as int));
            assert(digits@.take(i + 1).last() == c);
        }
        acc = mul_add(&acc, 10, d);
        i = i + 1;
    }
    proof {
        assert(digits@.take(digits@.len() as int) =~= digits@);
    }
    acc
}

/// The number one.
fn big_one() -> (r: Vec<u64>)
    ensures
        big_value(r@) == 1,
{
    let mut one: Vec<u64> = Vec::new();
    one.push(1);
    proof {
        assert(one@.drop_last() =~= Seq::<u64>::empty());
        assert(one@.last() == 1);
        assert(big_value(Seq::<u64>::empty()) == 0);
        lemma_weight_step(0);
        assert(1 * weight(0) == 1);
    }
    one
}

/// Rounds `left * 2^up / 2^down` units to the nearest magnitude of the
/// format, ties to even.
pub fn round_dyadic(fmt: Format, left: &Vec<u64>, up: u128, down: u128) -> (r: u64)
    requires
        fmt.well_formed(),
        up <= 0x1_0000_0000_0000_0000_0000,
        down <= 0x1_0000_0000_0000_0000_0000,
    ensures
        r <= fmt.top,
        nearest_in(
            fmt.hidden as nat,
            fmt.top as nat,
            r as nat,
            (big_value(left@) * pow2(up as nat)) as int,
            pow2(down as nat) as int,
        ),
{
    let one = big_one();
    let r = search(&fmt, left, up + 1, &one, down);
    proof {
        let h = fmt.hidden as nat;
        let lv = big_value(left@);
        let num = (lv * pow2(up as nat)) as int;
        let den = pow2(down as nat) as int;
        lemma_pow2_unfold((up + 1) as nat);
        assert(lv * (2 * pow2(up as nat)) == 2 * (lv * pow2(up as nat))) by (nonlinear_arith);
        assert(den == 1 * pow2(down as nat));
        if r > 0 {
            lemma_below_scaled(h, (r - 1) as nat, lv, (up + 1) as nat, 1, down as nat, num, den);
        }
        if r < fmt.top {
            lemma_below_scaled(h, r as nat, lv, (up + 1) as nat, 1, down as nat, num, den);
        }
    }
    r
}

/// Zero rounds to zero.
pub proof fn lemma_rounded_zero(fmt: Format, x: int)
    requires
        fmt.well_formed(),
    ensures
        fmt.rounded(0, x) == 0,
{
    let h = fmt.hidden as nat;
    let unit = fmt.unit as nat;
    let num = decimal_num(0, x, unit);
    let den = decimal_den(x);
    lemma_units_step_in(h, 0);
    lemma_pow2_pos(exp_in(h, 0));
    if x < 0 {
        lemma_pow10_split((-x) as nat);
    }
    assert(num == 0) by (nonlinear_arith)
        requires
            num == 0 * pow10(x as nat) * pow2(unit) || num == 0 * pow2(unit),
    ;
    let mid = (units_in(h, 0) + units_in(h, 1)) as int;
    assert(mid * den > 0) by (nonlinear_arith)
        requires
            mid > 0,
            den > 0,
    ;
    lemma_rounded_is(fmt, 0, 0, x);
}

/// A number other than zero times 10^400 or more rounds to infinity.
pub proof fn lemma_rounded_far_above(fmt: Format, d: nat, x: int)
    requires
        fmt.well_formed(),
        d >= 1,
        x >= FAR,
    ensures
        fmt.rounded(d, x) == fmt.top,
{
    let h = fmt.hidden as nat;
    let top = fmt.top as nat;
    let unit = fmt.unit as nat;
    let num = decimal_num(d, x, unit);
    let k = x as nat;
    lemma_pow2_pos(unit);
    lemma_pow10_above(k);
    lemma_pow2_adds(3 * k, unit);
    lemma_pow2_strictly_increases(unit + 1100, 3 * k + unit);
    lemma_units_increasing_in(h, (top - 1) as nat, top);
    let tens = pow10(k) as int;
    let pu = pow2(unit) as int;
    assert(d * tens * pu >= pow2(3 * k) * pu) by (nonlinear_arith)
        requires
            d >= 1,
            tens >= pow2(3 * k),
            pu > 0,
    ;
    let below = units_in(h, (top - 1) as nat) as int;
    let at = units_in(h, top) as int;
    assert(2 * num > (below + at) * 1);
    lemma_rounded_is(fmt, top, d, x);
}

/// A number of `n` digits divided by 10^(n + 400) or more rounds to zero.
pub proof fn lemma_rounded_far_below(fmt: Format, d: nat, n: nat, x: int)
    requires
        fmt.well_formed(),
        d < pow10(n),
        x < 0,
        -x - n >= FAR,
    ensures
        fmt.rounded(d, x) == 0,
{
    let h = fmt.hidden as nat;
    let unit = fmt.unit as nat;
    let k = (-x) as nat;
    lemma2_to64();
    lemma_pow2_pos(unit);
    lemma_pow10_adds(n, (k - n) as nat);
    lemma_pow10_above((k - n) as nat);
    lemma_pow10_split(n);
    lemma_pow2_strictly_increases(unit + 1, 3 * (k - n) as nat);
    lemma_pow2_unfold(unit + 1);
    let pn = pow10(n) as int;
    let pr = pow10((k - n) as nat) as int;
    let pu = pow2(unit) as int;
    assert(2 * (d * pu) < pn * pr) by (nonlinear_arith)
        requires
            0 <= d < pn,
            pr > 2 * pu,
            pu > 0,
    ;
    lemma_units_step_in(h, 0);
    assert(units_in(h, 0) + units_in(h, 1) == 1) by {
        assert(pow2(0) == 1);
        assert(units_in(h, 0) == 0);
    }
    lemma_rounded_is(fmt, 0, d, x);
}

/// Rounds the decimal number `d * 10^x`, `d` written by the digits, to the
/// nearest magnitude of the format, ties to even.
pub fn to_magnitude(fmt: Format, digits: &Vec<char>, x: i128) -> (r: u64)
    requires
        fmt.well_formed(),
        forall|i: int| 0 <= i < digits@.len() ==> is_digit(#[trigger] digits@[i]),
        -0x1_0000_0000_0000_0000_0000 <= x <= 0x1_0000_0000_0000_0000_0000,
    ensures
        r == fmt.rounded(digits_value(digits@), x as int),
        r <= fmt.top,
{
    let ghost h = fmt.hidden as nat;
    let ghost unit = fmt.unit as nat;
    let ghost d = digits_value(digits@);
    let ghost num = decimal_num(d, x as int, unit);
    let ghost den = decimal_den(x as int);
    let big = digits_to_big(digits);
    let none: Vec<u64> = Vec::new();
    match compare(&big, &none) {
        Relation::Equal => {
            proof {
                lemma_rounded_zero(fmt, x as int);
            }
            return 0;
        },
        _ => {},
    }
    assert(d >= 1);
    if x >= FAR {
        proof {
            lemma_rounded_far_above(fmt, d, x as int);
        }
        return fmt.top;
    }
    let len = digits.len() as i128;
    if x < 0 && -x - len >= FAR {
        proof {
            lemma_digits_below(digits@);
            lemma_rounded_far_below(fmt, d, digits@.len(), x as int);
        }
        return 0;
    }
    let (a, b): (u128, u128) = if x >= 0 {
        (x as u128, 0)
    } else {
        (0, (-x) as u128)
    };
    let left = times_five(big, a);
    let one = big_one();
    let five = times_five(one, b);
    let sl: u128 = a + (fmt.unit as u128) + 1;
    let r = search(&fmt, &left, sl, &five, b);
    proof {
        let lv = big_value(left@);
        let fv = big_value(five@);
        lemma2_to64();
        lemma_pow10_split(a as nat);
        lemma_pow10_split(b as nat);
        lemma_pow2_adds(a as nat, unit + 1);
        lemma_pow2_unfold(unit + 1);
        assert(pow5(0) == 1 && pow10(0) == 1);
        let fives = pow5(a as nat) as int;
        let twos = pow2(a as nat) as int;
        let pu = pow2(unit) as int;
        assert(2 * (d * (fives * twos) * pu) == (d * fives) * (twos * (2 * pu))) by (nonlinear_arith);
        assert(lv == d * fives);
        assert(pow2(sl as nat) == twos * (2 * pu)) by {
            assert(sl as nat == a as nat + (unit + 1));
        }
        assert(fv == 1 * pow5(b as nat));
        if x >= 0 {
            assert(a as nat == x as nat);
            assert(num == d * (fives * twos) * pu);
            assert(pow2(0) == 1);
            assert(den == fv * pow2(b as nat));
        } else {
            assert(fives == 1 && twos == 1) by {
                assert(a == 0);
            }
            assert(num == d * pu);
            assert(d * (1 * 1) * pu == d * pu) by (nonlinear_arith);
            assert(b as nat == (-x) as nat);
            assert(den == fv * pow2(b as nat));
        }
        assert(2 * num == lv * pow2(sl as nat));
        if r > 0 {
            lemma_below_scaled(h, (r - 1) as nat, lv, sl as nat, fv, b as nat, num, den);
        }
        if r < fmt.top {
            lemma_below_scaled(h, r as nat, lv, sl as nat, fv, b as nat, num, den);
        }
        lemma_rounded_is(fmt, r as nat, d, x as int);
    }
    r
}

} // verus!
