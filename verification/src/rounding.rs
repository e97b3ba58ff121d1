//! Rounding to binary32: the value that a bit pattern stands for, in units
//! of 2^-149, and the search for the pattern nearest to an exact number.

use crate::binary32::POS_INFINITY;
use crate::format::{
    at_or_below_in, exp_in, lemma_nearest_unique_in, lemma_units_increasing_in,
    lemma_units_step_in, nearest_in, sig_in, units_in,
};
use vstd::arithmetic::power2::{
    lemma2_to64, lemma_pow2_adds, lemma_pow2_pos, lemma_pow2_strictly_increases, pow2,
};
use vstd::prelude::*;

verus! {

/// The hidden bit of a normal number's significand: 2^23.
pub const HIDDEN: u32 = 0x80_0000;

/// How two numbers stand to each other.
#[derive(Clone, Copy, Debug, PartialEq, Eq, Structural)]
pub enum Relation {
    Less,
    Equal,
    Greater,
}

/// The significand of a magnitude, with the hidden bit where it is normal.
pub open spec fn sig_of(m: nat) -> nat {
    sig_in(HIDDEN as nat, m)
}

/// The binary exponent of a magnitude, counted so that the value is
/// `sig_of(m) * 2^exp_of(m)` units.
pub open spec fn exp_of(m: nat) -> nat {
    exp_in(HIDDEN as nat, m)
}

/// The value of a magnitude in units of 2^-149.
pub open spec fn units(m: nat) -> nat {
    units_in(HIDDEN as nat, m)
}

/// How `a` stands to `b`.
pub open spec fn relation(a: int, b: int) -> Relation {
    if a < b {
        Relation::Less
    } else if a == b {
        Relation::Equal
    } else {
        Relation::Greater
    }
}

/// The exact number `num / den` units lies at or below the point halfway
/// between the values of `m` and `m + 1`, and where it lies on that point,
/// `m` is even.
pub open spec fn at_or_below(m: nat, num: int, den: int) -> bool {
    at_or_below_in(HIDDEN as nat, m, num, den)
}

/// The magnitude `r` is the binary32 number nearest to `num / den` units,
/// the even one of two that are equally near; positive infinity stands for
/// what rounds to 2^128 or more.
pub open spec fn nearest(r: nat, num: int, den: int) -> bool {
    nearest_in(HIDDEN as nat, POS_INFINITY as nat, r, num, den)
}

/// The step from a magnitude to the next is one unit of its last place.
pub proof fn lemma_units_step(m: nat)
    ensures
        units(m + 1) == units(m) + pow2(exp_of(m)),
        units(m) + units(m + 1) == (2 * sig_of(m) + 1) * pow2(exp_of(m)),
{
    lemma_units_step_in(HIDDEN as nat, m);
}

/// A greater magnitude stands for a greater value.
pub proof fn lemma_units_increasing(a: nat, b: nat)
    requires
        a < b,
    ensures
        units(a) < units(b),
{
    lemma_units_increasing_in(HIDDEN as nat, a, b);
}

/// There is one nearest magnitude at most.
pub proof fn lemma_nearest_unique(r1: nat, r2: nat, num: int, den: int)
    requires
        den > 0,
        nearest(r1, num, den),
        nearest(r2, num, den),
    ensures
        r1 == r2,
{
    lemma_nearest_unique_in(HIDDEN as nat, POS_INFINITY as nat, r1, r2, num, den);
}

/// Compares `x * 2^k` with `y`.
pub fn compare_shifted(x: u64, k: u32, y: u64) -> (r: Relation)
    ensures
        r == relation(x * pow2(k as nat), y as int),
{
    proof {
        lemma_pow2_pos(k as nat);
    }
    if x == 0 {
        assert(x * pow2(k as nat) == 0);
        return if y == 0 {
            Relation::Equal
        } else {
            Relation::Less
        };
    }
    if k >= 64 {
        proof {
            lemma2_to64();
            if k > 64 {
                lemma_pow2_strictly_increases(64, k as nat);
            }
            assert(x * pow2(k as nat) > y) by (nonlinear_arith)
                requires
                    x >= 1,
                    pow2(k as nat) >= 0x1_0000_0000_0000_0000,
                    y < 0x1_0000_0000_0000_0000,
            ;
        }
        return Relation::Greater;
    }
    let whole: u64 = y >> k;
    proof {
        vstd::bits::lemma_u64_shr_is_div(y, k as u64);
        vstd::arithmetic::div_mod::lemma_fundamental_div_mod(y as int, pow2(k as nat) as int);
        let p = pow2(k as nat) as int;
        let rest = y as int % p;
        assert(y == p * whole + rest && 0 <= rest < p);
        assert(whole * p <= y) by (nonlinear_arith)
            requires
                y == p * whole + rest,
                0 <= rest,
        ;
        vstd::bits::lemma_u64_shl_is_mul(whole, k as u64);
    }
    let rest: u64 = y - (whole << k);
    proof {
        let p = pow2(k as nat) as int;
        assert(y == p * whole + rest && 0 <= rest < p);
        assert(x < whole ==> x * p < y) by (nonlinear_arith)
            requires
                y == p * whole + rest,
                0 <= rest,
                p > 0,
        ;
        assert(x > whole ==> x * p > y) by (nonlinear_arith)
            requires
                y == p * whole + rest,
                rest < p,
                p > 0,
        ;
        assert(x == whole ==> x * p == y - rest) by (nonlinear_arith)
            requires
                y == p * whole + rest,
        ;
    }
    if x < whole {
        Relation::Less
    } else if x > whole {
        Relation::Greater
    } else if rest == 0 {
        Relation::Equal
    } else {
        Relation::Less
    }
}

/// Compares `p * 2^pe` with `q * 2^qe`.
pub fn compare_scaled(p: u64, pe: u32, q: u64, qe: u32) -> (r: Relation)
    ensures
        r == relation(p * pow2(pe as nat), q * pow2(qe as nat)),
{
    if pe >= qe {
        let r = compare_shifted(p, pe - qe, q);
        proof {
            let c = pow2(qe as nat) as int;
            let d = pow2((pe - qe) as nat) as int;
            lemma_pow2_pos(qe as nat);
            lemma_pow2_adds((pe - qe) as nat, qe as nat);
            assert(p * (d * c) == (p * d) * c) by (nonlinear_arith);
            assert(relation((p * d) * c, q * c) == relation(p * d, q as int)) by (nonlinear_arith)
                requires
                    c > 0,
            ;
        }
        r
    } else {
        let r = compare_shifted(q, qe - pe, p);
        proof {
            let c = pow2(pe as nat) as int;
            let d = pow2((qe - pe) as nat) as int;
            lemma_pow2_pos(pe as nat);
            lemma_pow2_adds((qe - pe) as nat, pe as nat);
            assert(q * (d * c) == (q * d) * c) by (nonlinear_arith);
            assert(relation((q * d) * c, p * c) == relation(q * d, p as int)) by (nonlinear_arith)
                requires
                    c > 0,
            ;
        }
        match r {
            Relation::Less => Relation::Greater,
            Relation::Equal => Relation::Equal,
            Relation::Greater => Relation::Less,
        }
    }
}

/// Splits a magnitude into its significand and its exponent.
pub fn split(m: u32) -> (r: (u32, u32))
    requires
        m <= POS_INFINITY,
    ensures
        r.0 == sig_of(m as nat),
        r.1 == exp_of(m as nat),
        r.0 < 0x100_0000,
        r.1 <= 254,
{
    if m < HIDDEN {
        (m, 0)
    } else {
        (HIDDEN + m % HIDDEN, m / HIDDEN - 1)
    }
}

/// Tells whether `n * 2^ne / (d * 2^de)` units lies at or below the point
/// halfway between the values of `m` and `m + 1`, a point on it counting
/// where `m` is even.
fn below_halfway(m: u32, n: u64, ne: u32, d: u64, de: u32) -> (r: bool)
    requires
        m < POS_INFINITY,
        n < 0x4000_0000_0000_0000,
        0 < d < 0x100_0000,
        ne <= 1000,
        de <= 1000,
    ensures
        r == at_or_below(m as nat, n * pow2(ne as nat), d * pow2(de as nat)),
{
    let (sig, exp) = split(m);
    let twice: u64 = 2 * (sig as u64) + 1;
    assert(twice * d < 0x200_0000 * 0x100_0000) by (nonlinear_arith)
        requires
            twice < 0x200_0000,
            d < 0x100_0000,
    ;
    let mid: u64 = twice * d;
    proof {
        lemma_units_step(m as nat);
        let e = exp as nat;
        lemma_pow2_adds(e, de as nat);
        let a = (2 * sig + 1) as int;
        let pe = pow2(e) as int;
        let pd = pow2(de as nat) as int;
        assert((a * pe) * (d * pd) == (a * d) * (pe * pd)) by (nonlinear_arith);
        assert(2 * (n * pow2(ne as nat)) == (2 * n) * pow2(ne as nat)) by (nonlinear_arith);
    }
    match compare_scaled(2 * n, ne, mid, exp + de) {
        Relation::Less => true,
        Relation::Equal => m % 2 == 0,
        Relation::Greater => false,
    }
}

/// Rounds `n * 2^ne / (d * 2^de)` units to the nearest binary32 magnitude,
/// ties to even.
pub fn round_scaled(n: u64, ne: u32, d: u64, de: u32) -> (r: u32)
    requires
        n < 0x4000_0000_0000_0000,
        0 < d < 0x100_0000,
        ne <= 1000,
        de <= 1000,
    ensures
        nearest(r as nat, n * pow2(ne as nat), d * pow2(de as nat)),
{
    let ghost num = n * pow2(ne as nat);
    let ghost den = d * pow2(de as nat);
    let mut lo: u32 = 0;
    let mut hi: u32 = POS_INFINITY;
    while lo < hi
        invariant
            lo <= hi <= POS_INFINITY,
            n < 0x4000_0000_0000_0000,
            0 < d < 0x100_0000,
            ne <= 1000,
            de <= 1000,
            num == n * pow2(ne as nat),
            den == d * pow2(de as nat),
            lo > 0 ==> !at_or_below((lo - 1) as nat, num, den),
            hi < POS_INFINITY ==> at_or_below(hi as nat, num, den),
        decreases hi - lo,
    {
        let mid: u32 = lo + (hi - lo) / 2;
        if below_halfway(mid, n, ne, d, de) {
            hi = mid;
        } else {
            lo = mid + 1;
        }
    }
    lo
}

} // verus!
