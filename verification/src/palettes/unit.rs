//! Arithmetic on a rescaled amplitude: a binary32 number of the unit
//! interval, multiplied by 255 as a fused multiply-add does it (one rounding
//! to 24 significant bits, ties to even), then split into its whole part and
//! the third of the unit that its fraction falls into.

use crate::binary32::{abs_bits, is_nan, less, magnitude, ONE, SIGN_BIT, ZERO};
use vstd::arithmetic::power2::{
    lemma2_to64, lemma2_to64_rest, lemma_pow2_pos, lemma_pow2_strictly_increases, pow2,
};
use vstd::prelude::*;

verus! {

/// The hidden bit of a normal number's significand: 2^23.
pub const HIDDEN_BIT: u32 = 0x80_0000;

/// The binary32 number nearest to 0.33 is `THIRD / 2^25`; the one nearest to
/// 0.66 is `THIRD / 2^24`.
pub const THIRD: u64 = 11072963;

/// The number lies in the unit interval: it is no not-a-number, not below
/// zero and not above one. Negative zero counts as zero.
pub open spec fn in_unit_interval(bits: u32) -> bool {
    &&& !is_nan(bits)
    &&& !less(bits, ZERO)
    &&& !less(ONE, bits)
}

/// The significand of a number, with the hidden bit where it is normal.
pub open spec fn significand(bits: u32) -> nat {
    let m = magnitude(bits);
    if m < HIDDEN_BIT {
        m as nat
    } else {
        (m % (HIDDEN_BIT as int) + HIDDEN_BIT) as nat
    }
}

/// The binary point of a number of the unit interval: its magnitude is
/// `significand / 2^scale`.
pub open spec fn scale(bits: u32) -> nat {
    let e = magnitude(bits) / (HIDDEN_BIT as int);
    if e == 0 {
        149
    } else {
        (150 - e) as nat
    }
}

/// `p` rounded to a multiple of `q`, the nearer one, and the even multiple on
/// a tie.
pub open spec fn round_at(p: nat, q: nat) -> nat {
    let lo = (p / q * q) as nat;
    let r = p - lo;
    if 2 * r < q || (2 * r == q && (p / q) % 2 == 0) {
        lo
    } else {
        lo + q
    }
}

/// `p` rounded to 24 significant bits, ties to even, for `p` below 2^32.
pub open spec fn rounded(p: nat) -> nat {
    if p < 0x100_0000 {
        p
    } else if p < 0x200_0000 {
        round_at(p, 2)
    } else if p < 0x400_0000 {
        round_at(p, 4)
    } else if p < 0x800_0000 {
        round_at(p, 8)
    } else if p < 0x1000_0000 {
        round_at(p, 16)
    } else if p < 0x2000_0000 {
        round_at(p, 32)
    } else if p < 0x4000_0000 {
        round_at(p, 64)
    } else if p < 0x8000_0000 {
        round_at(p, 128)
    } else {
        round_at(p, 256)
    }
}

/// The significand of 255 times the number, after rounding; the binary point
/// stays where `scale` puts it.
pub open spec fn times_255(bits: u32) -> nat {
    rounded(255 * significand(bits))
}

/// The whole part of `p / 2^t`.
pub open spec fn whole_of(p: nat, t: nat) -> nat {
    p / pow2(t)
}

/// The third of the unit that the fraction of `p / 2^t` falls into: 0 below
/// the binary32 number 0.33, 1 below 0.66, 2 from there on.
pub open spec fn third_of(p: nat, t: nat) -> nat {
    let r = p % pow2(t);
    if r * 0x200_0000 < THIRD * pow2(t) {
        0
    } else if r * 0x100_0000 < THIRD * pow2(t) {
        1
    } else {
        2
    }
}

/// The whole part of 255 times a number of the unit interval.
pub open spec fn whole_part(bits: u32) -> nat {
    whole_of(times_255(bits), scale(bits))
}

/// The third that the fraction of 255 times a number of the unit interval
/// falls into.
pub open spec fn fraction_third(bits: u32) -> nat {
    third_of(times_255(bits), scale(bits))
}

/// Rounds to 24 significant bits, ties to even.
fn round_24(p: u64) -> (r: u64)
    requires
        p <= 0xFEFF_FF01,
    ensures
        r == rounded(p as nat),
        r <= 0xFEFF_FF00,
{
    let q: u64 = if p < 0x100_0000 {
        1
    } else if p < 0x200_0000 {
        2
    } else if p < 0x400_0000 {
        4
    } else if p < 0x800_0000 {
        8
    } else if p < 0x1000_0000 {
        16
    } else if p < 0x2000_0000 {
        32
    } else if p < 0x4000_0000 {
        64
    } else if p < 0x8000_0000 {
        128
    } else {
        256
    };
    let n: u64 = p / q;
    let lo: u64 = n * q;
    let r: u64 = p - lo;
    if 2 * r < q || (2 * r == q && n % 2 == 0) {
        lo
    } else {
        lo + q
    }
}

/// Multiplies a number of the unit interval by 255 and splits the product:
/// the whole part, and the third that the fraction falls into.
pub fn split_unit(bits: u32) -> (r: (u8, u8))
    requires
        in_unit_interval(bits),
    ensures
        r.0 == whole_part(bits),
        r.1 == fraction_third(bits),
        r.0 == 255 ==> r.1 == 0,
{
    let m: u32 = abs_bits(bits);
    let e: u32 = m / HIDDEN_BIT;
    let f: u32 = m % HIDDEN_BIT;
    let sig: u32 = if e == 0 {
        f
    } else {
        f + HIDDEN_BIT
    };
    let t: u32 = if e == 0 {
        149
    } else {
        150 - e
    };
    assert(e <= 127);
    assert(e == 127 ==> f == 0);
    let p: u64 = 255 * (sig as u64);
    let rounded_p: u64 = round_24(p);
    proof {
        lemma_pow2_pos(t as nat);
    }
    if t >= 40 {
        proof {
            lemma2_to64_rest();
            if t > 40 {
                lemma_pow2_strictly_increases(40, t as nat);
            }
            let d = pow2(t as nat) as int;
            assert(d >= 0x100_0000_0000);
            vstd::arithmetic::div_mod::lemma_basic_div(rounded_p as int, d);
            vstd::arithmetic::div_mod::lemma_small_mod(rounded_p as nat, d as nat);
            assert(rounded_p * 0x200_0000 < THIRD * d) by (nonlinear_arith)
                requires
                    rounded_p <= 0xFEFF_FF00,
                    d >= 0x100_0000_0000,
                    THIRD == 11072963,
            ;
        }
        (0, 0)
    } else {
        let d: u64 = 1u64 << t;
        proof {
            lemma2_to64();
            lemma2_to64_rest();
            lemma_pow2_strictly_increases(t as nat, 40);
            vstd::bits::lemma_u64_shl_is_mul(1, t as u64);
            assert(d == pow2(t as nat));
            if t > 23 {
                lemma_pow2_strictly_increases(23, t as nat);
            }
            assert(d >= 0x80_0000);
        }
        let whole: u64 = rounded_p / d;
        let rem: u64 = rounded_p % d;
        proof {
            assert(whole <= 255 && (whole == 255 ==> rem == 0)) by (nonlinear_arith)
                requires
                    whole == rounded_p / d,
                    rem == rounded_p % d,
                    d >= 0x80_0000,
                    rounded_p <= 0xFEFF_FF00,
                    d == 0x80_0000 ==> rounded_p == 0x7F80_0000,
                    d != 0x80_0000 ==> d >= 0x100_0000,
            ;
        }
        let third: u8 = if rem * 0x200_0000 < THIRD * d {
            0
        } else if rem * 0x100_0000 < THIRD * d {
            1
        } else {
            2
        };
        (whole as u8, third)
    }
}

/// The step between the numbers of 24 significant bits around `p`.
pub open spec fn quantum(p: nat) -> nat {
    if p < 0x100_0000 {
        1
    } else if p < 0x200_0000 {
        2
    } else if p < 0x400_0000 {
        4
    } else if p < 0x800_0000 {
        8
    } else if p < 0x1000_0000 {
        16
    } else if p < 0x2000_0000 {
        32
    } else if p < 0x4000_0000 {
        64
    } else if p < 0x8000_0000 {
        128
    } else {
        256
    }
}

/// Rounding to a multiple of `q` keeps the order.
pub proof fn lemma_round_at_monotone(pa: nat, pb: nat, q: nat)
    requires
        q > 0,
        pa <= pb,
    ensures
        round_at(pa, q) <= round_at(pb, q),
{
    let n1 = pa as int / q as int;
    let n2 = pb as int / q as int;
    let r1 = pa as int % q as int;
    let r2 = pb as int % q as int;
    vstd::arithmetic::div_mod::lemma_fundamental_div_mod(pa as int, q as int);
    vstd::arithmetic::div_mod::lemma_fundamental_div_mod(pb as int, q as int);
    vstd::arithmetic::div_mod::lemma_div_is_ordered(pa as int, pb as int, q as int);
    assert(0 <= r1 < q && 0 <= r2 < q);
    assert(n1 * q == q * n1 && n2 * q == q * n2) by (nonlinear_arith);
    assert(pa - n1 * q == r1);
    assert(pb - n2 * q == r2);
    if n1 < n2 {
        assert(n1 * q + q <= n2 * q) by (nonlinear_arith)
            requires
                n1 + 1 <= n2,
                q > 0,
        ;
    }
}

/// A multiple of `q` rounds to itself.
pub proof fn lemma_round_at_multiple(k: nat, q: nat)
    requires
        q > 0,
    ensures
        round_at(k * q, q) == k * q,
{
    vstd::arithmetic::div_mod::lemma_div_by_multiple(k as int, q as int);
    assert((k * q) / q == k);
}

/// Rounding stays between the multiples of `q` on either side.
pub proof fn lemma_round_at_within(p: nat, q: nat, lo: nat, hi: nat)
    requires
        q > 0,
        lo * q <= p <= hi * q,
    ensures
        lo * q <= round_at(p, q) <= hi * q,
{
    lemma_round_at_multiple(lo, q);
    lemma_round_at_multiple(hi, q);
    lemma_round_at_monotone(lo * q, p, q);
    lemma_round_at_monotone(p, hi * q, q);
}

/// A number from 2^24 on rounds to a number of its own binade, or to the
/// power of two that ends it.
pub proof fn lemma_rounded_range(p: nat)
    requires
        0x100_0000 <= p < 0x1_0000_0000,
    ensures
        rounded(p) == round_at(p, quantum(p)),
        0x80_0000 * quantum(p) <= rounded(p) <= 0x100_0000 * quantum(p),
        0x80_0000 * quantum(p) <= p < 0x100_0000 * quantum(p),
{
    lemma_round_at_within(p, quantum(p), 0x80_0000, 0x100_0000);
}

/// Rounding to 24 significant bits keeps the order.
pub proof fn lemma_rounded_monotone(pa: nat, pb: nat)
    requires
        pa <= pb < 0x1_0000_0000,
    ensures
        rounded(pa) <= rounded(pb),
{
    if pb < 0x100_0000 {
    } else if pa < 0x100_0000 {
        lemma_rounded_range(pb);
    } else {
        lemma_rounded_range(pa);
        lemma_rounded_range(pb);
        if quantum(pa) == quantum(pb) {
            lemma_round_at_monotone(pa, pb, quantum(pa));
        } else {
            assert(2 * quantum(pa) <= quantum(pb));
        }
    }
}

/// Of two fractions `pa / 2^t1 <= pb / 2^t2`, the lesser has the lesser
/// whole part, and where the whole parts are equal, the lesser third.
pub proof fn lemma_fraction_order(pa: nat, t1: nat, pb: nat, t2: nat)
    requires
        pa * pow2(t2) <= pb * pow2(t1),
    ensures
        whole_of(pa, t1) <= whole_of(pb, t2),
        whole_of(pa, t1) == whole_of(pb, t2) ==> third_of(pa, t1) <= third_of(pb, t2),
{
    lemma_pow2_pos(t1);
    lemma_pow2_pos(t2);
    let d1 = pow2(t1) as int;
    let d2 = pow2(t2) as int;
    let w1 = pa as int / d1;
    let w2 = pb as int / d2;
    let r1 = pa as int % d1;
    let r2 = pb as int % d2;
    vstd::arithmetic::div_mod::lemma_fundamental_div_mod(pa as int, d1);
    vstd::arithmetic::div_mod::lemma_fundamental_div_mod(pb as int, d2);
    assert(0 <= r1 < d1 && 0 <= r2 < d2);
    assert(w1 <= w2 && (w1 == w2 ==> r1 * d2 <= r2 * d1)) by (nonlinear_arith)
        requires
            pa == d1 * w1 + r1,
            pb == d2 * w2 + r2,
            0 <= r1 < d1,
            0 <= r2 < d2,
            pa * d2 <= pb * d1,
    ;
    if w1 == w2 {
        assert(r1 * 0x200_0000 >= THIRD * d1 ==> r2 * 0x200_0000 >= THIRD * d2)
            by (nonlinear_arith)
            requires
                r1 * d2 <= r2 * d1,
                0 < d1,
                0 < d2,
                0 <= r1,
                0 <= r2,
                THIRD == 11072963,
        ;
        assert(r1 * 0x100_0000 >= THIRD * d1 ==> r2 * 0x100_0000 >= THIRD * d2)
            by (nonlinear_arith)
            requires
                r1 * d2 <= r2 * d1,
                0 < d1,
                0 < d2,
                0 <= r1,
                0 <= r2,
                THIRD == 11072963,
        ;
    }
}

/// Multiplying by 255 keeps the order of the numbers of the unit interval.
pub proof fn lemma_times_255_order(a: u32, b: u32)
    requires
        in_unit_interval(a),
        in_unit_interval(b),
        !less(b, a),
    ensures
        times_255(a) * pow2(scale(b)) <= times_255(b) * pow2(scale(a)),
{
    let sa = significand(a);
    let sb = significand(b);
    let ta = scale(a);
    let tb = scale(b);
    lemma_pow2_pos(ta);
    lemma_pow2_pos(tb);
    assert(magnitude(a) <= magnitude(b));
    if ta == tb {
        assert(sa <= sb);
        lemma_rounded_monotone(255 * sa, 255 * sb);
        assert(times_255(a) * pow2(tb) <= times_255(b) * pow2(ta)) by (nonlinear_arith)
            requires
                times_255(a) <= times_255(b),
                pow2(ta) == pow2(tb),
        ;
    } else {
        assert(tb < ta);
        assert(sb >= HIDDEN_BIT);
        lemma_rounded_monotone(255 * sa, 0xFEFF_FF01);
        lemma_rounded_monotone(0x7F80_0000, 255 * sb);
        assert(rounded(0xFEFF_FF01) == 0xFEFF_FF00);
        assert(rounded(0x7F80_0000) == 0x7F80_0000);
        vstd::arithmetic::power2::lemma_pow2_unfold(tb + 1);
        if tb + 1 < ta {
            lemma_pow2_strictly_increases(tb + 1, ta);
        }
        assert(pow2(ta) >= 2 * pow2(tb));
        assert(times_255(a) * pow2(tb) <= times_255(b) * pow2(ta)) by (nonlinear_arith)
            requires
                times_255(a) <= 0xFEFF_FF00,
                times_255(b) >= 0x7F80_0000,
                pow2(ta) >= 2 * pow2(tb),
                pow2(tb) > 0,
        ;
    }
}

/// The whole part of 255 times one is 255, with nothing left over; that of
/// 255 times zero is zero, with nothing left over.
pub proof fn lemma_unit_ends()
    ensures
        whole_part(ONE) == 255,
        fraction_third(ONE) == 0,
        whole_part(ZERO) == 0,
        fraction_third(ZERO) == 0,
        whole_part(SIGN_BIT) == 0,
        fraction_third(SIGN_BIT) == 0,
{
    lemma2_to64();
    lemma2_to64_rest();
    lemma_pow2_pos(149);
    assert(times_255(ONE) == 0x7F80_0000);
    assert(scale(ONE) == 23);
    assert(pow2(23) == 0x80_0000);
    assert(0x7F80_0000nat / 0x80_0000nat == 255);
    assert(0x7F80_0000nat % 0x80_0000nat == 0);
    assert(times_255(ZERO) == 0);
    assert(times_255(SIGN_BIT) == 0);
    assert(scale(ZERO) == 149);
    assert(scale(SIGN_BIT) == 149);
    vstd::arithmetic::div_mod::lemma_basic_div(0, pow2(149) as int);
    vstd::arithmetic::div_mod::lemma_small_mod(0, pow2(149));
    assert(0 * 0x200_0000 < THIRD * pow2(149)) by (nonlinear_arith)
        requires
            pow2(149) > 0,
            THIRD == 11072963,
    ;
}

/// The whole part of 255 times a number of the unit interval is at most 255,
/// and where it is 255 nothing is left over.
pub proof fn lemma_whole_part_bound(bits: u32)
    requires
        in_unit_interval(bits),
    ensures
        whole_part(bits) <= 255,
        whole_part(bits) == 255 ==> fraction_third(bits) == 0,
{
    lemma_times_255_order(bits, ONE);
    lemma_fraction_order(times_255(bits), scale(bits), times_255(ONE), scale(ONE));
    lemma_unit_ends();
}

} // verus!
