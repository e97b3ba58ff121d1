//! The whole levels of a scale from 0 to 255: on that scale the whole number
//! `v` is coloured with the level `v`, in either palette.

use crate::binary32::{is_finite, is_negative, magnitude, POS_INFINITY, ZERO};
use crate::palettes::default::default_color;
use crate::palettes::extended::extended_color;
use crate::palettes::unit::{
    fraction_third, in_unit_interval, round_at, scale, significand, times_255, whole_part, THIRD,
};
use crate::palettes::{
    color_of, lemma_color_at_max, lemma_color_at_min, placement, scaled_color, Palette, Placement,
};
use crate::rescale::{lemma_difference_zero, lemma_rounded_is, quotient, rescaled};
use crate::rounding::{
    exp_of, lemma_units_increasing, lemma_units_step, nearest, sig_of, units,
};
use vstd::arithmetic::power2::{lemma2_to64, lemma_pow2_adds, lemma_pow2_pos, pow2};
use vstd::prelude::*;

verus! {

/// The pattern stands for the whole number `v`.
pub open spec fn stands_for(p: u32, v: nat) -> bool {
    &&& !is_negative(p)
    &&& is_finite(p)
    &&& units(magnitude(p) as nat) == v * pow2(149)
}

/// `t / 255`, rounded to the nearest whole number. No tie can come up, for
/// 255 is odd.
pub open spec fn by_255(t: nat) -> nat {
    if 2 * (t % 255) < 255 {
        t / 255
    } else {
        t / 255 + 1
    }
}

/// The pattern that `v / 255` rounds to, where `v * 2^t` has 32 bits: its
/// significand is `by_255(v * 2^t)`, its binary point stands at `t`.
pub open spec fn level_pattern(v: nat, t: nat) -> nat {
    ((149 - t) * 0x80_0000 + by_255(v * pow2(t))) as nat
}

/// The power of two is one of those from 2^24 to 2^31.
proof fn lemma_point(t: nat)
    requires
        24 <= t <= 31,
    ensures
        pow2(t) == 0x100_0000 || pow2(t) == 0x200_0000 || pow2(t) == 0x400_0000 || pow2(t)
            == 0x800_0000 || pow2(t) == 0x1000_0000 || pow2(t) == 0x2000_0000 || pow2(t)
            == 0x4000_0000 || pow2(t) == 0x8000_0000,
        pow2(t) * pow2((149 - t) as nat) == pow2(149),
        pow2(t) % 256 == 0,
{
    lemma2_to64();
    lemma_pow2_adds(t, (149 - t) as nat);
}

/// The significand and the exponent of a level's pattern.
proof fn lemma_level_parts(v: nat, t: nat)
    requires
        24 <= t <= 31,
        0x8000_0000 <= v * pow2(t) <= 0xFE00_0000,
    ensures
        0x80_0000 < by_255(v * pow2(t)) < 0x100_0000,
        255 * by_255(v * pow2(t)) >= 0x8000_0000,
        -127 <= 255 * by_255(v * pow2(t)) - v * pow2(t) <= 127,
        level_pattern(v, t) < POS_INFINITY,
        sig_of(level_pattern(v, t)) == by_255(v * pow2(t)),
        exp_of(level_pattern(v, t)) == 149 - t,
        sig_of((level_pattern(v, t) - 1) as nat) == by_255(v * pow2(t)) - 1,
        exp_of((level_pattern(v, t) - 1) as nat) == 149 - t,
{
    let total = v * pow2(t);
    let s = by_255(total);
    let m = level_pattern(v, t);
    let h: int = 0x80_0000;
    assert(0x80_0000 < s < 0x100_0000);
    assert(m == h * (150 - t) + (s - h));
    vstd::arithmetic::div_mod::lemma_fundamental_div_mod_converse(
        m as int,
        h,
        (150 - t) as int,
        s - h,
    );
    assert(m - 1 == h * (150 - t) + (s - 1 - h));
    vstd::arithmetic::div_mod::lemma_fundamental_div_mod_converse(
        m - 1,
        h,
        (150 - t) as int,
        s - 1 - h,
    );
}

/// On the scale from 0 to 255 a whole number from 1 to 254 rescales to its
/// level's pattern.
proof fn lemma_level_rescaled(value: u32, max: u32, v: nat, t: nat)
    requires
        stands_for(value, v),
        stands_for(max, 255),
        24 <= t <= 31,
        0x8000_0000 <= v * pow2(t) <= 0xFE00_0000,
    ensures
        rescaled(value, ZERO, max) == level_pattern(v, t),
{
    let unit = pow2(149) as int;
    let w = pow2(t) as int;
    let step = pow2((149 - t) as nat) as int;
    let total = v * pow2(t);
    let s = by_255(total) as int;
    let m = level_pattern(v, t);
    lemma_point(t);
    lemma_pow2_pos(149);
    lemma_pow2_pos((149 - t) as nat);
    lemma_level_parts(v, t);
    lemma_difference_zero(value);
    lemma_difference_zero(max);
    assert(units(0) == 0) by {
        assert(sig_of(0) == 0);
        assert(0 * pow2(exp_of(0)) == 0);
    }
    assert(v >= 1) by (nonlinear_arith)
        requires
            v * w >= 0x8000_0000,
            v >= 0,
    ;
    assert(v * unit > 0 && 255 * unit > 0) by (nonlinear_arith)
        requires
            v >= 1,
            unit > 0,
    ;
    let mv = magnitude(value) as nat;
    let md = magnitude(max) as nat;
    assert(mv > 0 && md > 0);
    let num = (units(mv) * pow2(149)) as int;
    let den = units(md) as int;
    assert(rescaled(value, ZERO, max) == quotient(value, max));
    lemma_units_step(m);
    lemma_units_step((m - 1) as nat);
    let scale_up = step * unit;
    assert(scale_up > 0) by (nonlinear_arith)
        requires
            scale_up == step * unit,
            step > 0,
            unit > 0,
    ;
    assert(2 * num == (2 * total) * scale_up) by (nonlinear_arith)
        requires
            num == (v * unit) * unit,
            unit == w * step,
            total == v * w,
            scale_up == step * unit,
    ;
    let above = (units(m) + units(m + 1)) * den;
    let below = (units((m - 1) as nat) + units(m)) * den;
    assert(above == (255 * (2 * s + 1)) * scale_up) by (nonlinear_arith)
        requires
            above == ((2 * s + 1) * step) * (255 * unit),
            scale_up == step * unit,
    ;
    assert(below == (255 * (2 * s - 1)) * scale_up) by (nonlinear_arith)
        requires
            below == ((2 * (s - 1) + 1) * step) * (255 * unit),
            scale_up == step * unit,
    ;
    assert(2 * total < 255 * (2 * s + 1));
    assert(2 * total > 255 * (2 * s - 1));
    assert(2 * num < above) by (nonlinear_arith)
        requires
            2 * num == (2 * total) * scale_up,
            above == (255 * (2 * s + 1)) * scale_up,
            2 * total < 255 * (2 * s + 1),
            scale_up > 0,
    ;
    assert(2 * num > below) by (nonlinear_arith)
        requires
            2 * num == (2 * total) * scale_up,
            below == (255 * (2 * s - 1)) * scale_up,
            2 * total > 255 * (2 * s - 1),
            scale_up > 0,
    ;
    assert(nearest(m, num, den));
    lemma_rounded_is(m, num, den);
}

/// The colour of a level's pattern is the level, in red and in green.
proof fn lemma_level_color(palette: Palette, v: nat, t: nat)
    requires
        24 <= t <= 31,
        0x8000_0000 <= v * pow2(t) <= 0xFE00_0000,
    ensures
        color_of(palette, level_pattern(v, t) as u32) == seq![v as u8, v as u8, 50u8],
        v <= 254,
{
    let w = pow2(t);
    let total = v * w;
    let s = by_255(total);
    let m = level_pattern(v, t);
    let bits = m as u32;
    lemma_point(t);
    lemma_level_parts(v, t);
    assert(magnitude(bits) == m);
    assert(in_unit_interval(bits));
    assert(significand(bits) == s);
    assert(scale(bits) == t);
    let p = 255 * s;
    let j = w / 256;
    assert(w == 256 * j);
    assert(total == (v * j) * 256) by (nonlinear_arith)
        requires
            total == v * w,
            w == 256 * j,
    ;
    vstd::arithmetic::div_mod::lemma_mod_multiples_basic((v * j) as int, 256);
    assert(total % 256 == 0);
    assert(round_at(p, 256) == total);
    assert(times_255(bits) == total);
    vstd::arithmetic::div_mod::lemma_div_by_multiple(v as int, w as int);
    vstd::arithmetic::div_mod::lemma_mod_multiples_basic(v as int, w as int);
    assert(whole_part(bits) == v);
    assert(0 * 0x200_0000 < THIRD * w) by (nonlinear_arith)
        requires
            w > 0,
            THIRD == 11072963,
    ;
    assert(fraction_third(bits) == 0);
    assert(v <= 254) by (nonlinear_arith)
        requires
            v * w <= 0xFE00_0000,
            w >= 0x100_0000,
    ;
    assert(placement(bits) == Placement::Within);
    assert(default_color(bits) =~= seq![v as u8, v as u8, 50u8]);
    assert(extended_color(bits) =~= seq![v as u8, v as u8, 50u8]);
}

/// A whole number from 1 to 254 is its own level, the binary point of its
/// quotient by 255 standing at `t`.
proof fn lemma_level(palette: Palette, value: u32, max: u32, v: nat, t: nat)
    requires
        stands_for(value, v),
        stands_for(max, 255),
        24 <= t <= 31,
        0x8000_0000 <= v * pow2(t) <= 0xFE00_0000,
    ensures
        scaled_color(palette, value, ZERO, max) == seq![v as u8, v as u8, 50u8],
{
    lemma_level_rescaled(value, max, v, t);
    lemma_level_color(palette, v, t);
}

/// On the scale from 0 to 255 every whole number is its own level: the
/// binary32 number that stands for `v` is coloured `(v, v, 50)`, in either
/// palette.
pub proof fn lemma_whole_levels(palette: Palette, value: u32, max: u32, v: nat)
    requires
        stands_for(value, v),
        stands_for(max, 255),
        v <= 255,
    ensures
        scaled_color(palette, value, ZERO, max) == seq![v as u8, v as u8, 50u8],
{
    lemma2_to64();
    lemma_pow2_pos(149);
    lemma_difference_zero(max);
    let unit = pow2(149) as int;
    let mv = magnitude(value) as nat;
    let md = magnitude(max) as nat;
    assert(units(0) == 0) by {
        assert(sig_of(0) == 0);
        assert(0 * pow2(exp_of(0)) == 0);
    }
    assert(255 * unit > 0) by (nonlinear_arith)
        requires
            unit > 0,
    ;
    assert(md > 0);
    if v == 0 {
        assert(0 * unit == 0);
        if mv > 0 {
            lemma_units_increasing(0, mv);
        }
        assert(value == ZERO);
        lemma_color_at_min(palette, ZERO, max);
    } else if v == 255 {
        if mv < md {
            lemma_units_increasing(mv, md);
        } else if md < mv {
            lemma_units_increasing(md, mv);
        }
        assert(value == max);
        lemma_color_at_max(palette, ZERO, max);
    } else {
        if v < 2 {
            lemma_level(palette, value, max, v, 31);
        } else if v < 4 {
            lemma_level(palette, value, max, v, 30);
        } else if v < 8 {
            lemma_level(palette, value, max, v, 29);
        } else if v < 16 {
            lemma_level(palette, value, max, v, 28);
        } else if v < 32 {
            lemma_level(palette, value, max, v, 27);
        } else if v < 64 {
            lemma_level(palette, value, max, v, 26);
        } else if v < 128 {
            lemma_level(palette, value, max, v, 25);
        } else {
            lemma_level(palette, value, max, v, 24);
        }
    }
}

} // verus!
