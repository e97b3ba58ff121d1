//! Colour palettes: the mapping from a rescaled amplitude to a pixel.
//!
//! An amplitude is first rescaled from the range of the colour scale to the
//! unit interval, `(value - min) / (max - min)` in binary32 arithmetic. Below
//! zero it gets the palette's under-range colour, above one or where it is no
//! number the over-range colour, and within the unit interval the palette's
//! own mapping.

pub mod default;
pub mod extended;
pub mod levels;
pub mod unit;

use crate::binary32::{
    is_finite, is_nan, is_zero, less, lt, magnitude, nan, rank, ONE, SIGN_BIT, ZERO,
};
use crate::palettes::default::{default_color, DefaultPalette};
use crate::palettes::extended::{extended_color, ExtendedPalette};
use crate::palettes::unit::{
    in_unit_interval, lemma_fraction_order, lemma_times_255_order, lemma_unit_ends, scale,
    times_255,
};
use crate::rescale::{
    difference, lemma_quotient_of_equals, lemma_rescaled_rises, lemma_rescaled_within, rescale,
    rescaled,
};
use vstd::prelude::*;

verus! {

/// The palettes to choose from.
#[derive(Clone, Copy, Debug, PartialEq, Eq, Structural)]
pub enum Palette {
    Default,
    Extended,
}

/// The blue channel of every in-range colour.
pub const BLUE: u8 = 50;

/// The colour of a value below the range: black.
pub open spec fn under_range() -> Seq<u8> {
    seq![0u8, 0u8, 0u8]
}

/// The colour of a value above the range: white.
pub open spec fn over_range() -> Seq<u8> {
    seq![255u8, 255u8, 255u8]
}

/// What a palette has to offer: a colour for every number of the unit
/// interval, one for what lies below the range and one for what lies above.
pub trait PaletteColorize {
    /// The colour of a number of the unit interval.
    spec fn color(&self, value: u32) -> Seq<u8>;

    /// The colour of what lies below the range.
    spec fn color_under_range(&self) -> Seq<u8>;

    /// The colour of what lies above the range.
    spec fn color_over_range(&self) -> Seq<u8>;

    fn get_color(&self, value: u32) -> (c: [u8; 3])
        requires
            in_unit_interval(value),
        ensures
            c@ == self.color(value),
    ;

    fn get_color_under_range(&self) -> (c: [u8; 3])
        ensures
            c@ == self.color_under_range(),
    ;

    fn get_color_over_range(&self) -> (c: [u8; 3])
        ensures
            c@ == self.color_over_range(),
    ;
}

/// Where a rescaled amplitude lies with respect to the unit interval.
#[derive(Clone, Copy, Debug, PartialEq, Eq, Structural)]
pub enum Placement {
    /// Below zero.
    Under,
    /// From zero to one, the ends included.
    Within,
    /// Above one, or no number.
    Over,
}

/// Where a rescaled amplitude lies: a not-a-number counts as above the
/// range, negative zero as zero.
pub open spec fn placement(scaled: u32) -> Placement {
    if is_nan(scaled) {
        Placement::Over
    } else if less(scaled, ZERO) {
        Placement::Under
    } else if less(ONE, scaled) {
        Placement::Over
    } else {
        Placement::Within
    }
}

/// Tells where a rescaled amplitude lies with respect to the unit interval.
pub fn place(scaled: u32) -> (r: Placement)
    ensures
        r == placement(scaled),
        r == Placement::Within <==> in_unit_interval(scaled),
{
    if nan(scaled) {
        Placement::Over
    } else if lt(scaled, ZERO) {
        Placement::Under
    } else if lt(ONE, scaled) {
        Placement::Over
    } else {
        Placement::Within
    }
}

/// The colour that a palette gives to a rescaled amplitude.
pub open spec fn colorized<P: PaletteColorize>(palette: &P, scaled: u32) -> Seq<u8> {
    match placement(scaled) {
        Placement::Under => palette.color_under_range(),
        Placement::Over => palette.color_over_range(),
        Placement::Within => palette.color(scaled),
    }
}

/// Colours a rescaled amplitude with the palette given.
pub fn colorize<P: PaletteColorize>(palette: &P, scaled: u32) -> (c: [u8; 3])
    ensures
        c@ == colorized(palette, scaled),
{
    match place(scaled) {
        Placement::Under => palette.get_color_under_range(),
        Placement::Over => palette.get_color_over_range(),
        Placement::Within => palette.get_color(scaled),
    }
}

impl Palette {
    /// The colour that the palette gives to a number of the unit interval.
    pub open spec fn mapped(self, value: u32) -> Seq<u8> {
        match self {
            Palette::Default => default_color(value),
            Palette::Extended => extended_color(value),
        }
    }
}

/// The colour of a rescaled amplitude: white where it is no number, black
/// below zero, white above one, the palette's mapping in between.
pub open spec fn color_of(palette: Palette, scaled: u32) -> Seq<u8> {
    match placement(scaled) {
        Placement::Under => under_range(),
        Placement::Over => over_range(),
        Placement::Within => palette.mapped(scaled),
    }
}

/// The colour of an amplitude on the scale from `min` to `max`.
pub open spec fn scaled_color(palette: Palette, value: u32, min: u32, max: u32) -> Seq<u8> {
    color_of(palette, rescaled(value, min, max))
}

/// Places an amplitude on the scale from `min` to `max` and turns it into a
/// colour of the palette chosen: red, green and blue.
pub fn scale_tocolor(palette: Palette, value: u32, min: u32, max: u32) -> (c: [u8; 3])
    ensures
        c@ == scaled_color(palette, value, min, max),
        c@.len() == 3,
{
    let scaled = rescale(value, min, max);
    match palette {
        Palette::Default => colorize(&DefaultPalette {  }, scaled),
        Palette::Extended => colorize(&ExtendedPalette {  }, scaled),
    }
}

/// Within the unit interval red and green never fall as the rescaled
/// amplitude rises, in either palette.
pub proof fn lemma_color_monotone(palette: Palette, a: u32, b: u32)
    requires
        in_unit_interval(a),
        in_unit_interval(b),
        !less(b, a),
    ensures
        color_of(palette, a)[0] <= color_of(palette, b)[0],
        color_of(palette, a)[1] <= color_of(palette, b)[1],
{
    lemma_times_255_order(a, b);
    lemma_fraction_order(times_255(a), scale(a), times_255(b), scale(b));
    crate::palettes::unit::lemma_whole_part_bound(a);
    crate::palettes::unit::lemma_whole_part_bound(b);
}

/// At the ends of the range: a rescaled amplitude of exactly one is
/// (255, 255, 50) and one of exactly zero is (0, 0, 50), in either palette.
pub proof fn lemma_color_at_ends(palette: Palette)
    ensures
        color_of(palette, ONE) == seq![255u8, 255u8, 50u8],
        color_of(palette, ZERO) == seq![0u8, 0u8, 50u8],
        color_of(palette, SIGN_BIT) == seq![0u8, 0u8, 50u8],
{
    lemma_unit_ends();
}

/// Out of the range: a rescaled amplitude below zero is black and one above
/// one is white, in either palette.
pub proof fn lemma_color_out_of_range(palette: Palette, scaled: u32)
    ensures
        less(scaled, ZERO) ==> color_of(palette, scaled) == seq![0u8, 0u8, 0u8],
        less(ONE, scaled) ==> color_of(palette, scaled) == seq![255u8, 255u8, 255u8],
{
}

/// Every colour has three channels.
pub proof fn lemma_color_len(palette: Palette, scaled: u32)
    ensures
        color_of(palette, scaled).len() == 3,
{
}

/// A nonzero finite number divided by itself is one: where the range of the
/// scale, `max - min`, is finite and not zero, the amplitude `max` rescales
/// to exactly one.
pub proof fn lemma_rescaled_at_max(min: u32, max: u32)
    requires
        is_finite(difference(max, min)),
        !is_zero(difference(max, min)),
    ensures
        rescaled(max, min, max) == ONE,
{
    lemma_quotient_of_equals(magnitude(difference(max, min)) as nat);
}

/// Within the scale no colour is out of range: where the three numbers are
/// finite, `value` lies from `min` to `max`, and the range `max - min` is
/// finite and not zero, the amplitude gets the palette's own colour.
pub proof fn lemma_color_within_scale(palette: Palette, value: u32, min: u32, max: u32)
    requires
        is_finite(value),
        is_finite(min),
        is_finite(max),
        rank(min) <= rank(value) <= rank(max),
        is_finite(difference(max, min)),
        !is_zero(difference(max, min)),
    ensures
        placement(rescaled(value, min, max)) == Placement::Within,
        scaled_color(palette, value, min, max) == palette.mapped(rescaled(value, min, max)),
{
    lemma_rescaled_within(value, min, max);
}

/// On a scale red and green never fall as the amplitude rises: of two
/// finite amplitudes from `min` to `max`, where the range `max - min` is
/// finite and not zero, the lesser has no more red and no more green, in
/// either palette.
pub proof fn lemma_color_rises_with_value(palette: Palette, low: u32, high: u32, min: u32, max: u32)
    requires
        is_finite(low),
        is_finite(high),
        is_finite(min),
        is_finite(max),
        rank(min) <= rank(low) <= rank(high) <= rank(max),
        is_finite(difference(max, min)),
        !is_zero(difference(max, min)),
    ensures
        scaled_color(palette, low, min, max)[0] <= scaled_color(palette, high, min, max)[0],
        scaled_color(palette, low, min, max)[1] <= scaled_color(palette, high, min, max)[1],
{
    lemma_rescaled_within(low, min, max);
    lemma_rescaled_within(high, min, max);
    lemma_rescaled_rises(low, high, min, max);
    lemma_color_monotone(palette, rescaled(low, min, max), rescaled(high, min, max));
}

/// At the upper end of the scale: where the range `max - min` is finite and
/// not zero, the amplitude `max` is (255, 255, 50), in either palette.
pub proof fn lemma_color_at_max(palette: Palette, min: u32, max: u32)
    requires
        is_finite(difference(max, min)),
        !is_zero(difference(max, min)),
    ensures
        scaled_color(palette, max, min, max) == seq![255u8, 255u8, 50u8],
{
    lemma_rescaled_at_max(min, max);
    lemma_color_at_ends(palette);
}

/// At the lower end of the scale: where `min` is finite and the range
/// `max - min` is a number other than zero, the amplitude `min` is
/// (0, 0, 50), in either palette.
pub proof fn lemma_color_at_min(palette: Palette, min: u32, max: u32)
    requires
        is_finite(min),
        !is_nan(difference(max, min)),
        !is_zero(difference(max, min)),
    ensures
        scaled_color(palette, min, min, max) == seq![0u8, 0u8, 50u8],
{
    lemma_color_at_ends(palette);
    assert(difference(min, min) == ZERO);
    assert(rescaled(min, min, max) == ZERO || rescaled(min, min, max) == SIGN_BIT);
}

} // verus!
