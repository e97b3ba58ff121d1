//! The default palette: red and green rise linearly, blue stays fixed.

use crate::palettes::unit::{split_unit, whole_part};
use crate::palettes::{over_range, under_range, PaletteColorize, BLUE};
use vstd::prelude::*;

verus! {

/// The default palette.
pub struct DefaultPalette {}

/// The default colour of a number of the unit interval: red and green are
/// the whole part of 255 times the number, blue is 50.
pub open spec fn default_color(value: u32) -> Seq<u8> {
    let whole = whole_part(value) as u8;
    seq![whole, whole, BLUE]
}

impl PaletteColorize for DefaultPalette {
    open spec fn color(&self, value: u32) -> Seq<u8> {
        default_color(value)
    }

    open spec fn color_under_range(&self) -> Seq<u8> {
        under_range()
    }

    open spec fn color_over_range(&self) -> Seq<u8> {
        over_range()
    }

    fn get_color(&self, value: u32) -> (c: [u8; 3]) {
        let (whole, _) = split_unit(value);
        let c = [whole, whole, BLUE];
        assert(c@ =~= default_color(value));
        c
    }

    fn get_color_under_range(&self) -> (c: [u8; 3]) {
        let c = [0, 0, 0];
        assert(c@ =~= under_range());
        c
    }

    fn get_color_over_range(&self) -> (c: [u8; 3]) {
        let c = [255, 255, 255];
        assert(c@ =~= over_range());
        c
    }
}

} // verus!
