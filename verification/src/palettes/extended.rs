//! The extended palette: the default one with two steps more between
//! neighbouring levels.

use crate::palettes::unit::{fraction_third, split_unit, whole_part};
use crate::palettes::{over_range, under_range, PaletteColorize, BLUE};
use vstd::prelude::*;

verus! {

/// The extended palette.
pub struct ExtendedPalette {}

/// The extended colour of a number of the unit interval. With `whole` the
/// whole part of 255 times the number: where the fraction lies in the first
/// third, red and green are `whole`; in the second, green is one more; in the
/// last, both are one more. Blue is 50.
pub open spec fn extended_color(value: u32) -> Seq<u8> {
    let whole = whole_part(value);
    let third = fraction_third(value);
    if third == 0 {
        seq![whole as u8, whole as u8, BLUE]
    } else if third == 1 {
        seq![whole as u8, (whole + 1) as u8, BLUE]
    } else {
        seq![(whole + 1) as u8, (whole + 1) as u8, BLUE]
    }
}

impl PaletteColorize for ExtendedPalette {
    open spec fn color(&self, value: u32) -> Seq<u8> {
        extended_color(value)
    }

    open spec fn color_under_range(&self) -> Seq<u8> {
        under_range()
    }

    open spec fn color_over_range(&self) -> Seq<u8> {
        over_range()
    }

    fn get_color(&self, value: u32) -> (c: [u8; 3]) {
        let (whole, third) = split_unit(value);
        let c = if third == 0 {
            [whole, whole, BLUE]
        } else if third == 1 {
            [whole, whole + 1, BLUE]
        } else {
            [whole + 1, whole + 1, BLUE]
        };
        assert(c@ =~= extended_color(value));
        c
    }

    fn get_color_under_range(&self) -> (c: [u8; 3]) {
        let c = [0, 0, 0];
        assert(c@ =~= under_range());
        c
    }

    fn get_color_over_range(&self) -> (c: [u8; 3]) {
        let c = [255, 255, 255];
        assert(c@ =~= over_range());
        c
    }
}

} // verus!
