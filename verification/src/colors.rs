//! The palettes as one closed choice that maps for itself.

use crate::palettes::default::default_color;
use crate::palettes::extended::extended_color;
use crate::palettes::unit::split_unit;
use crate::palettes::{
    colorize, over_range, scaled_color, under_range, Palette, PaletteColorize, BLUE,
};
use crate::rescale::rescale;
use vstd::prelude::*;

verus! {

/// The palettes to choose from.
#[derive(Clone, Copy, Debug, PartialEq, Eq, Structural)]
pub enum Palettes {
    Default,
    Extended,
}

impl Palettes {
    /// The same choice as a `Palette`.
    pub open spec fn as_palette(self) -> Palette {
        match self {
            Palettes::Default => Palette::Default,
            Palettes::Extended => Palette::Extended,
        }
    }
}

impl PaletteColorize for Palettes {
    open spec fn color(&self, value: u32) -> Seq<u8> {
        match self {
            Palettes::Default => default_color(value),
            Palettes::Extended => extended_color(value),
        }
    }

    open spec fn color_under_range(&self) -> Seq<u8> {
        under_range()
    }

    open spec fn color_over_range(&self) -> Seq<u8> {
        over_range()
    }

    fn get_color(&self, value: u32) -> (c: [u8; 3]) {
        match self {
            Palettes::Default => {
                let (whole, _) = split_unit(value);
                let c = [whole, whole, BLUE];
                assert(c@ =~= default_color(value));
                c
            },
            Palettes::Extended => {
                let (whole, third) = split_unit(value);
                let c = if third == 0 {
                    [whole, whole, BLUE]
                } else if third == 1 {
                    [whole, whole + 1, BLUE]
                } else {
                    [whole + 1, whole + 1, BLUE]
                };
                assert(c@ =~= extended_color(value));
                c
            },
        }
    }

    fn get_color_under_range(&self) -> (c: [u8; 3]) {
        let c = match self {
            Palettes::Default => [0, 0, 0],
            Palettes::Extended => [0, 0, 0],
        };
        assert(c@ =~= under_range());
        c
    }

    fn get_color_over_range(&self) -> (c: [u8; 3]) {
        let c = match self {
            Palettes::Default => [255, 255, 255],
            Palettes::Extended => [255, 255, 255],
        };
        assert(c@ =~= over_range());
        c
    }
}

/// Places an amplitude on the scale from `min` to `max` and turns it into a
/// colour of the palette chosen: red, green and blue.
pub fn scale_tocolor(palette: Palettes, value: u32, min: u32, max: u32) -> (c: [u8; 3])
    ensures
        c@ == scaled_color(palette.as_palette(), value, min, max),
        c@.len() == 3,
{
    colorize(&palette, rescale(value, min, max))
}

} // verus!
