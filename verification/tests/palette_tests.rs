use sdr_heatmap::colors::Palettes;
use sdr_heatmap::palettes::default::DefaultPalette;
use sdr_heatmap::palettes::extended::ExtendedPalette;
use sdr_heatmap::palettes::unit::split_unit;
use sdr_heatmap::palettes::PaletteColorize;
use sdr_heatmap::{scale_tocolor, Palette};

fn unit(palette: Palette, scaled: u32) -> [u8; 3] {
    scale_tocolor(palette, scaled, 0.0f32.to_bits(), 1.0f32.to_bits())
}

fn color(palette: Palette, value: f32, min: f32, max: f32) -> [u8; 3] {
    scale_tocolor(palette, value.to_bits(), min.to_bits(), max.to_bits())
}

fn colors_color(palette: Palettes, value: f32, min: f32, max: f32) -> [u8; 3] {
    sdr_heatmap::colors::scale_tocolor(palette, value.to_bits(), min.to_bits(), max.to_bits())
}

fn expected_default(scaled: f32) -> [u8; 3] {
    let value = scaled.mul_add(255.0, 0.0) as u8;
    [value, value, 50]
}

fn expected_extended(scaled: f32) -> [u8; 3] {
    let value = scaled.mul_add(255.0, 0.0);
    let whole = value as u8;
    let fract = value.fract();
    if fract < 0.33 {
        [whole, whole, 50]
    } else if fract < 0.66 {
        [whole, whole + 1, 50]
    } else {
        [whole + 1, whole + 1, 50]
    }
}

#[test]
fn dummy() {
    assert_eq!(4, 2 + 2);
}

#[test]
fn colors_normalize_goes_up() {
    assert_eq!(
        (0..255)
            .map(|v| v as f32)
            .map(|v| sdr_heatmap::colors::scale_tocolor(
                Palettes::Default,
                v.to_bits(),
                0.0f32.to_bits(),
                255.0f32.to_bits()
            )
            .first()
            .cloned()
            .unwrap())
            .collect::<Vec<_>>(),
        (0..255).map(|v| v as u8).collect::<Vec<_>>()
    );
}

#[test]
fn colors_scale_default() {
    assert_eq!(
        sdr_heatmap::colors::scale_tocolor(
            Palettes::Default,
            23.02f32.to_bits(),
            (-29.4f32).to_bits(),
            23.02f32.to_bits()
        ),
        [255, 255, 50]
    );
}

#[test]
fn colors_scale_over_under() {
    let zero = 0.0f32.to_bits();
    let one = 1.0f32.to_bits();
    assert_eq!(
        sdr_heatmap::colors::scale_tocolor(Palettes::Default, f32::INFINITY.to_bits(), zero, one),
        [255, 255, 255]
    );
    assert_eq!(
        sdr_heatmap::colors::scale_tocolor(
            Palettes::Default,
            f32::NEG_INFINITY.to_bits(),
            zero,
            one
        ),
        [0, 0, 0]
    );
    assert_eq!(
        sdr_heatmap::colors::scale_tocolor(Palettes::Extended, f32::INFINITY.to_bits(), zero, one),
        [255, 255, 255]
    );
    assert_eq!(
        sdr_heatmap::colors::scale_tocolor(
            Palettes::Extended,
            f32::NEG_INFINITY.to_bits(),
            zero,
            one
        ),
        [0, 0, 0]
    );
}

#[test]
fn mod_normalize_goes_up() {
    assert_eq!(
        (0..255)
            .map(|v| v as f32)
            .map(|v| scale_tocolor(
                Palette::Default,
                v.to_bits(),
                0.0f32.to_bits(),
                255.0f32.to_bits()
            )
            .first()
            .cloned()
            .unwrap())
            .collect::<Vec<_>>(),
        (0..255).map(|v| v as u8).collect::<Vec<_>>()
    );
}

#[test]
fn mod_scale_default() {
    assert_eq!(
        scale_tocolor(
            Palette::Default,
            23.02f32.to_bits(),
            (-29.4f32).to_bits(),
            23.02f32.to_bits()
        ),
        [255, 255, 50]
    );
}

#[test]
fn mod_scale_over_under() {
    let zero = 0.0f32.to_bits();
    let one = 1.0f32.to_bits();
    assert_eq!(
        scale_tocolor(Palette::Default, f32::INFINITY.to_bits(), zero, one),
        [255, 255, 255]
    );
    assert_eq!(
        scale_tocolor(Palette::Default, f32::NEG_INFINITY.to_bits(), zero, one),
        [0, 0, 0]
    );
    assert_eq!(
        scale_tocolor(Palette::Extended, f32::INFINITY.to_bits(), zero, one),
        [255, 255, 255]
    );
    assert_eq!(
        scale_tocolor(Palette::Extended, f32::NEG_INFINITY.to_bits(), zero, one),
        [0, 0, 0]
    );
}

#[test]
fn both_colour_functions_agree() {
    let values = [-40.0f32, -29.4, -3.0, 0.0, 7.25, 21.35, 23.02, 60.0, f32::NAN];
    for value in values {
        for (a, b) in [(Palettes::Default, Palette::Default), (Palettes::Extended, Palette::Extended)] {
            assert_eq!(
                colors_color(a, value, -29.4, 23.02),
                color(b, value, -29.4, 23.02)
            );
        }
    }
}

#[test]
fn colours_follow_the_hardware_on_a_scale() {
    let mut seed: u32 = 42;
    for _ in 0..20000 {
        seed = seed.wrapping_mul(1664525).wrapping_add(1013904223);
        let value = (seed >> 8) as f32 / 16777216.0 * 50.75 - 29.4;
        let scaled = (value - -29.4f32) / (21.35f32 - -29.4f32);
        assert_eq!(color(Palette::Default, value, -29.4, 21.35), expected_default(scaled));
        assert_eq!(color(Palette::Extended, value, -29.4, 21.35), expected_extended(scaled));
    }
}

#[test]
fn boundary_values() {
    assert_eq!(unit(Palette::Default, 1.0f32.to_bits()), [255, 255, 50]);
    assert_eq!(unit(Palette::Default, 0.0f32.to_bits()), [0, 0, 50]);
    assert_eq!(unit(Palette::Default, (-0.0f32).to_bits()), [0, 0, 50]);
    assert_eq!(unit(Palette::Extended, 1.0f32.to_bits()), [255, 255, 50]);
    assert_eq!(unit(Palette::Extended, 0.0f32.to_bits()), [0, 0, 50]);
    for x in [-29.4f32, 0.0, 1.5, -1.0e30, 21.35, f32::MIN] {
        for palette in [Palette::Default, Palette::Extended] {
            assert_eq!(color(palette, 23.02, x, 23.02), [255, 255, 50]);
            assert_eq!(color(palette, x, x, 23.02), [0, 0, 50]);
        }
    }
    assert_eq!(color(Palette::Default, f32::MAX, f32::MIN, f32::MAX), [255, 255, 255]);
}

#[test]
fn out_of_range_values() {
    for palette in [Palette::Default, Palette::Extended] {
        assert_eq!(unit(palette, (-0.25f32).to_bits()), [0, 0, 0]);
        assert_eq!(unit(palette, (-1.0e-45f32).to_bits()), [0, 0, 0]);
        assert_eq!(unit(palette, 1.0000001f32.to_bits()), [255, 255, 255]);
        assert_eq!(unit(palette, 7.5f32.to_bits()), [255, 255, 255]);
    }
}

#[test]
fn division_by_zero_is_over_range() {
    for palette in [Palette::Default, Palette::Extended] {
        assert_eq!(color(palette, 1.0, 1.0, 1.0), [255, 255, 255]);
        assert_eq!(color(palette, 2.0, 1.0, 1.0), [255, 255, 255]);
        assert_eq!(color(palette, 0.0, 1.0, 1.0), [0, 0, 0]);
        assert_eq!(unit(palette, f32::NAN.to_bits()), [255, 255, 255]);
        assert_eq!(unit(palette, (-f32::NAN).to_bits()), [255, 255, 255]);
    }
}

#[test]
fn default_palette_follows_the_hardware() {
    let mut bits: u32 = 0;
    while bits <= 1.0f32.to_bits() {
        let scaled = f32::from_bits(bits);
        assert_eq!(unit(Palette::Default, bits), expected_default(scaled), "{}", scaled);
        bits += 7919;
    }
}

#[test]
fn extended_palette_follows_the_hardware() {
    let mut bits: u32 = 0;
    while bits <= 1.0f32.to_bits() {
        let scaled = f32::from_bits(bits);
        assert_eq!(unit(Palette::Extended, bits), expected_extended(scaled), "{}", scaled);
        bits += 7331;
    }
}

#[test]
fn extended_palette_steps_by_thirds() {
    let third = |x: f32| unit(Palette::Extended, (x / 255.0).to_bits());
    assert_eq!(third(10.0), [10, 10, 50]);
    assert_eq!(third(10.25), [10, 10, 50]);
    assert_eq!(third(10.5), [10, 11, 50]);
    assert_eq!(third(10.75), [11, 11, 50]);
    assert_eq!(third(254.9), [255, 255, 50]);
}

#[test]
fn every_integer_level_is_hit() {
    for v in 0..=255u32 {
        let scaled = v as f32 / 255.0;
        let (whole, third) = split_unit(scaled.to_bits());
        assert_eq!((whole as u32, third), (v, 0));
    }
}

#[test]
fn red_and_green_never_fall() {
    for palette in [Palette::Default, Palette::Extended] {
        let mut last = [0u8, 0u8, 50u8];
        let mut bits: u32 = 0;
        while bits <= 1.0f32.to_bits() {
            let c = unit(palette, bits);
            assert!(last[0] <= c[0] && last[1] <= c[1]);
            last = c;
            bits += 4999;
        }
    }
}

#[test]
fn palette_structs_agree_with_the_choice() {
    let mut bits: u32 = 0;
    while bits <= 1.0f32.to_bits() {
        assert_eq!(DefaultPalette {}.get_color(bits), unit(Palette::Default, bits));
        assert_eq!(ExtendedPalette {}.get_color(bits), unit(Palette::Extended, bits));
        assert_eq!(Palettes::Default.get_color(bits), unit(Palette::Default, bits));
        assert_eq!(Palettes::Extended.get_color(bits), unit(Palette::Extended, bits));
        bits += 100_003;
    }
    assert_eq!(DefaultPalette {}.get_color_under_range(), [0, 0, 0]);
    assert_eq!(DefaultPalette {}.get_color_over_range(), [255, 255, 255]);
    assert_eq!(ExtendedPalette {}.get_color_under_range(), [0, 0, 0]);
    assert_eq!(ExtendedPalette {}.get_color_over_range(), [255, 255, 255]);
    assert_eq!(Palettes::Extended.get_color_under_range(), [0, 0, 0]);
    assert_eq!(Palettes::Default.get_color_over_range(), [255, 255, 255]);
}

#[test]
fn colours_rise_with_the_value_on_a_scale() {
    for palette in [Palette::Default, Palette::Extended] {
        let mut last = color(palette, -29.4, -29.4, 21.35);
        assert_eq!(last, [0, 0, 50]);
        let mut value = -29.4f32;
        while value <= 21.35 {
            let c = color(palette, value, -29.4, 21.35);
            assert!(last[0] <= c[0] && last[1] <= c[1] && c[2] == 50, "{}", value);
            last = c;
            value += 0.0137;
        }
        assert_eq!(color(palette, 21.35, -29.4, 21.35), [255, 255, 50]);
    }
}

#[test]
fn every_whole_number_is_its_own_level() {
    for palette in [Palette::Default, Palette::Extended] {
        for v in 0..=255u8 {
            assert_eq!(color(palette, v as f32, 0.0, 255.0), [v, v, 50]);
        }
    }
}
