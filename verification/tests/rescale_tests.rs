use sdr_heatmap::rescale::{divide, rescale, subtract};
use sdr_heatmap::rounding::{compare_scaled, compare_shifted, round_scaled, split, Relation};

fn same(ours: u32, theirs: f32) -> bool {
    if theirs.is_nan() {
        f32::from_bits(ours).is_nan()
    } else {
        ours == theirs.to_bits()
    }
}

fn patterns() -> Vec<u32> {
    let mut out = vec![
        0,
        1,
        2,
        0x007F_FFFF,
        0x0080_0000,
        0x0080_0001,
        0x00FF_FFFF,
        0x0100_0000,
        0x3F7F_FFFF,
        0x3F80_0000,
        0x3F80_0001,
        0x4000_0000,
        0x4B00_0000,
        0x4B80_0000,
        0x7F00_0000,
        0x7F7F_FFFF,
        0x7F80_0000,
        0x7FC0_0000,
        0x7F80_0001,
        (-29.4f32).to_bits(),
        23.02f32.to_bits(),
        21.35f32.to_bits(),
        0.1f32.to_bits(),
        255.0f32.to_bits(),
        1.0e-40f32.to_bits(),
        3.0e38f32.to_bits(),
    ];
    let mut seed: u32 = 0x1234_5678;
    for _ in 0..120 {
        seed = seed.wrapping_mul(1664525).wrapping_add(1013904223);
        out.push(seed & 0x7FFF_FFFF);
    }
    let positive = out.clone();
    for p in positive {
        out.push(p | 0x8000_0000);
    }
    out
}

#[test]
fn subtraction_follows_the_hardware() {
    let all = patterns();
    for a in &all {
        for b in &all {
            let theirs = f32::from_bits(*a) - f32::from_bits(*b);
            assert!(same(subtract(*a, *b), theirs), "{:#x} - {:#x}", a, b);
        }
    }
}

#[test]
fn subtraction_of_neighbours_follows_the_hardware() {
    let mut seed: u32 = 99;
    for _ in 0..20000 {
        seed = seed.wrapping_mul(1664525).wrapping_add(1013904223);
        let a = seed & 0x7F7F_FFFF;
        seed = seed.wrapping_mul(1664525).wrapping_add(1013904223);
        let shift = (seed >> 8) % 0x2000_0000;
        let b = a.wrapping_sub(shift) & 0x7FFF_FFFF;
        for (x, y) in [(a, b), (b, a), (a | 0x8000_0000, b), (a, b | 0x8000_0000)] {
            let theirs = f32::from_bits(x) - f32::from_bits(y);
            assert!(same(subtract(x, y), theirs), "{:#x} - {:#x}", x, y);
        }
    }
}

#[test]
fn division_follows_the_hardware() {
    let all = patterns();
    for a in &all {
        for b in &all {
            let theirs = f32::from_bits(*a) / f32::from_bits(*b);
            assert!(same(divide(*a, *b), theirs), "{:#x} / {:#x}", a, b);
        }
    }
}

#[test]
fn rescaling_follows_the_hardware() {
    let mut seed: u32 = 7;
    let mut next = move || {
        seed = seed.wrapping_mul(1664525).wrapping_add(1013904223);
        ((seed >> 8) as f32 / 16777216.0) * 80.0 - 40.0
    };
    for _ in 0..20000 {
        let (a, b, c) = (next(), next(), next());
        let min = a.min(b).min(c);
        let max = a.max(b).max(c);
        for value in [a, b, c] {
            let theirs = (value - min) / (max - min);
            assert!(same(rescale(value.to_bits(), min.to_bits(), max.to_bits()), theirs));
        }
    }
    let all = patterns();
    for value in all.iter().step_by(7) {
        for min in all.iter().step_by(11) {
            for max in all.iter().step_by(13) {
                let (v, lo, hi) = (f32::from_bits(*value), f32::from_bits(*min), f32::from_bits(*max));
                assert!(same(rescale(*value, *min, *max), (v - lo) / (hi - lo)));
            }
        }
    }
}

#[test]
fn rescaling_gives_the_ends_of_the_range() {
    assert_eq!(
        rescale(23.02f32.to_bits(), (-29.4f32).to_bits(), 23.02f32.to_bits()),
        1.0f32.to_bits()
    );
    assert_eq!(
        rescale((-29.4f32).to_bits(), (-29.4f32).to_bits(), 23.02f32.to_bits()),
        0.0f32.to_bits()
    );
    assert_eq!(rescale(3.0f32.to_bits(), 1.0f32.to_bits(), 5.0f32.to_bits()), 0.5f32.to_bits());
    assert_eq!(
        rescale(f32::INFINITY.to_bits(), 0.0f32.to_bits(), 1.0f32.to_bits()),
        f32::INFINITY.to_bits()
    );
    assert!(f32::from_bits(rescale(1.0f32.to_bits(), 1.0f32.to_bits(), 1.0f32.to_bits())).is_nan());
}

#[test]
fn scaled_numbers_compare_exactly() {
    assert_eq!(compare_shifted(3, 2, 12), Relation::Equal);
    assert_eq!(compare_shifted(3, 2, 13), Relation::Less);
    assert_eq!(compare_shifted(3, 2, 11), Relation::Greater);
    assert_eq!(compare_shifted(0, 200, 0), Relation::Equal);
    assert_eq!(compare_shifted(0, 200, 1), Relation::Less);
    assert_eq!(compare_shifted(1, 64, u64::MAX), Relation::Greater);
    assert_eq!(compare_shifted(1, 63, 1 << 63), Relation::Equal);
    assert_eq!(compare_scaled(5, 700, 10, 699), Relation::Equal);
    assert_eq!(compare_scaled(5, 700, 11, 699), Relation::Less);
    assert_eq!(compare_scaled(5, 3, 1, 5), Relation::Greater);
    assert_eq!(compare_scaled(1, 0, 1, 900), Relation::Less);
}

#[test]
fn rounding_finds_the_nearest_pattern() {
    assert_eq!(split(1.0f32.to_bits()), (0x80_0000, 126));
    assert_eq!(split(5), (5, 0));
    assert_eq!(round_scaled(0x80_0000, 126, 1, 0), 1.0f32.to_bits());
    assert_eq!(round_scaled(1, 149, 3, 0), (1.0f32 / 3.0).to_bits());
    assert_eq!(round_scaled(2, 149, 3, 0), (2.0f32 / 3.0).to_bits());
    assert_eq!(round_scaled(1, 0, 2, 0), 0);
    assert_eq!(round_scaled(3, 0, 2, 0), 2);
    assert_eq!(round_scaled(1, 0, 1, 1000), 0);
    assert_eq!(round_scaled(1, 1000, 1, 0), f32::INFINITY.to_bits());
    assert_eq!(round_scaled(0xFF_FFFF, 253, 1, 0), f32::MAX.to_bits());
    assert_eq!(round_scaled(0x1FF_FFFF, 252, 1, 0), f32::INFINITY.to_bits());
    assert_eq!(round_scaled(0x1FF_FFFE, 252, 1, 0), f32::MAX.to_bits());
    assert_eq!(round_scaled(0x1FF_FFFD, 252, 1, 0), f32::MAX.to_bits() - 1);
}
