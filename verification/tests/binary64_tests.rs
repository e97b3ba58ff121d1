use sdr_heatmap::binary64::{from_integer, plus, times};
use sdr_heatmap::Measurement;

fn same(ours: u64, theirs: f64) -> bool {
    if theirs.is_nan() {
        f64::from_bits(ours).is_nan()
    } else {
        ours == theirs.to_bits()
    }
}

fn wide_patterns() -> Vec<u64> {
    let mut out = vec![
        0,
        1,
        2,
        0x000F_FFFF_FFFF_FFFF,
        0x0010_0000_0000_0000,
        0x0010_0000_0000_0001,
        0x3FF0_0000_0000_0000,
        0x3FEF_FFFF_FFFF_FFFF,
        0x3FF0_0000_0000_0001,
        0x4340_0000_0000_0000,
        0x4340_0000_0000_0001,
        0x7FE0_0000_0000_0000,
        0x7FEF_FFFF_FFFF_FFFF,
        0x7FF0_0000_0000_0000,
        0x7FF8_0000_0000_0000,
        0x7FF0_0000_0000_0001,
        125000.5f64.to_bits(),
        88_000_000.0f64.to_bits(),
        0.1f64.to_bits(),
        1.0e-310f64.to_bits(),
        1.0e300f64.to_bits(),
        1.0e-300f64.to_bits(),
    ];
    let mut seed: u64 = 0x0123_4567_89AB_CDEF;
    for _ in 0..60 {
        seed ^= seed << 13;
        seed ^= seed >> 7;
        seed ^= seed << 17;
        out.push(seed & 0x7FFF_FFFF_FFFF_FFFF);
        out.push(0x3FF0_0000_0000_0000u64.wrapping_add(seed >> 12) & 0x7FFF_FFFF_FFFF_FFFF);
    }
    let positive = out.clone();
    for p in positive {
        out.push(p | 0x8000_0000_0000_0000);
    }
    out
}

#[test]
fn whole_numbers_convert_like_the_hardware() {
    let mut cases = vec![
        0u64,
        1,
        2,
        3,
        255,
        88_000_000,
        (1 << 53) - 1,
        1 << 53,
        (1 << 53) + 1,
        (1 << 53) + 2,
        (1 << 53) + 3,
        (1 << 54) + 2,
        (1 << 54) + 6,
        u64::MAX,
        u64::MAX - 1024,
        u64::MAX - 1023,
        1 << 63,
    ];
    let mut seed: u64 = 77;
    for _ in 0..500 {
        seed ^= seed << 13;
        seed ^= seed >> 7;
        seed ^= seed << 17;
        cases.push(seed);
        cases.push(seed >> (seed % 64));
    }
    for n in cases {
        assert_eq!(from_integer(n), (n as f64).to_bits(), "{}", n);
    }
}

#[test]
fn multiplication_follows_the_hardware() {
    let all = wide_patterns();
    for a in &all {
        for b in &all {
            let theirs = f64::from_bits(*a) * f64::from_bits(*b);
            assert!(same(times(*a, *b), theirs), "{:#x} * {:#x}", a, b);
        }
    }
}

#[test]
fn addition_follows_the_hardware() {
    let all = wide_patterns();
    for a in &all {
        for b in &all {
            let theirs = f64::from_bits(*a) + f64::from_bits(*b);
            assert!(same(plus(*a, *b), theirs), "{:#x} + {:#x}", a, b);
        }
    }
}

#[test]
fn addition_of_neighbours_follows_the_hardware() {
    let mut seed: u64 = 4242;
    for _ in 0..3000 {
        seed ^= seed << 13;
        seed ^= seed >> 7;
        seed ^= seed << 17;
        let a = seed & 0x7FEF_FFFF_FFFF_FFFF;
        let b = a.wrapping_sub((seed >> 9) % 0x0400_0000_0000_0000) & 0x7FFF_FFFF_FFFF_FFFF;
        for (x, y) in [(a, b), (b, a), (a | 1 << 63, b), (a, b | 1 << 63)] {
            let theirs = f64::from_bits(x) + f64::from_bits(y);
            assert!(same(plus(x, y), theirs), "{:#x} + {:#x}", x, y);
        }
    }
}

#[test]
fn every_bin_gets_its_frequency() {
    let m = Measurement {
        date: "2020-01-01".to_string(),
        time: "10:00:00".to_string(),
        freq_low: 88_000_000,
        freq_high: 108_000_000,
        freq_step: 122070.31f64.to_bits(),
        samples: 16,
        values: (0..200).map(|i| (i as f32 * 0.25 - 30.0).to_bits()).collect(),
    };
    let with_freq = m.get_values_with_freq();
    assert_eq!(with_freq.len(), 200);
    for (i, (freq, value)) in with_freq.iter().enumerate() {
        let expected = (i as f64) * 122070.31f64 + (88_000_000u64 as f64);
        assert_eq!(*freq, expected.to_bits());
        assert_eq!(*value, m.values[i]);
    }
    assert_eq!(with_freq[0].0, 88_000_000.0f64.to_bits());
}
