use sdr_heatmap::binary32;
use sdr_heatmap::summary::Summary;
use sdr_heatmap::{preprocess, preprocess_iter, AggregationError, Measurement};

fn row(date: &str, time: &str, values: &[f32]) -> Measurement {
    Measurement {
        date: date.to_string(),
        time: time.to_string(),
        freq_low: 88_000_000,
        freq_high: 108_000_000,
        freq_step: 125_000.0f64.to_bits(),
        samples: 16,
        values: values.iter().map(|v| v.to_bits()).collect(),
    }
}

fn summary(min: f32, max: f32, width: usize) -> Summary {
    Summary { min: min.to_bits(), max: max.to_bits(), width }
}

#[test]
fn both_strategies_give_the_bounds_and_the_width() {
    let rows = vec![
        row("2020-01-01", "10:00:00", &[-29.4, 3.5, 0.25]),
        row("2020-01-01", "10:00:00", &[1.0, 21.35]),
        row("2020-01-01", "10:00:10", &[-3.0, 4.0, 5.0]),
        row("2020-01-01", "10:00:10", &[6.0, 7.0]),
    ];
    let expected = Ok(summary(-29.4, 21.35, 5));
    assert_eq!(preprocess(&rows), expected);
    assert_eq!(preprocess_iter(&rows), expected);
}

#[test]
fn strategies_agree_on_awkward_input() {
    let specials = [
        f32::NAN,
        f32::INFINITY,
        f32::NEG_INFINITY,
        0.0,
        -0.0,
        1.0e-45,
        -1.0e-45,
        f32::MAX,
        f32::MIN,
        5.0,
        -5.0,
    ];
    let times = ["a", "a", "b", "a", "c", "c", "c", "d"];
    let mut seed: u32 = 12345;
    for round in 0..200 {
        let mut rows = Vec::new();
        for (k, time) in times.iter().enumerate() {
            let mut values = Vec::new();
            for _ in 0..((round + k) % 4) {
                seed = seed.wrapping_mul(1664525).wrapping_add(1013904223);
                values.push(specials[(seed >> 16) as usize % specials.len()]);
            }
            rows.push(row("d", time, &values));
        }
        assert_eq!(preprocess(&rows), preprocess_iter(&rows));
    }
}

#[test]
fn no_rows_is_an_error() {
    assert_eq!(preprocess(&Vec::new()), Err(AggregationError::NoRows));
    assert_eq!(preprocess_iter(&Vec::new()), Err(AggregationError::NoRows));
}

#[test]
fn width_comes_from_the_first_row_of_distinct_timestamps() {
    let rows: Vec<Measurement> = (0..4)
        .map(|i| row("2020-01-01", &format!("10:00:0{}", i), &[1.0, 2.0, 3.0, 4.0, 5.0]))
        .collect();
    assert_eq!(preprocess(&rows), Ok(summary(1.0, 5.0, 5)));
    assert_eq!(preprocess_iter(&rows), Ok(summary(1.0, 5.0, 5)));
}

#[test]
fn width_counts_the_first_sweep_only() {
    let rows = vec![
        row("d", "t0", &[1.0, 2.0]),
        row("d", "t0", &[3.0]),
        row("d", "t1", &[4.0, 5.0, 6.0]),
        row("d", "t0", &[7.0, 8.0, 9.0, 10.0]),
    ];
    assert_eq!(preprocess(&rows), Ok(summary(1.0, 10.0, 3)));
    assert_eq!(preprocess_iter(&rows), Ok(summary(1.0, 10.0, 3)));
}

#[test]
fn the_key_joins_date_and_time_with_a_space() {
    let rows = vec![
        row("a b", "c", &[1.0]),
        row("a", "b c", &[2.0, 3.0]),
        row("a", "bc", &[4.0]),
    ];
    assert_eq!(rows[0].timestamp_key(), "a b c");
    assert_eq!(preprocess(&rows), Ok(summary(1.0, 4.0, 3)));
    assert_eq!(preprocess_iter(&rows), Ok(summary(1.0, 4.0, 3)));
}

#[test]
fn not_a_number_counts_toward_the_width_only() {
    let rows = vec![row("d", "t", &[2.0, f32::NAN, -7.0, f32::NAN])];
    assert_eq!(preprocess(&rows), Ok(summary(-7.0, 2.0, 4)));
    assert_eq!(preprocess_iter(&rows), Ok(summary(-7.0, 2.0, 4)));
}

#[test]
fn infinities_are_left_out_of_the_bounds() {
    let rows = vec![row("d", "t", &[5.0, f32::INFINITY, 3.0, f32::NEG_INFINITY, 4.0])];
    assert_eq!(preprocess(&rows), Ok(summary(3.0, 5.0, 5)));
    assert_eq!(preprocess_iter(&rows), Ok(summary(3.0, 5.0, 5)));
}

#[test]
fn without_a_finite_value_the_bounds_stay_open() {
    let rows = vec![row("d", "t", &[f32::NAN, f32::INFINITY, f32::NEG_INFINITY])];
    let expected = Ok(summary(f32::INFINITY, f32::NEG_INFINITY, 3));
    assert_eq!(preprocess(&rows), expected);
    assert_eq!(preprocess_iter(&rows), expected);
}

#[test]
fn a_row_without_values_gives_width_zero() {
    let rows = vec![row("d", "t", &[]), row("d", "u", &[1.0])];
    assert_eq!(preprocess(&rows), Ok(summary(1.0, 1.0, 0)));
    assert_eq!(preprocess_iter(&rows), Ok(summary(1.0, 1.0, 0)));
}

#[test]
fn summary_empty_and_single() {
    let empty = Summary::empty();
    assert_eq!(empty, summary(f32::INFINITY, f32::NEG_INFINITY, 0));
    assert_eq!(Summary::single(2.5f32.to_bits(), 7), summary(2.5, 2.5, 7));
    assert_eq!(
        Summary::single(f32::NAN.to_bits(), 7),
        summary(f32::INFINITY, f32::NEG_INFINITY, 7)
    );
}

#[test]
fn summary_update_follows_the_rule() {
    let start = Summary::empty();
    let one = Summary::update(start, 4.0f32.to_bits(), 3);
    assert_eq!(one, summary(4.0, 4.0, 3));
    let two = Summary::update(one, (-1.5f32).to_bits(), 9);
    assert_eq!(two, summary(-1.5, 4.0, 9));
    let three = Summary::update(two, f32::NAN.to_bits(), 2);
    assert_eq!(three, summary(-1.5, 4.0, 2));
    let four = Summary::update(three, f32::NEG_INFINITY.to_bits(), 2);
    assert_eq!(four, summary(-1.5, 4.0, 2));
    let five = Summary::update(four, 8.0f32.to_bits(), 2);
    assert_eq!(five, summary(-1.5, 8.0, 2));
}

#[test]
fn combine_is_associative_and_commutative() {
    let parts = [
        Summary::empty(),
        summary(1.0, 2.0, 0),
        summary(-3.0, 0.5, 4),
        summary(0.0, 0.0, 1),
        summary(-0.0, -0.0, 1),
        summary(f32::MAX, f32::MAX, 2),
        summary(f32::INFINITY, 7.0, 2),
        summary(-7.0, f32::NEG_INFINITY, 2),
    ];
    for a in parts {
        for b in parts {
            let ab = Summary::combine(a, b);
            let ba = Summary::combine(b, a);
            assert_eq!((ab.min, ab.max), (ba.min, ba.max));
            for c in parts {
                assert_eq!(
                    Summary::combine(a, Summary::combine(b, c)),
                    Summary::combine(Summary::combine(a, b), c)
                );
            }
        }
    }
}

#[test]
fn combine_merges_bounds_and_keeps_the_first_width() {
    let a = summary(-2.0, 3.0, 5);
    let b = summary(-1.0, 9.0, 8);
    assert_eq!(Summary::combine(a, b), summary(-2.0, 9.0, 5));
    assert_eq!(Summary::combine(Summary::empty(), b), b);
    assert_eq!(Summary::combine(summary(1.0, 1.0, 0), b), summary(-1.0, 9.0, 8));
}

#[test]
fn bit_patterns_are_ordered_like_the_numbers() {
    let values = [
        f32::NEG_INFINITY,
        f32::MIN,
        -2.5,
        -1.0e-45,
        -0.0,
        0.0,
        1.0e-45,
        1.0,
        1.0000001,
        f32::MAX,
        f32::INFINITY,
        f32::NAN,
    ];
    for a in values {
        assert_eq!(binary32::nan(a.to_bits()), a.is_nan());
        assert_eq!(binary32::finite(a.to_bits()), a.is_finite());
        for b in values {
            assert_eq!(binary32::lt(a.to_bits(), b.to_bits()), a < b, "{} < {}", a, b);
            if a != b || a.to_bits() == b.to_bits() {
                if !(a.is_nan() && b.is_nan()) {
                    assert_eq!(binary32::min(a.to_bits(), b.to_bits()), a.min(b).to_bits());
                    assert_eq!(binary32::max(a.to_bits(), b.to_bits()), a.max(b).to_bits());
                }
            }
        }
    }
    assert_eq!(binary32::min(0.0f32.to_bits(), (-0.0f32).to_bits()), (-0.0f32).to_bits());
    assert_eq!(binary32::max((-0.0f32).to_bits(), 0.0f32.to_bits()), 0.0f32.to_bits());
    assert_eq!(binary32::order_key((-0.0f32).to_bits()), -1);
    assert_eq!(binary32::order_key(1.0f32.to_bits()), 0x3F80_0000);
    assert_eq!(binary32::abs_bits((-1.0f32).to_bits()), 1.0f32.to_bits());
    assert_eq!(binary32::POS_INFINITY, f32::INFINITY.to_bits());
    assert_eq!(binary32::NEG_INFINITY, f32::NEG_INFINITY.to_bits());
    assert_eq!(binary32::ONE, 1.0f32.to_bits());
    assert!(f32::from_bits(binary32::NAN).is_nan());
}

#[test]
fn merging_a_stray_infinity_depends_on_the_order() {
    let open = summary(f32::INFINITY, f32::NEG_INFINITY, 0);
    let stray = summary(f32::NEG_INFINITY, f32::INFINITY, 0);
    assert_eq!(Summary::combine(open, stray).min, f32::NEG_INFINITY.to_bits());
    assert_eq!(Summary::combine(stray, open).min, f32::INFINITY.to_bits());
    let one = summary(1.0, 1.0, 0);
    let five = summary(5.0, 5.0, 0);
    assert_eq!(Summary::combine(one, Summary::combine(stray, five)).min, 1.0f32.to_bits());
    assert_eq!(Summary::combine(Summary::combine(one, stray), five).min, 5.0f32.to_bits());
}
