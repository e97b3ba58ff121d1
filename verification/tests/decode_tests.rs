use sdr_heatmap::decode::nan_token;
use sdr_heatmap::number::parse_unsigned;
use sdr_heatmap::{preprocess, preprocess_iter, DecodeError, Field, Measurement};

fn fields(text: &str) -> Vec<String> {
    text.split(',').map(|s| s.trim().to_string()).collect()
}

fn decode(text: &str) -> Result<Measurement, DecodeError> {
    Measurement::new(&fields(text))
}

#[test]
fn a_row_decodes_to_its_fields() {
    let m = decode("2020-04-01, 12:00:05, 88000000, 108000000, 125000.5, 16, -29.40, 1.5, 21.35, 0.0")
        .unwrap();
    assert_eq!(m.date, "2020-04-01");
    assert_eq!(m.time, "12:00:05");
    assert_eq!(m.freq_low, 88_000_000);
    assert_eq!(m.freq_high, 108_000_000);
    assert_eq!(m.freq_step, 125000.5f64.to_bits());
    assert_eq!(m.samples, 16);
    assert_eq!(
        m.values,
        vec![(-29.40f32).to_bits(), 1.5f32.to_bits(), 21.35f32.to_bits()]
    );
}

#[test]
fn the_only_field_after_the_header_is_kept() {
    let m = decode("d,t,1,2,3.0,4,7.5").unwrap();
    assert_eq!(m.values, vec![7.5f32.to_bits()]);
    let m = decode("d,t,1,2,3.0,4,7.5,8.5").unwrap();
    assert_eq!(m.values, vec![7.5f32.to_bits()]);
}

#[test]
fn nan_tokens_decode_to_not_a_number() {
    let m = decode("d,t,1,2,3.0,4,-nan,1.0,nan,2.0,0").unwrap();
    assert_eq!(m.values.len(), 4);
    assert!(f32::from_bits(m.values[0]).is_nan());
    assert_eq!(m.values[1], 1.0f32.to_bits());
    assert!(f32::from_bits(m.values[2]).is_nan());
    assert_eq!(m.values[3], 2.0f32.to_bits());
    let rows = vec![m];
    let sum = preprocess(&rows).unwrap();
    assert_eq!((sum.min, sum.max, sum.width), (1.0f32.to_bits(), 2.0f32.to_bits(), 4));
    assert_eq!(preprocess_iter(&rows), Ok(sum));
}

#[test]
fn nan_tokens_are_exact() {
    assert!(nan_token(&"nan".to_string()));
    assert!(nan_token(&"-nan".to_string()));
    assert!(!nan_token(&"NaN".to_string()));
    assert!(!nan_token(&" nan".to_string()));
    assert!(!nan_token(&"+nan".to_string()));
    assert!(!nan_token(&"".to_string()));
    let m = decode("d,t,1,2,3.0,4,nan,-nan,x");
    assert_eq!(m.err(), Some(DecodeError::Malformed(Field::Value(2))));
    let m = decode("d,t,1,2,3.0,4,nan,-nan,nan").unwrap();
    assert_eq!(m.values, vec![0x7FC0_0000, 0x7FC0_0000]);
    let m = decode("d,t,1,2,3.0,4,NaN,-NaN,inf,-Infinity,0").unwrap();
    assert_eq!(m.values, vec![0x7FC0_0000, 0xFFC0_0000, 0x7F80_0000, 0xFF80_0000]);
}

#[test]
fn a_short_row_names_the_field_it_ends_before() {
    assert_eq!(Measurement::new(&vec![]).err(), Some(DecodeError::Missing(Field::Date)));
    assert_eq!(decode("d").err(), Some(DecodeError::Missing(Field::Time)));
    assert_eq!(decode("d,t").err(), Some(DecodeError::Missing(Field::FreqLow)));
    assert_eq!(decode("d,t,1").err(), Some(DecodeError::Missing(Field::FreqHigh)));
    assert_eq!(decode("d,t,1,2").err(), Some(DecodeError::Missing(Field::FreqStep)));
    assert_eq!(decode("d,t,1,2,3.0").err(), Some(DecodeError::Missing(Field::Samples)));
    assert_eq!(decode("d,t,1,2,3.0,4").err(), Some(DecodeError::Missing(Field::Value(0))));
}

#[test]
fn a_bad_field_is_named() {
    assert_eq!(
        decode("d,t,1,2,3.0,4,1.0,x,2.0,y").err(),
        Some(DecodeError::Malformed(Field::Value(1)))
    );
    assert_eq!(
        decode("d,t,1,2,3.0,4,1.0,2.0,oops").err(),
        Some(DecodeError::Malformed(Field::Value(2)))
    );
    assert_eq!(
        decode("d,t,-1,2,3.0,4,1.0,2.0").err(),
        Some(DecodeError::Malformed(Field::FreqLow))
    );
    assert_eq!(
        decode("d,t,1,2.5,3.0,4,1.0,2.0").err(),
        Some(DecodeError::Malformed(Field::FreqHigh))
    );
    assert_eq!(
        decode("d,t,1,2,step,4,1.0,2.0").err(),
        Some(DecodeError::Malformed(Field::FreqStep))
    );
    assert_eq!(
        decode("d,t,1,2,3.0,4294967296,1.0,2.0").err(),
        Some(DecodeError::Malformed(Field::Samples))
    );
    assert_eq!(
        decode("d,t,x,y,z,w,1.0,bad").err(),
        Some(DecodeError::Malformed(Field::Value(1)))
    );
}

#[test]
fn unsigned_numbers_read_like_the_standard_parser() {
    let cases = [
        "0",
        "7",
        "+5",
        "007",
        "",
        "+",
        "-1",
        "1a",
        "a1",
        " 1",
        "1 ",
        "++1",
        "18446744073709551615",
        "18446744073709551616",
        "99999999999999999999999",
        "4294967295",
        "4294967296",
        "١٢٣",
    ];
    for text in cases {
        assert_eq!(parse_unsigned(text, u64::MAX), text.parse::<u64>().ok(), "{:?}", text);
        assert_eq!(
            parse_unsigned(text, u32::MAX as u64),
            text.parse::<u32>().ok().map(|v| v as u64),
            "{:?}",
            text
        );
    }
    assert_eq!(parse_unsigned("255", 255), Some(255));
    assert_eq!(parse_unsigned("256", 255), None);
    assert_eq!(parse_unsigned("0", 0), Some(0));
    assert_eq!(parse_unsigned("1", 0), None);
}

#[test]
fn rows_decode_like_the_standard_parsers() {
    let rows = [
        "2020-04-01,12:00:05,88000000,108000000,125000.5,16,-29.40,1.5,21.35,0.0",
        "d,t,1,2,1e3,4,1e-3,+2.5E2,.5,7.,0",
        "d,t,+1,002,0.1,4,3.4028236e38,1e-46,-0,0",
        "d,t,1,2,inf,4,0.30000001192092896,16777217,0",
    ];
    for text in rows {
        let record = fields(text);
        let m = Measurement::new(&record).unwrap();
        assert_eq!(m.freq_low, record[2].parse::<u64>().unwrap());
        assert_eq!(m.freq_high, record[3].parse::<u64>().unwrap());
        assert_eq!(m.freq_step, record[4].parse::<f64>().unwrap().to_bits());
        assert_eq!(m.samples, record[5].parse::<u32>().unwrap());
        let expected: Vec<u32> = record[6..record.len() - 1]
            .iter()
            .map(|s| s.parse::<f32>().unwrap().to_bits())
            .collect();
        assert_eq!(m.values, expected);
    }
}

#[test]
fn white_space_around_a_field_does_not_count() {
    let record: Vec<String> = [
        " 2020-04-01 ",
        "\t12:00:05",
        " 88000000",
        "108000000 ",
        "\u{3000}125000.5\u{A0}",
        " 16 ",
        " -29.40",
        "nan ",
        " -nan\n",
        "\u{2003}21.35\u{2003}",
        " 0 ",
    ]
    .iter()
    .map(|s| s.to_string())
    .collect();
    let m = Measurement::new(&record).unwrap();
    assert_eq!(m.date, "2020-04-01");
    assert_eq!(m.time, "12:00:05");
    assert_eq!((m.freq_low, m.freq_high, m.samples), (88_000_000, 108_000_000, 16));
    assert_eq!(m.freq_step, 125000.5f64.to_bits());
    assert_eq!(
        m.values,
        vec![(-29.40f32).to_bits(), 0x7FC0_0000, 0x7FC0_0000, 21.35f32.to_bits()]
    );
    let inner: Vec<String> = ["d", "t", "1", "2", "3.0", "4", "1 .5", "0"]
        .iter()
        .map(|s| s.to_string())
        .collect();
    assert_eq!(
        Measurement::new(&inner).err(),
        Some(DecodeError::Malformed(Field::Value(0)))
    );
    let blank: Vec<String> = ["d", "t", "1", "2", "3.0", "4", "1.5", " "]
        .iter()
        .map(|s| s.to_string())
        .collect();
    assert_eq!(
        Measurement::new(&blank).err(),
        Some(DecodeError::Malformed(Field::Value(1)))
    );
}

#[test]
fn trimming_follows_the_standard_one() {
    let texts = [
        "", " ", "a", " a", "a ", " a b ", "\t\n\r a\u{B}\u{C}", "\u{85}x\u{A0}", "\u{1680}\u{2000}\u{200A}y\u{2028}\u{2029}",
        "\u{202F}\u{205F}\u{3000}", "\u{200B}z\u{200B}", "\u{180E}w", "\u{FEFF}v ", "  nan  ", "\u{1F}u\u{1C}",
    ];
    for text in texts {
        assert_eq!(sdr_heatmap::trim::trim(text), text.trim(), "{:?}", text);
    }
    for code in 0..=0x10FFFFu32 {
        if let Some(c) = char::from_u32(code) {
            assert_eq!(sdr_heatmap::trim::white_space(c), c.is_whitespace(), "{:#x}", code);
        }
    }
}
