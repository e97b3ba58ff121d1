use sdr_heatmap::decimal::{binary32, binary64};
use sdr_heatmap::literal::parse_numeral;

fn ours32(text: &str) -> Option<u32> {
    parse_numeral(binary32(), text).map(|bits| bits as u32)
}

fn ours64(text: &str) -> Option<u64> {
    parse_numeral(binary64(), text)
}

fn theirs32(text: &str) -> Option<u32> {
    text.parse::<f32>().ok().map(|v| v.to_bits())
}

fn theirs64(text: &str) -> Option<u64> {
    text.parse::<f64>().ok().map(|v| v.to_bits())
}

fn agree(text: &str) {
    assert_eq!(ours32(text), theirs32(text), "{:?}", text);
    assert_eq!(ours64(text), theirs64(text), "{:?}", text);
}

#[test]
fn numerals_read_like_the_standard_parser() {
    let cases = [
        "0", "-0", "+0", "0.0", "-0.0", "1", "-1", "+1", "1.", ".5", "-.5", "+.5", "1.5", "007",
        "00.500", "-29.40", "21.35", "23.02", "-29.4", "1e5", "1E5", "1e+5", "1e-5", "1.e5",
        ".5e1", "1.5e-3", "1e0", "1e00", "1e-0", "1e000000000000000000000000005",
        "0e999999999999999999999999", "1e999999999999999999999999", "1e-999999999999999999999999",
        "0.0000000000000000000000000000000000000000000001", "3.4028235e38", "3.4028236e38",
        "3.40282357e38", "1e39", "1.17549435e-38", "1.4e-45", "7e-46", "7.1e-46", "1e-46",
        "1.7976931348623157e308", "1.7976931348623159e308", "2.2250738585072014e-308",
        "4.9e-324", "2.4703282292062327e-324", "2.4703282292062328e-324", "1e-325",
        "123456789012345678901234567890", "0.1", "0.2", "0.3", "16777217", "9007199254740993",
        "inf", "-inf", "+inf", "Inf", "INF", "iNf", "infinity", "-Infinity", "INFINITY",
        "infinit", "infinityy", "in", "nan", "NaN", "NAN", "-nan", "+NaN", "nana", "na",
        "", "+", "-", ".", "+.", "-.", "e", "e5", ".e5", "1e", "1e+", "1e-", "1e+-5", "1ee5",
        "1.5.3", "1..5", "--1", "+-1", "1+", "1-", " 1", "1 ", "1 2", "1_000", "0x10", "1f",
        "1,5", "１", "١", "1e５", "∞", "1\u{0}", "\t1", "1\n", "i", "n", "infe5", "nan1",
        "1einf", "1.inf", "+e", "+.e1", "0.e", "1e1.5", "1e1e1",
    ];
    for text in cases {
        agree(text);
    }
}

#[test]
fn random_texts_read_like_the_standard_parser() {
    let alphabet: Vec<char> = "0123456789+-..eE 0159".chars().collect();
    let mut seed: u64 = 0x9E37_79B9_7F4A_7C15;
    for _ in 0..20000 {
        seed ^= seed << 13;
        seed ^= seed >> 7;
        seed ^= seed << 17;
        let len = (seed % 9) as usize;
        let mut text = String::new();
        let mut s = seed;
        for _ in 0..len {
            s = s.wrapping_mul(6364136223846793005).wrapping_add(1442695040888963407);
            text.push(alphabet[(s >> 33) as usize % alphabet.len()]);
        }
        agree(&text);
    }
}

#[test]
fn random_numerals_read_like_the_standard_parser() {
    let mut seed: u64 = 0x1234_5678_9ABC_DEF1;
    let mut next = move |n: u64| {
        seed ^= seed << 13;
        seed ^= seed >> 7;
        seed ^= seed << 17;
        seed % n
    };
    for _ in 0..5000 {
        let mut text = String::new();
        match next(3) {
            0 => text.push('-'),
            1 => text.push('+'),
            _ => {}
        }
        for _ in 0..next(12) {
            text.push((b'0' + next(10) as u8) as char);
        }
        if next(2) == 0 {
            text.push('.');
            for _ in 0..next(12) {
                text.push((b'0' + next(10) as u8) as char);
            }
        }
        if next(2) == 0 {
            text.push(if next(2) == 0 { 'e' } else { 'E' });
            match next(3) {
                0 => text.push('-'),
                1 => text.push('+'),
                _ => {}
            }
            text.push_str(&next(340).to_string());
        }
        agree(&text);
    }
}

#[test]
fn every_printed_number_reads_back() {
    let mut bits: u32 = 0;
    while bits < 0x7F80_0000 {
        let value = f32::from_bits(bits);
        assert_eq!(ours32(&format!("{}", value)), Some(bits));
        assert_eq!(ours32(&format!("{:e}", -value)), Some(bits | 0x8000_0000));
        assert_eq!(ours32(&format!("{:.2}", value)), theirs32(&format!("{:.2}", value)));
        bits += 1_000_003;
    }
    let mut wide: u64 = 0;
    while wide < 0x7FF0_0000_0000_0000 {
        let value = f64::from_bits(wide);
        assert_eq!(ours64(&format!("{:e}", value)), Some(wide));
        wide += 0x0003_1415_9265_3589;
    }
}
