use flate2::write::GzEncoder;
use flate2::Compression;
use image::png::PngDecoder;
use image::ImageDecoder;
use sdr_heatmap::source::gzip_extension;
use sdr_heatmap::{open_file, read_file, save_image, EncodeError, SourceError};
use std::io::Write;

fn gzip(data: &[u8]) -> Vec<u8> {
    let mut encoder = GzEncoder::new(Vec::new(), Compression::default());
    encoder.write_all(data).unwrap();
    encoder.finish().unwrap()
}

#[test]
fn only_gz_marks_a_gzip_stream() {
    assert!(gzip_extension(Some("gz")));
    assert!(!gzip_extension(Some("GZ")));
    assert!(!gzip_extension(Some("csv")));
    assert!(!gzip_extension(Some("")));
    assert!(!gzip_extension(None));
}

#[test]
fn plain_content_passes_through() {
    let text = b"a,b,c\n".to_vec();
    assert_eq!(open_file(Some("csv"), text.clone()), Ok(text.clone()));
    assert_eq!(open_file(None, text.clone()), Ok(text.clone()));
    let packed = gzip(&text);
    assert_eq!(open_file(Some("csv"), packed.clone()), Ok(packed));
}

#[test]
fn gzip_content_is_unpacked() {
    let text = b"2020-01-01, 10:00:00, 1, 2, 3.0, 4, -29.40, 21.35, 0\n".to_vec();
    let packed = gzip(&text);
    assert_ne!(packed, text);
    assert_eq!(open_file(Some("gz"), packed), Ok(text));
    assert_eq!(open_file(Some("gz"), gzip(b"")), Ok(Vec::new()));
}

#[test]
fn broken_gzip_content_is_refused() {
    assert_eq!(open_file(Some("gz"), b"a,b,c\n".to_vec()), Err(SourceError::Gzip));
    let mut packed = gzip(b"some text that is long enough to be cut in the middle");
    packed.truncate(packed.len() / 2);
    assert_eq!(open_file(Some("gz"), packed), Err(SourceError::Gzip));
}

#[test]
fn rows_are_cut_and_trimmed() {
    let text = b"2020-01-01, 10:00:00, 1, 2, 3.0, 4,  -29.40 ,\t21.35, 0\nd,t ,5,6,7,8,nan , -nan,x y\n";
    let rows = read_file(text).unwrap();
    assert_eq!(
        rows,
        vec![
            vec!["2020-01-01", "10:00:00", "1", "2", "3.0", "4", "-29.40", "21.35", "0"],
            vec!["d", "t", "5", "6", "7", "8", "nan", "-nan", "x y"],
        ]
    );
    assert_eq!(read_file(b""), Ok(Vec::new()));
    assert_eq!(read_file(b"\"a, b\",c\n"), Ok(vec![vec!["a, b".to_string(), "c".to_string()]]));
}

#[test]
fn the_first_row_is_no_header() {
    let rows = read_file(b"date,time\n1,2\n").unwrap();
    assert_eq!(rows.len(), 2);
    assert_eq!(rows[0], vec!["date", "time"]);
}

#[test]
fn ragged_or_broken_text_is_refused() {
    assert_eq!(read_file(b"a,b,c\nd,e\n"), Err(SourceError::Csv));
    assert_eq!(read_file(b"a,\xff\xfe,c\n"), Err(SourceError::Csv));
}

#[test]
fn a_picture_becomes_a_png_file() {
    let data: Vec<u8> = (0..3 * 2 * 3).map(|i| (i * 13) as u8).collect();
    let png = save_image(3, 2, &data).unwrap();
    assert_eq!(&png[..8], &[137, 80, 78, 71, 13, 10, 26, 10]);
    assert_ne!(png, data);
    let decoder = PngDecoder::new(&png[..]).unwrap();
    assert_eq!(decoder.dimensions(), (3, 2));
    assert_eq!(decoder.color_type(), image::ColorType::Rgb8);
    let mut back = vec![0u8; decoder.total_bytes() as usize];
    decoder.read_image(&mut back).unwrap();
    assert_eq!(back, data);
    assert_eq!(save_image(3, 2, &data), Ok(png));
}

#[test]
fn a_picture_that_cannot_be_written_is_refused() {
    let data = vec![0u8; 18];
    assert_eq!(save_image(0, 2, &data), Err(EncodeError::Empty));
    assert_eq!(save_image(3, 0, &data), Err(EncodeError::Empty));
    assert_eq!(save_image(0, 0, &Vec::new()), Err(EncodeError::Empty));
    assert_eq!(save_image(3, 2, &data[..17].to_vec()), Err(EncodeError::WrongLength));
    assert_eq!(save_image(2, 2, &data), Err(EncodeError::WrongLength));
    assert_eq!(save_image(3, 3, &data), Err(EncodeError::WrongLength));
    if usize::BITS > 32 {
        let wide = (u32::MAX as usize) + 1;
        assert_eq!(save_image(wide, 1, &data), Err(EncodeError::TooLarge));
        assert_eq!(save_image(1, wide, &data), Err(EncodeError::TooLarge));
    }
}

fn is_blank(c: char) -> bool {
    matches!(
        c as u32,
        0x09..=0x0D
            | 0x20
            | 0x85
            | 0xA0
            | 0x1680
            | 0x2000..=0x200A
            | 0x2028
            | 0x2029
            | 0x202F
            | 0x205F
            | 0x3000
    )
}

#[test]
fn every_white_space_character_is_trimmed_and_no_other() {
    let mut text = String::new();
    let mut expected: Vec<Vec<String>> = Vec::new();
    for code in 0..=0x10FFFFu32 {
        let c = match char::from_u32(code) {
            Some(c) => c,
            None => continue,
        };
        let shown = if c == '"' { "\"\"".to_string() } else { c.to_string() };
        text.push_str(&format!("\"{}x y{}\"\n", shown, shown));
        expected.push(vec![if is_blank(c) {
            "x y".to_string()
        } else {
            format!("{}x y{}", c, c)
        }]);
    }
    assert_eq!(read_file(text.as_bytes()), Ok(expected));
}

#[test]
fn trimming_takes_the_two_ends_only() {
    let rows = read_file("\" \t a  b \u{3000}\",\"\u{2003}\u{A0}\",\"\",\"\u{200B}c\u{FEFF}\",d\n".as_bytes())
        .unwrap();
    assert_eq!(rows, vec![vec!["a  b", "", "", "\u{200B}c\u{FEFF}", "d"]]);
}
