use flate2::write::GzEncoder;
use flate2::Compression;
use sdr_heatmap::pipeline::RowError;
use sdr_heatmap::{
    decode_rows, heatmap, open_file, preprocess, read_file, render, save_image, scale_tocolor,
    AggregationError, AssemblyError, DecodeError, EncodeError, Field, HeatmapError, Measurement,
    Palette, RenderError, SourceError,
};

use std::io::Write;

fn rows_of(text: &str) -> Vec<Measurement> {
    let records = read_file(text.as_bytes()).unwrap();
    decode_rows(&records).unwrap()
}

const LOG: &str = "\
2020-01-01, 10:00:00, 88000000, 90000000, 1000000.0, 4, -10.0, 0.0, 0
2020-01-01, 10:00:00, 90000000, 92000000, 1000000.0, 4, 10.0, 30.0, 0
2020-01-01, 10:00:10, 88000000, 90000000, 1000000.0, 4, -5.0, nan, 0
2020-01-01, 10:00:10, 90000000, 92000000, 1000000.0, 4, 20.0, -10.0, 0
";

#[test]
fn rows_decode_in_order() {
    let rows = rows_of(LOG);
    assert_eq!(rows.len(), 4);
    assert_eq!(rows[0].values, vec![(-10.0f32).to_bits(), 0.0f32.to_bits()]);
    assert_eq!(rows[3].freq_low, 90_000_000);
    assert_eq!(rows[2].time, "10:00:10");
    assert!(f32::from_bits(rows[2].values[1]).is_nan());
}

#[test]
fn the_first_bad_row_is_named() {
    let records = read_file(b"d,t,1,2,3.0,4,1.0,0\nd,t,1,2,3.0,4,bad,0\nd,t,x,2,3.0,4,1.0,0\n").unwrap();
    assert_eq!(
        decode_rows(&records).err(),
        Some(RowError { row: 1, error: DecodeError::Malformed(Field::Value(0)) })
    );
    let records = read_file(b"d,t,1,2,3.0,4\n").unwrap();
    assert_eq!(
        decode_rows(&records).err(),
        Some(RowError { row: 0, error: DecodeError::Missing(Field::Value(0)) })
    );
    assert_eq!(decode_rows(&Vec::new()).unwrap().len(), 0);
}

#[test]
fn a_log_becomes_a_picture() {
    let rows = rows_of(LOG);
    let summary = preprocess(&rows).unwrap();
    assert_eq!(
        (summary.min, summary.max, summary.width),
        ((-10.0f32).to_bits(), 30.0f32.to_bits(), 4)
    );
    let (width, height, bytes) = render(&rows, Palette::Default).unwrap();
    assert_eq!((width, height), (4, 28));
    assert_eq!(bytes.len(), 4 * 28 * 3);
    assert!(bytes[..4 * 26 * 3].iter().all(|b| *b == 0));
    let mut expected = Vec::new();
    for value in [-10.0f32, 0.0, 10.0, 30.0, -5.0, f32::NAN, 20.0, -10.0] {
        expected.extend_from_slice(&scale_tocolor(
            Palette::Default,
            value.to_bits(),
            summary.min,
            summary.max,
        ));
    }
    assert_eq!(&bytes[4 * 26 * 3..], &expected[..]);
    assert_eq!(
        &bytes[4 * 26 * 3..4 * 26 * 3 + 12],
        &[0, 0, 50, 63, 63, 50, 127, 127, 50, 255, 255, 50]
    );
    let png = save_image(width, height, &bytes).unwrap();
    assert_eq!(&png[..8], &[137, 80, 78, 71, 13, 10, 26, 10]);
}

#[test]
fn a_ragged_log_is_cut_to_whole_scanlines() {
    let mut rows = rows_of(LOG);
    rows.pop();
    let (width, height, bytes) = render(&rows, Palette::Extended).unwrap();
    assert_eq!((width, height), (4, 27));
    assert_eq!(bytes.len(), 4 * 27 * 3);
}

#[test]
fn nothing_to_draw_is_an_error() {
    assert_eq!(
        render(&Vec::new(), Palette::Default).err(),
        Some(RenderError::Aggregation(AggregationError::NoRows))
    );
    let mut rows = rows_of(LOG);
    rows[0].values.clear();
    rows[1].values.clear();
    assert_eq!(
        render(&rows, Palette::Default).err(),
        Some(RenderError::Assembly(AssemblyError::ZeroWidth))
    );
}

#[test]
fn a_flat_log_is_white() {
    let rows = rows_of("d,t,1,2,3.0,4,5.0,5.0,0\nd,u,1,2,3.0,4,5.0,5.0,0\n");
    let (width, height, bytes) = render(&rows, Palette::Default).unwrap();
    assert_eq!((width, height), (2, 28));
    assert!(bytes[2 * 26 * 3..].iter().all(|b| *b == 255));
}

#[test]
fn a_packed_log_gives_the_same_rows() {
    let mut encoder = GzEncoder::new(Vec::new(), Compression::default());
    encoder.write_all(LOG.as_bytes()).unwrap();
    let packed = encoder.finish().unwrap();
    let content = open_file(Some("gz"), packed).unwrap();
    let records = read_file(&content).unwrap();
    let rows = decode_rows(&records).unwrap();
    assert_eq!(render(&rows, Palette::Default), render(&rows_of(LOG), Palette::Default));
}

#[test]
fn a_log_file_becomes_a_png_file() {
    let rows = rows_of(LOG);
    let (width, height, bytes) = render(&rows, Palette::Default).unwrap();
    let expected = save_image(width, height, &bytes).unwrap();
    assert_eq!(heatmap(Some("csv"), LOG.as_bytes().to_vec(), Palette::Default), Ok(expected.clone()));
    assert_eq!(heatmap(None, LOG.as_bytes().to_vec(), Palette::Default), Ok(expected.clone()));
    let mut encoder = GzEncoder::new(Vec::new(), Compression::default());
    encoder.write_all(LOG.as_bytes()).unwrap();
    let packed = encoder.finish().unwrap();
    assert_eq!(heatmap(Some("gz"), packed.clone(), Palette::Default), Ok(expected.clone()));
    assert_ne!(heatmap(Some("gz"), packed, Palette::Extended), Ok(expected));
}

#[test]
fn a_broken_log_file_names_what_is_wrong() {
    assert_eq!(
        heatmap(Some("gz"), LOG.as_bytes().to_vec(), Palette::Default),
        Err(HeatmapError::Source(SourceError::Gzip))
    );
    assert_eq!(
        heatmap(Some("csv"), b"a,b\nc\n".to_vec(), Palette::Default),
        Err(HeatmapError::Source(SourceError::Csv))
    );
    assert_eq!(
        heatmap(None, b"d,t,1,2,3.0,4,1.0,0\nd,t,1,2,3.0,4,1.0,zero\n".to_vec(), Palette::Default),
        Err(HeatmapError::Row(RowError { row: 1, error: DecodeError::Malformed(Field::Value(1)) }))
    );
    assert_eq!(
        heatmap(None, Vec::new(), Palette::Default),
        Err(HeatmapError::Render(RenderError::Aggregation(AggregationError::NoRows)))
    );
    assert_eq!(
        heatmap(None, b"d,t,1,2,3.0,4,1.0\n".to_vec(), Palette::Default).map(|png| png.len() > 8),
        Ok(true)
    );
    assert_ne!(
        heatmap(None, b"d,t,1,2,3.0,4,1.0\n".to_vec(), Palette::Default),
        Err(HeatmapError::Encode(EncodeError::Encoder))
    );
}

#[test]
fn the_scale_of_the_first_pass_fits_the_second() {
    let rows = rows_of(LOG);
    let summary = preprocess(&rows).unwrap();
    for m in &rows {
        for value in &m.values {
            let scaled = sdr_heatmap::rescale::rescale(*value, summary.min, summary.max);
            let placed = sdr_heatmap::palettes::place(scaled);
            if f32::from_bits(*value).is_finite() {
                assert_eq!(placed, sdr_heatmap::palettes::Placement::Within);
            } else {
                assert_eq!(placed, sdr_heatmap::palettes::Placement::Over);
            }
        }
    }
}
