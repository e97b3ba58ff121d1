//! The two passes over the rows of a log: the statistics pass that finds the
//! colour scale, then the pass that colours the rows on that scale and makes
//! the picture.

use crate::aggregate::{preprocess_iter, samples_of, sequential_summary, AggregationError};
use crate::binary32::{is_finite, is_zero, NEG_INFINITY, POS_INFINITY};
use crate::decode::{decoded_row, DecodeError};
use crate::encode::{png_encoded, save_image, EncodeError};
use crate::measurement::{Measurement, MeasurementView};
use crate::palettes::{lemma_color_within_scale, placement, Palette, Placement};
use crate::raster::{
    create_image, data_width, pixels, process, repaired, zeros, AssemblyError,
};
use crate::rescale::{difference, rescaled};
use crate::source::{csv_rows, gunzipped, open_file, read_file, trimmed_rows, SourceError};
use crate::summary::{lemma_bounds_enclose, max_over, min_over};
use vstd::prelude::*;

verus! {

/// A row that does not decode.
#[derive(Clone, Copy, Debug, PartialEq, Eq, Structural)]
pub struct RowError {
    /// The place of the row among the rows, counted from zero.
    pub row: usize,
    /// Why it does not decode.
    pub error: DecodeError,
}

/// Why the rows give no picture.
#[derive(Clone, Copy, Debug, PartialEq, Eq, Structural)]
pub enum RenderError {
    /// The statistics pass failed.
    Aggregation(AggregationError),
    /// The picture could not be sized.
    Assembly(AssemblyError),
    /// The picture holds more bytes than can be counted.
    TooLarge,
}

/// The picture that the rows give: its width, its height with the ruler
/// band, and its bytes.
pub open spec fn rendered(rows: Seq<MeasurementView>, palette: Palette) -> Result<
    (nat, nat, Seq<u8>),
    RenderError,
> {
    match sequential_summary(rows) {
        Err(e) => Err(RenderError::Aggregation(e)),
        Ok(summary) => {
            let width = data_width(rows);
            let height = if width == 0 {
                0
            } else {
                samples_of(rows).len() / width
            };
            if width == 0 {
                Err(RenderError::Assembly(AssemblyError::ZeroWidth))
            } else if width * (height + 26) * 3 > usize::MAX {
                Err(RenderError::TooLarge)
            } else {
                Ok(
                    (
                        width,
                        height + 26,
                        repaired(
                            zeros(width * 26 * 3) + pixels(
                                palette,
                                summary.min,
                                summary.max,
                                samples_of(rows),
                            ),
                            width * (height + 26) * 3,
                        ),
                    ),
                )
            }
        },
    }
}

/// What the rows of a log decode to: the measurements in order, or the
/// first row that does not decode.
pub open spec fn decoded_rows(records: Seq<Seq<Seq<char>>>) -> Result<
    Seq<MeasurementView>,
    RowError,
>
    decreases records.len(),
{
    if records.len() == 0 {
        Ok(Seq::empty())
    } else {
        match decoded_rows(records.drop_last()) {
            Err(e) => Err(e),
            Ok(rows) => match decoded_row(records.last()) {
                Ok(row) => Ok(rows.push(row)),
                Err(error) => Err(RowError { row: (records.len() - 1) as usize, error }),
            },
        }
    }
}

/// Decodes the rows of a log, in order, up to the first that does not decode.
pub fn decode_rows(records: &Vec<Vec<String>>) -> (r: Result<Vec<Measurement>, RowError>)
    ensures
        match decoded_rows(records.deep_view()) {
            Ok(rows) => r is Ok && r->Ok_0.deep_view() == rows,
            Err(e) => r is Err && r->Err_0 == e,
        },
{
    let ghost all = records.deep_view();
    let mut rows: Vec<Measurement> = Vec::new();
    let mut i: usize = 0;
    proof {
        assert(all.take(0) =~= Seq::<Seq<Seq<char>>>::empty());
        assert(rows.deep_view() =~= Seq::<MeasurementView>::empty());
    }
    while i < records.len()
        invariant
            0 <= i <= records.len(),
            all == records.deep_view(),
            all.len() == records.len(),
            decoded_rows(all.take(i as int)) == Ok::<Seq<MeasurementView>, RowError>(
                rows.deep_view(),
            ),
        decreases records.len() - i,
    {
        assert(all[i as int] == records[i as int].deep_view());
        proof {
            assert(all.take(i + 1).drop_last() =~= all.take(i as int));
            assert(all.take(i + 1).last() == all[i as int]);
        }
        let ghost before = rows.deep_view();
        match Measurement::new(&records[i]) {
            Ok(m) => {
                rows.push(m);
                proof {
                    assert(rows.deep_view() =~= before.push(m@));
                }
            },
            Err(error) => {
                proof {
                    lemma_decoded_rows_fail(all, i as int);
                }
                return Err(RowError { row: i, error });
            },
        }
        i = i + 1;
    }
    proof {
        assert(all.take(all.len() as int) =~= all);
    }
    Ok(rows)
}

/// Rows after the first that does not decode do not matter.
pub proof fn lemma_decoded_rows_fail(records: Seq<Seq<Seq<char>>>, i: int)
    requires
        0 <= i < records.len(),
        decoded_rows(records.take(i + 1)) is Err,
    ensures
        decoded_rows(records) == decoded_rows(records.take(i + 1)),
    decreases records.len() - i,
{
    if i + 1 < records.len() {
        assert(records.take(i + 2).drop_last() =~= records.take(i + 1));
        lemma_decoded_rows_fail(records, i + 1);
    } else {
        assert(records.take(i + 1) =~= records);
    }
}

/// Makes the picture of the rows: finds the colour scale and the width in a
/// first pass, colours the rows on that scale in a second, heads the pixels
/// with the ruler band and repairs the shape. Returns the width, the height
/// with the ruler band, and the bytes.
pub fn render(rows: &Vec<Measurement>, palette: Palette) -> (r: Result<
    (usize, usize, Vec<u8>),
    RenderError,
>)
    ensures
        match rendered(rows.deep_view(), palette) {
            Ok((width, height, bytes)) => r is Ok && r->Ok_0.0 == width && r->Ok_0.1 == height
                && r->Ok_0.2@ == bytes,
            Err(e) => r is Err && r->Err_0 == e,
        },
{
    let summary = match preprocess_iter(rows) {
        Ok(summary) => summary,
        Err(e) => {
            return Err(RenderError::Aggregation(e));
        },
    };
    let (width, height, img) = match process(rows, summary.min, summary.max, palette) {
        Ok(sized) => sized,
        Err(e) => {
            return Err(RenderError::Assembly(e));
        },
    };
    let declared = match height.checked_add(26) {
        Some(v) => v,
        None => {
            assert(width * (height + 26) * 3 > usize::MAX) by (nonlinear_arith)
                requires
                    width >= 1,
                    height + 26 > usize::MAX,
            ;
            return Err(RenderError::TooLarge);
        },
    };
    let area = match width.checked_mul(declared) {
        Some(v) => v,
        None => {
            assert(width * (height + 26) * 3 > usize::MAX) by (nonlinear_arith)
                requires
                    width * (height + 26) > usize::MAX,
            ;
            return Err(RenderError::TooLarge);
        },
    };
    if area.checked_mul(3).is_none() {
        return Err(RenderError::TooLarge);
    }
    let (height, bytes) = create_image(width, height, img);
    Ok((width, height, bytes))
}

/// The scale that the first pass finds fits the second: every finite
/// amplitude of a log gets a colour within the range, where the distance
/// from the least to the greatest finite amplitude is finite and not zero.
pub proof fn lemma_scale_fits(vals: Seq<u32>, i: int)
    requires
        0 <= i < vals.len(),
        is_finite(vals[i]),
        is_finite(
            difference(max_over(NEG_INFINITY, vals), min_over(POS_INFINITY, vals)),
        ),
        !is_zero(difference(max_over(NEG_INFINITY, vals), min_over(POS_INFINITY, vals))),
    ensures
        placement(
            rescaled(vals[i], min_over(POS_INFINITY, vals), max_over(NEG_INFINITY, vals)),
        ) == Placement::Within,
{
    lemma_bounds_enclose(vals);
    lemma_color_within_scale(
        Palette::Default,
        vals[i],
        min_over(POS_INFINITY, vals),
        max_over(NEG_INFINITY, vals),
    );
}

/// Why a log gives no picture file.
#[derive(Clone, Copy, Debug, PartialEq, Eq, Structural)]
pub enum HeatmapError {
    /// The content could not be unpacked or cut into rows.
    Source(SourceError),
    /// A row does not decode.
    Row(RowError),
    /// The rows give no picture.
    Render(RenderError),
    /// The picture could not be encoded.
    Encode(EncodeError),
}

/// The picture of a log, from the content of its file: unpacked where the
/// extension is `gz`, cut into rows of trimmed fields, decoded and rendered.
pub open spec fn picture_of(extension: Option<Seq<char>>, content: Seq<u8>, palette: Palette) -> Result<
    (nat, nat, Seq<u8>),
    HeatmapError,
> {
    let unpacked = if extension == Some("gz"@) {
        gunzipped(content)
    } else {
        Some(content)
    };
    match unpacked {
        None => Err(HeatmapError::Source(SourceError::Gzip)),
        Some(bytes) => match csv_rows(bytes) {
            None => Err(HeatmapError::Source(SourceError::Csv)),
            Some(records) => match decoded_rows(trimmed_rows(records)) {
                Err(e) => Err(HeatmapError::Row(e)),
                Ok(rows) => match rendered(rows, palette) {
                    Err(e) => Err(HeatmapError::Render(e)),
                    Ok(picture) => Ok(picture),
                },
            },
        },
    }
}

/// The extension as a sequence of characters.
pub open spec fn extension_view(extension: Option<&str>) -> Option<Seq<char>> {
    match extension {
        Some(e) => Some(e@),
        None => None,
    }
}

/// Turns the content of a log file into the bytes of a PNG file: the whole
/// way from the file's bytes to the picture's. Where the log gives a picture
/// that fits the format, the bytes are what the encoder makes of it, and the
/// error `Encoder` comes exactly where it makes none.
pub fn heatmap(extension: Option<&str>, content: Vec<u8>, palette: Palette) -> (r: Result<
    Vec<u8>,
    HeatmapError,
>)
    ensures
        match picture_of(extension_view(extension), content@, palette) {
            Err(e) => r is Err && r->Err_0 == e,
            Ok((width, height, bytes)) => if width > u32::MAX || height > u32::MAX {
                r is Err && r->Err_0 == HeatmapError::Encode(EncodeError::TooLarge)
            } else {
                match png_encoded(bytes, width as u32, height as u32) {
                    Some(png) => r is Ok && r->Ok_0@ == png,
                    None => r is Err && r->Err_0 == HeatmapError::Encode(EncodeError::Encoder),
                }
            },
        },
{
    let bytes = match open_file(extension, content) {
        Ok(bytes) => bytes,
        Err(e) => {
            return Err(HeatmapError::Source(e));
        },
    };
    let records = match read_file(bytes.as_slice()) {
        Ok(records) => records,
        Err(e) => {
            return Err(HeatmapError::Source(e));
        },
    };
    let rows = match decode_rows(&records) {
        Ok(rows) => rows,
        Err(e) => {
            return Err(HeatmapError::Row(e));
        },
    };
    let (width, height, picture) = match render(&rows, palette) {
        Ok(picture) => picture,
        Err(e) => {
            return Err(HeatmapError::Render(e));
        },
    };
    proof {
        crate::raster::lemma_repair(
            crate::raster::zeros((width * 26 * 3) as nat) + pixels(
                palette,
                sequential_summary(rows.deep_view())->Ok_0.min,
                sequential_summary(rows.deep_view())->Ok_0.max,
                samples_of(rows.deep_view()),
            ),
            (width * height * 3) as nat,
            0,
        );
    }
    match save_image(width, height, &picture) {
        Ok(png) => Ok(png),
        Err(e) => Err(HeatmapError::Encode(e)),
    }
}

} // verus!
