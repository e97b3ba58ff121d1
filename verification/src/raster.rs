//! The picture: colouring the rows, sizing the picture from the first sweep,
//! heading it with the ruler band and repairing its shape.

use crate::aggregate::samples_of;
use crate::measurement::{Measurement, MeasurementView};
use crate::palettes::{scale_tocolor, scaled_color, Palette};
use arrayvec::ArrayVec;
use vstd::prelude::*;

verus! {

/// Number of scanlines in the ruler band that heads every picture.
pub const RULER_ROWS: usize = 26;

/// Bytes in a pixel: red, green, blue.
pub const CHANNELS: usize = 3;

/// Why no picture could be sized.
#[derive(Clone, Copy, Debug, PartialEq, Eq, Structural)]
pub enum AssemblyError {
    /// There was no row.
    NoRows,
    /// The width is zero: the first sweep holds no amplitude, or a width of
    /// zero was handed in.
    ZeroWidth,
}

/// What the repair of a picture's shape does to the buffer.
#[derive(Clone, Copy, Debug, PartialEq, Eq, Structural)]
pub enum ShapeRepair {
    /// The buffer has the length that the shape asks for.
    Exact,
    /// The buffer is short by so many bytes, which are filled with zeros.
    Padded(usize),
    /// The buffer is long by so many bytes, which are cut off.
    Truncated(usize),
}

/// `n` zero bytes.
pub open spec fn zeros(n: nat) -> Seq<u8> {
    Seq::new(n, |i: int| 0u8)
}

/// The pixels of a run of amplitudes on the scale from `min` to `max`:
/// three bytes each, in order.
pub open spec fn pixels(palette: Palette, min: u32, max: u32, vals: Seq<u32>) -> Seq<u8>
    decreases vals.len(),
{
    if vals.len() == 0 {
        Seq::empty()
    } else {
        pixels(palette, min, max, vals.drop_last()) + scaled_color(
            palette,
            vals.last(),
            min,
            max,
        )
    }
}

/// Two rows belong to one sweep: they carry the same date and the same time.
pub open spec fn same_sweep(a: MeasurementView, b: MeasurementView) -> bool {
    a.date == b.date && a.time == b.time
}

/// The first index at or after `from` whose row does not belong to the sweep
/// of the first row; the number of rows where there is none.
pub open spec fn sweep_end(rows: Seq<MeasurementView>, from: int) -> int
    decreases rows.len() - from,
{
    if 0 <= from < rows.len() && same_sweep(rows[from], rows[0]) {
        sweep_end(rows, from + 1)
    } else {
        from
    }
}

/// The width of the picture: the number of amplitudes in the first sweep.
pub open spec fn data_width(rows: Seq<MeasurementView>) -> nat {
    samples_of(rows.take(sweep_end(rows, 0))).len()
}

/// The buffer brought to the length expected: filled up with zeros where it
/// is short, cut where it is long.
pub open spec fn repaired(buf: Seq<u8>, expected: nat) -> Seq<u8> {
    if buf.len() < expected {
        buf + zeros((expected - buf.len()) as nat)
    } else {
        buf.take(expected as int)
    }
}

/// What it takes to bring a buffer of `actual` bytes to `expected` bytes.
pub open spec fn repair_of(expected: nat, actual: nat) -> ShapeRepair {
    if actual < expected {
        ShapeRepair::Padded((expected - actual) as usize)
    } else if actual > expected {
        ShapeRepair::Truncated((actual - expected) as usize)
    } else {
        ShapeRepair::Exact
    }
}

/// Every pixel takes three bytes.
pub proof fn lemma_pixels_len(palette: Palette, min: u32, max: u32, vals: Seq<u32>)
    ensures
        pixels(palette, min, max, vals).len() == 3 * vals.len(),
    decreases vals.len(),
{
    if vals.len() > 0 {
        lemma_pixels_len(palette, min, max, vals.drop_last());
        crate::palettes::lemma_color_len(palette, crate::rescale::rescaled(vals.last(), min, max));
    }
}

/// `sweep_end` stays within the rows, and the first sweep holds the first
/// row.
pub proof fn lemma_sweep_end_bounds(rows: Seq<MeasurementView>, from: int)
    requires
        0 <= from <= rows.len(),
    ensures
        from <= sweep_end(rows, from) <= rows.len(),
        rows.len() > 0 && from == 0 ==> sweep_end(rows, from) >= 1,
    decreases rows.len() - from,
{
    if from < rows.len() && same_sweep(rows[from], rows[0]) {
        lemma_sweep_end_bounds(rows, from + 1);
    }
}

/// The number of amplitudes in each sweep, sweep by sweep: a sweep is a
/// longest run of neighbouring rows with the same date and time.
pub open spec fn sweep_sizes(rows: Seq<MeasurementView>) -> Seq<nat>
    decreases rows.len(),
    via sweep_sizes_decreases
{
    if rows.len() == 0 {
        Seq::empty()
    } else {
        seq![data_width(rows)] + sweep_sizes(rows.skip(sweep_end(rows, 0)))
    }
}

#[via_fn]
proof fn sweep_sizes_decreases(rows: Seq<MeasurementView>) {
    lemma_sweep_end_bounds(rows, 0);
}

/// Every sweep but the last holds `width` amplitudes, up to the sweep `upto`.
pub open spec fn sweeps_regular(sizes: Seq<nat>, width: nat, upto: int) -> bool {
    forall|j: int| 0 <= j < upto && j + 1 < sizes.len() ==> #[trigger] sizes[j] == width
}

/// A buffer of the expected length comes out of the repair as it went in. One
/// that is short by `k` bytes comes out with exactly `k` zero bytes after it.
/// One that is long by `k` bytes comes out shorter by exactly `k` bytes, the
/// bytes that stay unchanged.
pub proof fn lemma_repair(buf: Seq<u8>, expected: nat, k: nat)
    ensures
        buf.len() == expected ==> repaired(buf, expected) == buf,
        buf.len() + k == expected ==> repaired(buf, expected) == buf + zeros(k),
        buf.len() == expected + k ==> repaired(buf, expected).len() + k == buf.len()
            && repaired(buf, expected) == buf.take(expected as int),
        repaired(buf, expected).len() == expected,
{
    if buf.len() == expected {
        assert(buf.take(expected as int) =~= buf);
    }
    if buf.len() + k == expected && k == 0 {
        assert(buf + zeros(0) =~= buf);
    }
}

/// Tells what the repair of a picture of `width` by `height` pixels does to a
/// buffer of `actual` bytes.
pub fn shape_repair(width: usize, height: usize, actual: usize) -> (r: ShapeRepair)
    requires
        width * height * 3 <= usize::MAX,
    ensures
        r == repair_of((width * height * 3) as nat, actual as nat),
{
    assert(width * height <= usize::MAX) by (nonlinear_arith)
        requires
            width * height * 3 <= usize::MAX,
    ;
    let expected = width * height * CHANNELS;
    if expected > actual {
        ShapeRepair::Padded(expected - actual)
    } else if expected < actual {
        ShapeRepair::Truncated(actual - expected)
    } else {
        ShapeRepair::Exact
    }
}

/// Appends the three bytes of a pixel.
fn push_pixel(img: &mut Vec<u8>, pixel: [u8; 3])
    ensures
        final(img)@ == old(img)@ + pixel@,
{
    img.push(pixel[0]);
    img.push(pixel[1]);
    img.push(pixel[2]);
    assert(img@ =~= old(img)@ + pixel@);
}

/// Appends the three bytes of a pixel by way of `ArrayVec`. Trusted:
/// `ArrayVec::from` holds the whole array and its `into_iter` hands the
/// bytes out in order, so `Vec::extend` puts them after what was there.
#[verifier::external_body]
fn extend_pixel(img: &mut Vec<u8>, pixel: [u8; 3])
    ensures
        final(img)@ == old(img)@ + pixel@,
{
    img.extend(ArrayVec::from(pixel).into_iter());
}

/// Colours the rows on the scale from `min` to `max` and sizes the picture by
/// the first sweep: the width is the number of amplitudes in the first sweep,
/// the height the number of whole scanlines of that width.
pub fn process(rows: &Vec<Measurement>, min: u32, max: u32, palette: Palette) -> (r: Result<
    (usize, usize, Vec<u8>),
    AssemblyError,
>)
    ensures
        rows.len() == 0 ==> r == Err::<(usize, usize, Vec<u8>), AssemblyError>(
            AssemblyError::NoRows,
        ),
        rows.len() > 0 && data_width(rows.deep_view()) == 0 ==> r == Err::<
            (usize, usize, Vec<u8>),
            AssemblyError,
        >(AssemblyError::ZeroWidth),
        rows.len() > 0 && data_width(rows.deep_view()) > 0 ==> r is Ok && {
            let (width, height, img) = r->Ok_0;
            &&& width == data_width(rows.deep_view())
            &&& height == samples_of(rows.deep_view()).len() / data_width(rows.deep_view())
            &&& img@ == pixels(palette, min, max, samples_of(rows.deep_view()))
        },
{
    let ghost all = rows.deep_view();
    if rows.len() == 0 {
        return Err(AssemblyError::NoRows);
    }
    let mut img: Vec<u8> = Vec::new();
    let mut datawidth: usize = 0;
    let mut first = true;
    let mut i: usize = 0;
    while i < rows.len()
        invariant
            0 <= i <= rows.len(),
            all == rows.deep_view(),
            all.len() == rows.len(),
            all.len() > 0,
            img@ == pixels(palette, min, max, samples_of(all.take(i as int))),
            first ==> sweep_end(all, 0) == sweep_end(all, i as int),
            !first ==> datawidth == data_width(all),
        decreases rows.len() - i,
    {
        let row = &rows[i];
        assert(all[i as int] == row@);
        assert(all[0] == rows[0]@);
        let ghost before = samples_of(all.take(i as int));
        proof {
            assert(all.take(i + 1).drop_last() =~= all.take(i as int));
            assert(all.take(i + 1).last() == all[i as int]);
            lemma_pixels_len(palette, min, max, before);
        }
        if first && !(row.date == rows[0].date && row.time == rows[0].time) {
            first = false;
            datawidth = img.len() / CHANNELS;
        }
        let mut j: usize = 0;
        while j < row.values.len()
            invariant
                0 <= j <= row.values.len(),
                img@ == pixels(palette, min, max, before + row@.values.take(j as int)),
            decreases row.values.len() - j,
        {
            proof {
                let ghost cur = before + row@.values.take(j as int);
                let ghost next = before + row@.values.take(j + 1);
                assert(next.drop_last() =~= cur);
                assert(next.last() == row@.values[j as int]);
            }
            let pixel = scale_tocolor(palette, row.values[j], min, max);
            push_pixel(&mut img, pixel);
            j = j + 1;
        }
        proof {
            assert(row@.values.take(row@.values.len() as int) =~= row@.values);
        }
        i = i + 1;
    }
    proof {
        assert(all.take(all.len() as int) =~= all);
        lemma_pixels_len(palette, min, max, samples_of(all));
        if first {
            assert(sweep_end(all, all.len() as int) == all.len());
        }
    }
    if first {
        datawidth = img.len() / CHANNELS;
    }
    if datawidth == 0 {
        return Err(AssemblyError::ZeroWidth);
    }
    let height = img.len() / CHANNELS / datawidth;
    Ok((datawidth, height, img))
}

/// Colours the rows on the scale from `min` to `max` with the default
/// palette, for a picture of the width given: the height is the number of
/// whole scanlines of that width.
pub fn process_iter(rows: &Vec<Measurement>, min: u32, max: u32, width: usize) -> (r: Result<
    (usize, usize, Vec<u8>),
    AssemblyError,
>)
    ensures
        width == 0 ==> r == Err::<(usize, usize, Vec<u8>), AssemblyError>(
            AssemblyError::ZeroWidth,
        ),
        width > 0 ==> r is Ok && {
            let (w, height, img) = r->Ok_0;
            &&& w == width
            &&& height == samples_of(rows.deep_view()).len() / (width as nat)
            &&& img@ == pixels(Palette::Default, min, max, samples_of(rows.deep_view()))
        },
{
    let ghost all = rows.deep_view();
    if width == 0 {
        return Err(AssemblyError::ZeroWidth);
    }
    let mut img: Vec<u8> = Vec::new();
    let mut i: usize = 0;
    while i < rows.len()
        invariant
            0 <= i <= rows.len(),
            all == rows.deep_view(),
            all.len() == rows.len(),
            img@ == pixels(Palette::Default, min, max, samples_of(all.take(i as int))),
        decreases rows.len() - i,
    {
        let row = &rows[i];
        assert(all[i as int] == row@);
        let ghost before = samples_of(all.take(i as int));
        proof {
            assert(all.take(i + 1).drop_last() =~= all.take(i as int));
            assert(all.take(i + 1).last() == all[i as int]);
        }
        let mut j: usize = 0;
        while j < row.values.len()
            invariant
                0 <= j <= row.values.len(),
                img@ == pixels(Palette::Default, min, max, before + row@.values.take(j as int)),
            decreases row.values.len() - j,
        {
            proof {
                let ghost cur = before + row@.values.take(j as int);
                let ghost next = before + row@.values.take(j + 1);
                assert(next.drop_last() =~= cur);
                assert(next.last() == row@.values[j as int]);
            }
            let pixel = scale_tocolor(Palette::Default, row.values[j], min, max);
            extend_pixel(&mut img, pixel);
            j = j + 1;
        }
        proof {
            assert(row@.values.take(row@.values.len() as int) =~= row@.values);
        }
        i = i + 1;
    }
    proof {
        assert(all.take(all.len() as int) =~= all);
        lemma_pixels_len(Palette::Default, min, max, samples_of(all));
    }
    let height = img.len() / CHANNELS / width;
    Ok((width, height, img))
}

/// Appends the ruler band for a picture of the width given: 26 scanlines of
/// zero bytes.
pub fn tape_measure(width: usize, imgdata: &mut Vec<u8>)
    requires
        width * 26 * 3 <= usize::MAX,
    ensures
        final(imgdata)@ == old(imgdata)@ + zeros((width * 26 * 3) as nat),
{
    assert(width * 26 <= usize::MAX) by (nonlinear_arith)
        requires
            width * 26 * 3 <= usize::MAX,
    ;
    let length = width * RULER_ROWS * CHANNELS;
    let mut band: Vec<u8> = vec![0u8; length];
    assert(band@ =~= zeros(length as nat));
    imgdata.append(&mut band);
}

/// Heads the pixel data with the ruler band and repairs the shape: the
/// picture is declared 26 scanlines higher than the data, and the buffer is
/// brought to `width * (height + 26) * 3` bytes, filled up with zeros where
/// it is short and cut where it is long.
pub fn create_image(width: usize, height: usize, img: Vec<u8>) -> (r: (usize, Vec<u8>))
    requires
        height + 26 <= usize::MAX,
        width * (height + 26) * 3 <= usize::MAX,
    ensures
        r.0 == height + 26,
        r.1@ == repaired(
            zeros((width * 26 * 3) as nat) + img@,
            (width * (height + 26) * 3) as nat,
        ),
        r.1@.len() == width * (height + 26) * 3,
        forall|i: int| 0 <= i < width * 26 * 3 ==> #[trigger] r.1@[i] == 0,
{
    assert(width * 26 * 3 <= width * (height + 26) * 3) by (nonlinear_arith)
        requires
            width >= 0,
            height >= 0,
    ;
    assert(width * (height + 26) <= width * (height + 26) * 3) by (nonlinear_arith)
        requires
            width >= 0,
            height >= 0,
    ;
    let ghost data = img@;
    let mut img = img;
    let mut imgdata: Vec<u8> = Vec::new();
    tape_measure(width, &mut imgdata);
    imgdata.append(&mut img);
    assert(imgdata@ =~= zeros((width * 26 * 3) as nat) + data);
    let height = height + RULER_ROWS;
    let expected_length = width * height * CHANNELS;
    let ghost before = imgdata@;
    if expected_length > imgdata.len() {
        let missing: usize = expected_length - imgdata.len();
        let mut fill: Vec<u8> = vec![0u8; missing];
        assert(fill@ =~= zeros(missing as nat));
        imgdata.append(&mut fill);
    } else if expected_length < imgdata.len() {
        imgdata.truncate(expected_length);
    } else {
        assert(before.take(expected_length as int) =~= before);
    }
    (height, imgdata)
}

/// Looks for a sweep that is followed by another and does not hold `width`
/// amplitudes: a sign of a ragged or damaged log. Returns the place of the
/// first such sweep, counted from zero, or nothing where every sweep but the
/// last holds `width` amplitudes.
pub fn ragged_sweep(rows: &Vec<Measurement>, width: usize) -> (r: Option<usize>)
    ensures
        match r {
            Some(k) => {
                &&& k + 1 < sweep_sizes(rows.deep_view()).len()
                &&& sweep_sizes(rows.deep_view())[k as int] != width
                &&& sweeps_regular(sweep_sizes(rows.deep_view()), width as nat, k as int)
            },
            None => sweeps_regular(
                sweep_sizes(rows.deep_view()),
                width as nat,
                sweep_sizes(rows.deep_view()).len() as int,
            ),
        },
{
    let ghost all = rows.deep_view();
    let ghost sizes = sweep_sizes(all);
    let ghost mut done: Seq<nat> = Seq::empty();
    let n = rows.len();
    let mut start: usize = 0;
    let mut k: usize = 0;
    proof {
        assert(all.skip(0) =~= all);
        assert(done + sweep_sizes(all.skip(0)) =~= sizes);
    }
    while start < n
        invariant
            0 <= start <= n,
            n == rows.len(),
            all == rows.deep_view(),
            all.len() == n,
            sizes == sweep_sizes(all),
            sizes == done + sweep_sizes(all.skip(start as int)),
            done.len() == k,
            k <= start,
            forall|j: int| 0 <= j < k && (j + 1 < k || start < n) ==> #[trigger] done[j] == width,
        decreases n - start,
    {
        let ghost rest = all.skip(start as int);
        let mut i: usize = start;
        let mut count: usize = 0;
        let mut over = false;
        assert(rest[0] == rows[start as int]@);
        while i < n && rows[i].date == rows[start].date && rows[i].time == rows[start].time
            invariant
                start <= i <= n,
                start < n,
                n == rows.len(),
                all == rows.deep_view(),
                all.len() == n,
                rest == all.skip(start as int),
                rest[0] == rows[start as int]@,
                sweep_end(rest, 0) == sweep_end(rest, i - start),
                !over ==> count == samples_of(rest.take(i - start)).len() && count <= width,
                over ==> samples_of(rest.take(i - start)).len() > width,
            decreases n - i,
        {
            assert(rest[i - start] == rows[i as int]@);
            proof {
                assert(rest.take(i - start + 1).drop_last() =~= rest.take(i - start));
                assert(rest.take(i - start + 1).last() == rest[i - start]);
            }
            if !over {
                if rows[i].values.len() > width - count {
                    over = true;
                } else {
                    count = count + rows[i].values.len();
                }
            }
            i = i + 1;
        }
        proof {
            if i < n {
                assert(rest[i - start] == rows[i as int]@);
            }
            assert(sweep_end(rest, i - start) == i - start);
            assert(rest.skip(i - start) =~= all.skip(i as int));
            let size = data_width(rest);
            assert(sweep_sizes(rest) == seq![size] + sweep_sizes(all.skip(i as int)));
            assert(sizes =~= (done + seq![size]) + sweep_sizes(all.skip(i as int)));
            assert(sizes[k as int] == size);
            assert(forall|j: int| 0 <= j < k ==> sizes[j] == done[j]);
        }
        if i < n {
            proof {
                lemma_sweep_end_bounds(all.skip(i as int), 0);
                assert(sweep_sizes(all.skip(i as int)).len() >= 1);
            }
            if over || count != width {
                return Some(k);
            }
        }
        proof {
            done = done + seq![data_width(rest)];
        }
        k = k + 1;
        start = i;
    }
    proof {
        assert(all.skip(n as int) =~= Seq::<MeasurementView>::empty());
        assert(sizes =~= done);
    }
    None
}

} // verus!
