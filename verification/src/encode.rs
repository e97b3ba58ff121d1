//! The last step: the pixel buffer as the bytes of a PNG file. The encoding
//! is the work of the `image` crate.

use image::png::PngEncoder;
use image::ColorType;
use vstd::prelude::*;

verus! {

/// The error of the `image` crate.
#[verifier::external_type_specification]
#[verifier::external_body]
pub struct ExImageError(image::ImageError);

/// Why a buffer gives no PNG file.
#[derive(Clone, Copy, Debug, PartialEq, Eq, Structural)]
pub enum EncodeError {
    /// The picture has no column or no scanline.
    Empty,
    /// The width or the height does not fit in 32 bits.
    TooLarge,
    /// The buffer does not hold three bytes for every pixel.
    WrongLength,
    /// The encoder gave up.
    Encoder,
}

/// What encoding a picture of `width` by `height` pixels of red, green and
/// blue, eight bits each, gives: the bytes of the PNG file, or nothing where
/// the encoder gives up.
pub uninterp spec fn png_encoded(data: Seq<u8>, width: u32, height: u32) -> Option<Seq<u8>>;

/// Encodes a picture with `PngEncoder::encode` as `ColorType::Rgb8`, into
/// memory. Trusted: the encoder writes into memory only, so what comes back
/// is a function of the buffer and the two dimensions alone, `png_encoded`;
/// an error comes back exactly where that is nothing. The `requires` leaves
/// out what the encoder refuses at the start: no column, no scanline, a
/// buffer of another length than three bytes for every pixel.
#[verifier::external_body]
fn encode_rgb8(data: &[u8], width: u32, height: u32) -> (r: Result<Vec<u8>, image::ImageError>)
    requires
        width > 0,
        height > 0,
        data@.len() == width * height * 3,
    ensures
        r is Ok ==> png_encoded(data@, width, height) == Some(r->Ok_0@),
        r is Err ==> png_encoded(data@, width, height) is None,
{
    let mut out = Vec::new();
    PngEncoder::new(&mut out).encode(data, width, height, ColorType::Rgb8)?;
    Ok(out)
}

/// What `save_image` returns where the encoder is not asked.
pub open spec fn refused(width: usize, height: usize, len: nat) -> Option<EncodeError> {
    if width == 0 || height == 0 {
        Some(EncodeError::Empty)
    } else if width > u32::MAX || height > u32::MAX {
        Some(EncodeError::TooLarge)
    } else if len != width * height * 3 {
        Some(EncodeError::WrongLength)
    } else {
        None
    }
}

/// Encodes the picture as a PNG file of red, green and blue, eight bits each,
/// and returns the file's bytes. A picture without pixels, one too large for
/// the format and a buffer of the wrong length are refused; otherwise the
/// encoder is asked: the bytes are what it gives, and the error `Encoder`
/// comes exactly where it gives none.
pub fn save_image(width: usize, height: usize, imgdata: &Vec<u8>) -> (r: Result<
    Vec<u8>,
    EncodeError,
>)
    ensures
        match refused(width, height, imgdata@.len()) {
            Some(e) => r == Err::<Vec<u8>, EncodeError>(e),
            None => match png_encoded(imgdata@, width as u32, height as u32) {
                Some(png) => r is Ok && r->Ok_0@ == png,
                None => r == Err::<Vec<u8>, EncodeError>(EncodeError::Encoder),
            },
        },
{
    if width == 0 || height == 0 {
        return Err(EncodeError::Empty);
    }
    if width > 0xFFFF_FFFF || height > 0xFFFF_FFFF {
        return Err(EncodeError::TooLarge);
    }
    let w: u64 = width as u64;
    let h: u64 = height as u64;
    assert(w * h <= 0xFFFF_FFFF * 0xFFFF_FFFF) by (nonlinear_arith)
        requires
            w <= 0xFFFF_FFFF,
            h <= 0xFFFF_FFFF,
    ;
    let pixels: u64 = w * h;
    if (imgdata.len() as u64) % 3 != 0 || (imgdata.len() as u64) / 3 != pixels {
        return Err(EncodeError::WrongLength);
    }
    match encode_rgb8(imgdata.as_slice(), width as u32, height as u32) {
        Ok(png) => Ok(png),
        Err(_) => Err(EncodeError::Encoder),
    }
}

} // verus!
