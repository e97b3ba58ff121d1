//! Renders spectrum-sweep logs as false-colour heatmaps: one pixel column per
//! frequency bin, one scanline per sweep.
//!
//! A log is comma-separated text, plain or gzip-packed. Each row carries a
//! date, a time, a band and the amplitudes measured across it. The rows of
//! one sweep share their date and time. A first pass over the decoded rows
//! finds the least and the greatest finite amplitude and the width of a
//! sweep; a second pass places every amplitude on that scale, colours it with
//! a palette and lays the pixels out under a ruler band.
//!
//! The library holds no floating-point number. A binary32 amplitude is the
//! 32-bit pattern that stands for it, and reading numerals, comparing,
//! subtracting, dividing and scaling are done on the patterns with whole
//! numbers, rounded as IEEE 754 asks.
//!
//! From the bytes of a file to the bytes of a picture:
//! [`open_file`], [`read_file`], [`decode_rows`], [`preprocess`] or
//! [`preprocess_iter`], [`process`], [`create_image`], [`save_image`]; or
//! [`heatmap`] for all of it at once.

pub mod aggregate;
pub mod big;
pub mod binary32;
pub mod binary64;
pub mod colors;
pub mod decimal;
pub mod decode;
pub mod encode;
pub mod format;
pub mod literal;
pub mod measurement;
pub mod number;
pub mod palettes;
pub mod pipeline;
pub mod raster;
pub mod rescale;
pub mod rounding;
pub mod source;
pub mod summary;
pub mod trim;

pub use aggregate::{preprocess, preprocess_iter, AggregationError};
pub use decode::{DecodeError, Field};
pub use encode::{save_image, EncodeError};
pub use measurement::Measurement;
pub use palettes::{scale_tocolor, Palette};
pub use pipeline::{decode_rows, heatmap, render, HeatmapError, RenderError, RowError};
pub use raster::{
    create_image, process, process_iter, ragged_sweep, shape_repair, tape_measure, AssemblyError,
    ShapeRepair,
};
pub use source::{open_file, read_file, SourceError};
pub use summary::Summary;
