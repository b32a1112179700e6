//! Errors of the codecs.
use crate::types::ImageFormat;
use miniz_oxide::inflate::DecompressError;
use vstd::prelude::*;

verus! {

/// Why decoding an image failed.
#[derive(Debug)]
pub enum DecodeError {
    /// The data ended before a field that had to be there.
    UnexpectedEof,
    /// The PNG signature is wrong.
    InvalidSignature,
    /// The PNG holds no image data chunk.
    NoImageData,
    /// The image data is not a valid zlib stream.
    Decompress(DecompressError),
    /// The decompressed image data is shorter than the header asks for.
    DataTooSmall { got: usize, expected: usize },
    /// A row uses a filter type other than 0 to 4.
    UnsupportedFilter(u8),
    /// A header line of a PPM file is not valid UTF-8.
    InvalidUtf8,
    /// A PPM file whose magic line (trimmed) is not `P6`; holds that line.
    NotP6(Vec<char>),
    /// The PPM size line has fewer than two fields.
    MissingDimensions,
    /// The PPM width is not a `u32`.
    InvalidWidth,
    /// The PPM height is not a `u32`.
    InvalidHeight,
    /// The PPM maximum colour value is not a `u32`.
    InvalidMaxValue,
    /// The image is too large to lay out in memory.
    DimensionsTooLarge,
    /// The format has no decoder.
    UnsupportedFormat(ImageFormat),
}

/// Why encoding an image failed.
#[derive(Debug)]
pub enum EncodeError {
    /// The format has no encoder.
    UnsupportedFormat(ImageFormat),
}

} // verus!
