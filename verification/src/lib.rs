//! Image buffer library: a flat row-major RGBA pixel buffer with stride
//! padding, colour types, and PNG / PPM codecs over byte buffers.
mod bytes;
pub mod codec;
pub mod error;
pub mod image;
pub mod rgb;
pub mod rgba;
pub mod types;
pub mod pixel;
pub mod png;
pub mod ppm;
pub mod zlib;

pub use error::{DecodeError, EncodeError};
pub use image::Imagex;
pub use pixel::{PixelIter, PixelIterMut, PixelRefMut};
pub use rgb::Rgb;
pub use rgba::Rgba;
pub use types::{ColorSpace, ImageFormat, ImageInfo};
