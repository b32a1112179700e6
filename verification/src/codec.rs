//! Choosing a codec by image format: reading and writing image files held
//! in memory.
use crate::error::{DecodeError, EncodeError};
use crate::image::{fits_new, Imagex};
use crate::png::{law_png_roundtrip, png_decode_result, png_file, png_filtered};
use crate::ppm::{law_ppm_roundtrip, ppm_decode_result, ppm_written};
use crate::rgba::Rgba;
use crate::types::{format_of_path, ImageFormat};
use crate::zlib::{zlib_compressed, zlib_decompressed};
use vstd::prelude::*;
use vstd::string::StringSliceAdditionalSpecFns;

verus! {

/// What the encoder of `format` writes for `img`, where there is one.
pub open spec fn encoded_as(img: Imagex, format: ImageFormat, out: Seq<u8>) -> bool {
    match format {
        ImageFormat::Png => {
            let filtered = png_filtered(img, img.spec_height() as int);
            &&& out == png_file(img.spec_width(), img.spec_height(), zlib_compressed(filtered, 6))
            &&& zlib_decompressed(zlib_compressed(filtered, 6)) == Some(filtered)
            &&& zlib_compressed(filtered, 6).len() > 0
        },
        ImageFormat::Ppm => ppm_written(img, out),
        _ => false,
    }
}

/// What reading `contents` under `path` gives: the PNG or PPM decoder's
/// result where the path names that format, else a refusal of the format.
pub open spec fn read_result(path: Seq<u8>, contents: Seq<u8>, res: Result<Imagex, DecodeError>) -> bool {
    match format_of_path(path) {
        ImageFormat::Png => png_decode_result(res, contents),
        ImageFormat::Ppm => ppm_decode_result(res, contents),
        f => res == Err::<Imagex, DecodeError>(DecodeError::UnsupportedFormat(f)),
    }
}

impl Imagex {
    /// Decodes the contents of an image file, choosing the decoder by the
    /// extension of its path: PNG and PPM have one; any other format is
    /// refused.
    pub fn read(path: &str, contents: &[u8]) -> (res: Result<Imagex, DecodeError>)
        ensures
            read_result(path.spec_bytes(), contents@, res),
    {
        let format = ImageFormat::from_path(path);
        match format {
            ImageFormat::Png => Imagex::read_png(contents),
            ImageFormat::Ppm => Imagex::read_ppm(contents),
            _ => Err(DecodeError::UnsupportedFormat(format)),
        }
    }

    /// Encodes the image as a file of `format`: PNG and PPM have an encoder;
    /// any other format is refused.
    pub fn write(&self, format: ImageFormat) -> (res: Result<Vec<u8>, EncodeError>)
        requires
            self.wf(),
        ensures
            match res {
                Ok(out) => (format == ImageFormat::Png || format == ImageFormat::Ppm) && encoded_as(
                    *self,
                    format,
                    out@,
                ),
                Err(e) => format != ImageFormat::Png && format != ImageFormat::Ppm && e
                    == EncodeError::UnsupportedFormat(format),
            },
    {
        match format {
            ImageFormat::Png => Ok(self.write_png()),
            ImageFormat::Ppm => Ok(self.write_ppm()),
            _ => Err(EncodeError::UnsupportedFormat(format)),
        }
    }
}

/// Reading back, under a path that names the format, what `write` wrote
/// gives an image of the same size: with the same pixels for PNG, and with
/// the same colours made opaque for PPM. (It holds where the size can be laid
/// out and the decoder's sizes fit: for PNG the compressed data fits the
/// 32-bit chunk length and the filtered rows fit in memory; for PPM the pixel
/// count fits a `u32`.)
pub proof fn law_write_then_read(
    img: Imagex,
    format: ImageFormat,
    path: Seq<u8>,
    out: Seq<u8>,
    res: Result<Imagex, DecodeError>,
)
    requires
        img.wf(),
        fits_new(img.spec_width(), img.spec_height()),
        format_of_path(path) == format,
        encoded_as(img, format, out),
        read_result(path, out, res),
        format == ImageFormat::Png ==> {
            &&& zlib_compressed(png_filtered(img, img.spec_height() as int), 6).len() <= u32::MAX
            &&& img.spec_height() * (4 * img.spec_width() + 1) <= usize::MAX
        },
        format == ImageFormat::Ppm ==> img.spec_width() * img.spec_height() <= u32::MAX,
    ensures
        res matches Ok(back) && {
            &&& back.laid_out(img.spec_width(), img.spec_height())
            &&& back.spec_info() matches Some(i) && i.format == format && i.bit_depth == 8
                && i.has_alpha == (format == ImageFormat::Png)
            &&& forall|x: int, y: int|
                #![auto]
                img.in_bounds(x, y) ==> back.pixel_at(x, y) == if format == ImageFormat::Png {
                    img.pixel_at(x, y)
                } else {
                    Rgba { r: img.pixel_at(x, y).r, g: img.pixel_at(x, y).g, b: img.pixel_at(x, y).b, a: 255 }
                }
        },
{
    if format == ImageFormat::Png {
        law_png_roundtrip(img, res);
        let back = res->Ok_0;
        assert forall|x: int, y: int| #![auto] img.in_bounds(x, y) implies back.pixel_at(x, y) == img.pixel_at(x, y) by {
            assert(back.in_bounds(x, y));
        }
    } else {
        law_ppm_roundtrip(img, out, res);
    }
}

} // verus!
