//! PNG decoding and encoding over byte buffers: chunk framing, row filters,
//! and the CRC-32 of chunks. The zlib layer is `miniz_oxide`.
use crate::bytes::{extend_bytes, zeroed};
use crate::error::DecodeError;
use crate::image::{fits_new, lemma_cell_in, lemma_lex_lt, law_buffer_layout, packed_pixel, Imagex};
use crate::types::{ColorSpace, ImageFormat, ImageInfo};
use crate::zlib::{deflate_zlib, inflate_zlib, zlib_compressed, zlib_decompressed};
use vstd::prelude::*;

verus! {

/// The eight bytes every PNG file starts with.
pub open spec fn png_signature() -> Seq<u8> {
    seq![0x89u8, 0x50, 0x4E, 0x47, 0x0D, 0x0A, 0x1A, 0x0A]
}

/// The chunk type `IHDR`.
pub open spec fn tag_ihdr() -> Seq<u8> {
    seq![73u8, 72, 68, 82]
}

/// The chunk type `IDAT`.
pub open spec fn tag_idat() -> Seq<u8> {
    seq![73u8, 68, 65, 84]
}

/// The chunk type `IEND`.
pub open spec fn tag_iend() -> Seq<u8> {
    seq![73u8, 69, 78, 68]
}

/// Big-endian `u32` at `i`.
pub open spec fn be_u32(b: Seq<u8>, i: int) -> u32 {
    (b[i] * 16777216 + b[i + 1] * 65536 + b[i + 2] * 256 + b[i + 3]) as u32
}

/// The header fields the decoder keeps from the `IHDR` chunk.
#[derive(Debug, Clone, Copy, PartialEq, Eq, Structural)]
pub struct PngHeader {
    pub width: u32,
    pub height: u32,
    pub bit_depth: u8,
    pub color_type: u8,
}

impl PngHeader {
    /// Colour types 4 (grey + alpha) and 6 (RGBA) carry alpha.
    pub open spec fn spec_has_alpha(self) -> bool {
        self.color_type == 4 || self.color_type == 6
    }

    /// Bytes per pixel as the decoder counts them: 4 with alpha, else 3.
    pub open spec fn spec_bpp(self) -> int {
        if self.spec_has_alpha() {
            4
        } else {
            3
        }
    }
}

/// The header before any `IHDR` chunk is seen.
pub open spec fn empty_header() -> PngHeader {
    PngHeader { width: 0, height: 0, bit_depth: 0, color_type: 0 }
}

/// One step of the chunk scan.
pub enum ChunkStep {
    /// The scan ends with this header and image data.
    Stop(PngHeader, Seq<u8>),
    /// The scan fails.
    Fail(DecodeError),
    /// The scan goes on at the given position with this header and image data.
    Next(int, PngHeader, Seq<u8>),
}

/// Reads the chunk at `pos`: length, type, body and CRC. A missing length ends
/// the scan; an `IEND` type ends it before its CRC; `IHDR` reads 13 body bytes
/// whatever its length says; `IDAT` bodies are collected; other bodies are
/// skipped. Any other shortfall of bytes is an error.
pub open spec fn chunk_step(bytes: Seq<u8>, pos: int, hdr: PngHeader, idat: Seq<u8>) -> ChunkStep {
    if bytes.len() - pos < 4 {
        ChunkStep::Stop(hdr, idat)
    } else if bytes.len() - pos < 8 {
        ChunkStep::Fail(DecodeError::UnexpectedEof)
    } else {
        let len = be_u32(bytes, pos) as int;
        let tag = bytes.subrange(pos + 4, pos + 8);
        let d = pos + 8;
        if tag == tag_iend() {
            ChunkStep::Stop(hdr, idat)
        } else {
            let body = if tag == tag_ihdr() {
                13
            } else {
                len
            };
            if bytes.len() - d < body {
                ChunkStep::Fail(DecodeError::UnexpectedEof)
            } else if bytes.len() - (d + body) < 4 {
                ChunkStep::Fail(DecodeError::UnexpectedEof)
            } else if tag == tag_ihdr() {
                ChunkStep::Next(
                    d + 17,
                    PngHeader {
                        width: be_u32(bytes, d),
                        height: be_u32(bytes, d + 4),
                        bit_depth: bytes[d + 8],
                        color_type: bytes[d + 9],
                    },
                    idat,
                )
            } else if tag == tag_idat() {
                ChunkStep::Next(d + len + 4, hdr, idat + bytes.subrange(d, d + len))
            } else {
                ChunkStep::Next(d + len + 4, hdr, idat)
            }
        }
    }
}

/// Scans chunks from `pos` to the end of the scan.
pub open spec fn scan_chunks(bytes: Seq<u8>, pos: int, hdr: PngHeader, idat: Seq<u8>) -> Result<
    (PngHeader, Seq<u8>),
    DecodeError,
>
    decreases bytes.len() - pos,
{
    match chunk_step(bytes, pos, hdr, idat) {
        ChunkStep::Stop(h, d) => Ok((h, d)),
        ChunkStep::Fail(e) => Err(e),
        ChunkStep::Next(p, h, d) => if p > pos {
            scan_chunks(bytes, p, h, d)
        } else {
            Ok((h, d))
        },
    }
}

/// The header and concatenated image data of a PNG file, or why they cannot be read.
pub open spec fn png_scan(bytes: Seq<u8>) -> Result<(PngHeader, Seq<u8>), DecodeError> {
    if bytes.len() < 8 {
        Err(DecodeError::UnexpectedEof)
    } else if bytes.subrange(0, 8) != png_signature() {
        Err(DecodeError::InvalidSignature)
    } else {
        scan_chunks(bytes, 8, empty_header(), Seq::empty())
    }
}

/// `a + b` modulo 256.
pub open spec fn wadd(a: u8, b: u8) -> u8 {
    if a + b > 255 {
        (a + b - 256) as u8
    } else {
        (a + b) as u8
    }
}

/// Absolute value.
pub open spec fn abs(v: int) -> int {
    if v < 0 {
        -v
    } else {
        v
    }
}

/// The Paeth predictor: whichever of left, up and upper-left is closest to
/// `left + up - upper_left`, preferring left, then up.
pub open spec fn paeth(left: u8, up: u8, upper_left: u8) -> u8 {
    let p = left + up - upper_left;
    let pa = abs(p - left);
    let pb = abs(p - up);
    let pc = abs(p - upper_left);
    if pa <= pb && pa <= pc {
        left
    } else if pb <= pc {
        up
    } else {
        upper_left
    }
}

/// The value that filter type `ft` adds to a filtered byte.
pub open spec fn predictor(ft: u8, left: u8, up: u8, upper_left: u8) -> u8 {
    if ft == 1 {
        left
    } else if ft == 2 {
        up
    } else if ft == 3 {
        ((left + up) / 2) as u8
    } else if ft == 4 {
        paeth(left, up, upper_left)
    } else {
        0
    }
}

/// The first `n` bytes of a row reconstructed from the filtered bytes `cur`,
/// the previous reconstructed row `prev` and `bpp` bytes per pixel.
pub open spec fn recon(ft: u8, cur: Seq<u8>, prev: Seq<u8>, bpp: int, n: int) -> Seq<u8>
    decreases n,
{
    if n <= 0 {
        Seq::empty()
    } else {
        let d = recon(ft, cur, prev, bpp, n - 1);
        let i = n - 1;
        let left = if i >= bpp {
            d[i - bpp]
        } else {
            0u8
        };
        let upper_left = if i >= bpp {
            prev[i - bpp]
        } else {
            0u8
        };
        d.push(wadd(cur[i], predictor(ft, left, prev[i], upper_left)))
    }
}

/// The first `rows` rows of filtered image data reconstructed and concatenated,
/// with the last of them; or the first filter type above 4.
pub open spec fn unfilter(data: Seq<u8>, stride: int, bpp: int, rows: int) -> Result<
    (Seq<u8>, Seq<u8>),
    u8,
>
    decreases rows,
{
    if rows <= 0 {
        Ok((Seq::empty(), Seq::new(stride as nat, |i: int| 0u8)))
    } else {
        match unfilter(data, stride, bpp, rows - 1) {
            Err(f) => Err(f),
            Ok((out, prev)) => {
                let start = (rows - 1) * (stride + 1);
                let ft = data[start];
                if ft > 4 {
                    Err(ft)
                } else {
                    let row = recon(ft, data.subrange(start + 1, start + 1 + stride), prev, bpp, stride);
                    Ok((out + row, row))
                }
            },
        }
    }
}

/// RGB bytes widened to RGBA with alpha 255 (a trailing partial pixel is dropped).
pub open spec fn rgb_to_rgba(rgb: Seq<u8>) -> Seq<u8> {
    Seq::new(
        (rgb.len() / 3 * 4) as nat,
        |i: int|
            if i % 4 == 3 {
                255u8
            } else {
                rgb[(i / 4) * 3 + i % 4]
            },
    )
}

/// The RGBA bytes that decompressed image data decodes to under `hdr`, or why not.
pub open spec fn png_pixels(hdr: PngHeader, data: Seq<u8>) -> Result<Seq<u8>, DecodeError> {
    let bpp = hdr.spec_bpp();
    let stride = hdr.width * bpp;
    let expected = hdr.height * (stride + 1);
    if expected > usize::MAX {
        Err(DecodeError::DimensionsTooLarge)
    } else if data.len() < expected {
        Err(DecodeError::DataTooSmall { got: data.len() as usize, expected: expected as usize })
    } else {
        match unfilter(data, stride, bpp, hdr.height as int) {
            Err(f) => Err(DecodeError::UnsupportedFilter(f)),
            Ok((raw, _)) => Ok(
                if hdr.spec_has_alpha() {
                    raw
                } else {
                    rgb_to_rgba(raw)
                },
            ),
        }
    }
}

/// The metadata a decoded PNG carries.
pub open spec fn is_png_info(info: Option<ImageInfo>, hdr: PngHeader) -> bool {
    info matches Some(i) && {
        &&& i.width == hdr.width
        &&& i.height == hdr.height
        &&& i.format == ImageFormat::Png
        &&& i.color_space == if hdr.spec_has_alpha() {
            ColorSpace::Rgba
        } else {
            ColorSpace::Rgb
        }
        &&& i.bit_depth == hdr.bit_depth
        &&& i.has_alpha == hdr.spec_has_alpha()
        &&& i.compression matches Some(c) && c@ == "DEFLATE"@
    }
}

/// `res` is the image that RGBA bytes `px` make under `hdr`.
pub open spec fn is_png_image(res: Imagex, hdr: PngHeader, px: Seq<u8>) -> bool {
    &&& res.laid_out(hdr.width, hdr.height)
    &&& forall|x: int, y: int|
        #![auto]
        res.in_bounds(x, y) ==> res.pixel_at(x, y) == packed_pixel(px, hdr.width as int, x, y)
    &&& is_png_info(res.spec_info(), hdr)
}

/// What decoding decompressed image data gives: the pixel error, or an error
/// for a size that cannot be laid out, or the image.
pub open spec fn png_data_result(res: Result<Imagex, DecodeError>, hdr: PngHeader, data: Seq<u8>) -> bool {
    match png_pixels(hdr, data) {
        Err(e) => res == Err::<Imagex, DecodeError>(e),
        Ok(px) => if !fits_new(hdr.width, hdr.height) {
            res == Err::<Imagex, DecodeError>(DecodeError::DimensionsTooLarge)
        } else {
            res matches Ok(img) && is_png_image(img, hdr, px)
        },
    }
}


/// Reconstructed rows are as long as asked for.
pub proof fn lemma_recon_len(ft: u8, cur: Seq<u8>, prev: Seq<u8>, bpp: int, n: int)
    requires
        n >= 0,
    ensures
        recon(ft, cur, prev, bpp, n).len() == n,
    decreases n,
{
    if n > 0 {
        lemma_recon_len(ft, cur, prev, bpp, n - 1);
    }
}

/// Once a filter type above 4 is met, every longer run of rows fails with it.
pub proof fn lemma_unfilter_err_sticks(data: Seq<u8>, stride: int, bpp: int, k: int, m: int)
    requires
        0 <= k <= m,
        unfilter(data, stride, bpp, k) is Err,
    ensures
        unfilter(data, stride, bpp, m) == unfilter(data, stride, bpp, k),
    decreases m - k,
{
    if k < m {
        lemma_unfilter_err_sticks(data, stride, bpp, k, m - 1);
    }
}

/// The rows reconstructed so far are `rows * stride` bytes, the last one `stride`.
pub proof fn lemma_unfilter_len(data: Seq<u8>, stride: int, bpp: int, rows: int)
    requires
        rows >= 0,
        stride >= 0,
        unfilter(data, stride, bpp, rows) is Ok,
    ensures
        unfilter(data, stride, bpp, rows)->Ok_0.0.len() == rows * stride,
        unfilter(data, stride, bpp, rows)->Ok_0.1.len() == stride,
    decreases rows,
{
    if rows > 0 {
        lemma_unfilter_len(data, stride, bpp, rows - 1);
        lemma_recon_len(
            data[(rows - 1) * (stride + 1)],
            data.subrange((rows - 1) * (stride + 1) + 1, (rows - 1) * (stride + 1) + 1 + stride),
            unfilter(data, stride, bpp, rows - 1)->Ok_0.1,
            bpp,
            stride,
        );
        assert(rows * stride == (rows - 1) * stride + stride) by (nonlinear_arith);
    }
}

/// Big-endian `u32` at `i`.
fn read_be_u32(bytes: &[u8], i: usize) -> (res: u32)
    requires
        i + 4 <= bytes@.len(),
    ensures
        res == be_u32(bytes@, i as int),
{
    (bytes[i] as u32) * 16777216 + (bytes[i + 1] as u32) * 65536 + (bytes[i + 2] as u32) * 256 + (
    bytes[i + 3] as u32)
}

/// Whether the four bytes at `i` are `t`.
fn tag_at(bytes: &[u8], i: usize, t: [u8; 4]) -> (res: bool)
    requires
        i + 4 <= bytes@.len(),
    ensures
        res == (bytes@.subrange(i as int, i + 4) == t@),
{
    let res = bytes[i] == t[0] && bytes[i + 1] == t[1] && bytes[i + 2] == t[2] && bytes[i + 3] == t[3];
    proof {
        if res {
            assert(bytes@.subrange(i as int, i + 4) =~= t@);
        } else if bytes[i as int] != t@[0] {
            assert(bytes@.subrange(i as int, i + 4)[0] != t@[0]);
        } else if bytes[i + 1] != t@[1] {
            assert(bytes@.subrange(i as int, i + 4)[1] != t@[1]);
        } else if bytes[i + 2] != t@[2] {
            assert(bytes@.subrange(i as int, i + 4)[2] != t@[2]);
        } else {
            assert(bytes@.subrange(i as int, i + 4)[3] != t@[3]);
        }
    }
    res
}

/// Splits a PNG file into its header and concatenated image data.
pub fn parse_png_chunks(bytes: &[u8]) -> (res: Result<(PngHeader, Vec<u8>), DecodeError>)
    ensures
        match png_scan(bytes@) {
            Ok((h, d)) => res matches Ok((h2, v)) && h2 == h && v@ == d,
            Err(e) => res == Err::<(PngHeader, Vec<u8>), DecodeError>(e),
        },
{
    let n = bytes.len();
    if n < 8 {
        return Err(DecodeError::UnexpectedEof);
    }
    let sig: [u8; 8] = [0x89, 0x50, 0x4E, 0x47, 0x0D, 0x0A, 0x1A, 0x0A];
    let mut k: usize = 0;
    while k < 8
        invariant
            0 <= k <= 8,
            n == bytes@.len(),
            n >= 8,
            sig@ == png_signature(),
            forall|j: int| 0 <= j < k ==> bytes@[j] == png_signature()[j],
        decreases 8 - k,
    {
        if bytes[k] != sig[k] {
            proof {
                assert(bytes@.subrange(0, 8)[k as int] != png_signature()[k as int]);
            }
            return Err(DecodeError::InvalidSignature);
        }
        k += 1;
    }
    assert(bytes@.subrange(0, 8) =~= png_signature());
    let t_ihdr: [u8; 4] = [73, 72, 68, 82];
    let t_idat: [u8; 4] = [73, 68, 65, 84];
    let t_iend: [u8; 4] = [73, 69, 78, 68];
    assert(t_ihdr@ == tag_ihdr());
    assert(t_idat@ == tag_idat());
    assert(t_iend@ == tag_iend());
    let mut pos: usize = 8;
    let mut hdr = PngHeader { width: 0, height: 0, bit_depth: 0, color_type: 0 };
    let mut idat: Vec<u8> = Vec::new();
    assert(idat@ =~= Seq::<u8>::empty());
    loop
        invariant
            8 <= pos <= n,
            n == bytes@.len(),
            t_ihdr@ == tag_ihdr(),
            t_idat@ == tag_idat(),
            t_iend@ == tag_iend(),
            png_scan(bytes@) == scan_chunks(bytes@, pos as int, hdr, idat@),
        decreases n - pos,
    {
        if n - pos < 4 {
            return Ok((hdr, idat));
        }
        if n - pos < 8 {
            return Err(DecodeError::UnexpectedEof);
        }
        let len = read_be_u32(bytes, pos);
        let d: usize = pos + 8;
        if tag_at(bytes, pos + 4, t_iend) {
            return Ok((hdr, idat));
        }
        let is_ihdr = tag_at(bytes, pos + 4, t_ihdr);
        let body: usize = if is_ihdr {
            13
        } else {
            len as usize
        };
        if n - d < body {
            return Err(DecodeError::UnexpectedEof);
        }
        if n - d - body < 4 {
            return Err(DecodeError::UnexpectedEof);
        }
        if is_ihdr {
            hdr = PngHeader {
                width: read_be_u32(bytes, d),
                height: read_be_u32(bytes, d + 4),
                bit_depth: bytes[d + 8],
                color_type: bytes[d + 9],
            };
            pos = d + 17;
        } else {
            let lu = len as usize;
            if tag_at(bytes, pos + 4, t_idat) {
                let ghost old_idat = idat@;
                let mut j: usize = 0;
                while j < lu
                    invariant
                        0 <= j <= lu,
                        d + lu <= n,
                        n == bytes@.len(),
                        idat@ == old_idat + bytes@.subrange(d as int, d + j),
                    decreases lu - j,
                {
                    idat.push(bytes[d + j]);
                    j += 1;
                    assert(idat@ =~= old_idat + bytes@.subrange(d as int, d + j));
                }
            }
            pos = d + lu + 4;
        }
    }
}

impl Imagex {
    /// The Paeth predictor on bytes, computed in `i16` as the format describes.
    fn paeth_predictor(left: u8, up: u8, upper_left: u8) -> (res: u8)
        ensures
            res == paeth(left, up, upper_left),
    {
        let p: i16 = left as i16 + up as i16 - upper_left as i16;
        let pa: i16 = abs_i16(p - left as i16);
        let pb: i16 = abs_i16(p - up as i16);
        let pc: i16 = abs_i16(p - upper_left as i16);
        if pa <= pb && pa <= pc {
            left
        } else if pb <= pc {
            up
        } else {
            upper_left
        }
    }
}

fn abs_i16(v: i16) -> (res: i16)
    requires
        v > i16::MIN,
    ensures
        res == abs(v as int),
{
    if v < 0 {
        -v
    } else {
        v
    }
}

/// The value filter type `ft` adds to a filtered byte.
fn predict(ft: u8, left: u8, up: u8, upper_left: u8) -> (res: u8)
    ensures
        res == predictor(ft, left, up, upper_left),
{
    if ft == 1 {
        left
    } else if ft == 2 {
        up
    } else if ft == 3 {
        ((left as u16 + up as u16) / 2) as u8
    } else if ft == 4 {
        Imagex::paeth_predictor(left, up, upper_left)
    } else {
        0
    }
}

/// RGB bytes widened to RGBA with alpha 255.
fn rgb_to_rgba_exec(rgb: &[u8]) -> (res: Vec<u8>)
    ensures
        res@ == rgb_to_rgba(rgb@),
{
    let n: usize = rgb.len();
    let count: usize = n / 3;
    let mut out: Vec<u8> = Vec::new();
    let mut k: usize = 0;
    while k < count
        invariant
            0 <= k <= count,
            n == rgb@.len(),
            count == rgb@.len() / 3,
            out@.len() == 4 * k,
            forall|j: int|
                0 <= j < 4 * k ==> #[trigger] out@[j] == if j % 4 == 3 {
                    255u8
                } else {
                    rgb@[(j / 4) * 3 + j % 4]
                },
        decreases count - k,
    {
        proof {
            vstd::arithmetic::div_mod::lemma_fundamental_div_mod(rgb@.len() as int, 3);
            assert(3 * k + 3 <= rgb@.len());
        }
        out.push(rgb[3 * k]);
        out.push(rgb[3 * k + 1]);
        out.push(rgb[3 * k + 2]);
        out.push(255u8);
        k += 1;
    }
    assert(out@ =~= rgb_to_rgba(rgb@));
    out
}

/// What decoding a PNG file gives, step by step: the framing error; no image
/// data; a zlib error; or what the decompressed data decodes to.
pub open spec fn png_decode_result(res: Result<Imagex, DecodeError>, bytes: Seq<u8>) -> bool {
    match png_scan(bytes) {
        Err(e) => res == Err::<Imagex, DecodeError>(e),
        Ok((hdr, idat)) => if idat.len() == 0 {
            res == Err::<Imagex, DecodeError>(DecodeError::NoImageData)
        } else {
            match zlib_decompressed(idat) {
                None => res matches Err(DecodeError::Decompress(_)),
                Some(d) => png_data_result(res, hdr, d),
            }
        },
    }
}

/// Reconstructs `height` filtered rows of `stride` bytes each.
#[verifier::loop_isolation(false)]
fn unfilter_rows(data: &[u8], height: u32, stride: usize, bpp: usize) -> (res: Result<Vec<u8>, u8>)
    requires
        height * (stride + 1) <= data@.len(),
        bpp == 3 || bpp == 4,
    ensures
        match unfilter(data@, stride as int, bpp as int, height as int) {
            Ok((raw, _)) => res matches Ok(v) && v@ == raw,
            Err(f) => res == Err::<Vec<u8>, u8>(f),
        },
{
    let ghost h = height as int;
    let ghost st = stride as int;
    let n = data.len();
    let mut raw: Vec<u8> = Vec::new();
    let mut prev: Vec<u8> = zeroed(stride);
    let mut row: u32 = 0;
    while row < height
        invariant
            0 <= row <= h,
            unfilter(data@, st, bpp as int, row as int) == Ok::<(Seq<u8>, Seq<u8>), u8>((raw@, prev@)),
        decreases h - row,
    {
        proof {
            lemma_cell_in(st + 1, h, row as int, st + 1);
            lemma_unfilter_len(data@, st, bpp as int, row as int);
            assert(n == data@.len());
        }
        let start: usize = (row as usize) * (stride + 1);
        let ft = data[start];
        if ft > 4 {
            proof {
                lemma_unfilter_err_sticks(data@, st, bpp as int, row + 1, h);
            }
            return Err(ft);
        }
        let ghost cur = data@.subrange(start + 1, start + 1 + stride);
        let mut dec: Vec<u8> = Vec::new();
        let mut i: usize = 0;
        while i < stride
            invariant
                0 <= i <= stride,
                prev@.len() == stride,
                dec@ == recon(ft, cur, prev@, bpp as int, i as int),
            decreases stride - i,
        {
            proof {
                lemma_recon_len(ft, cur, prev@, bpp as int, i as int);
            }
            let left: u8 = if i >= bpp {
                dec[i - bpp]
            } else {
                0
            };
            let up: u8 = prev[i];
            let upper_left: u8 = if i >= bpp {
                prev[i - bpp]
            } else {
                0
            };
            let p = predict(ft, left, up, upper_left);
            dec.push(data[start + 1 + i].wrapping_add(p));
            i += 1;
        }
        extend_bytes(&mut raw, dec.as_slice());
        prev = dec;
        row += 1;
    }
    Ok(raw)
}

/// Decodes decompressed PNG image data (filter byte plus filtered bytes per
/// row) into an image, given the header fields.
pub fn decode_png_data(header: &PngHeader, data: &[u8]) -> (res: Result<Imagex, DecodeError>)
    ensures
        png_data_result(res, *header, data@),
{
    let width = header.width;
    let height = header.height;
    let has_alpha = header.color_type == 4 || header.color_type == 6;
    let bpp: usize = if has_alpha {
        4
    } else {
        3
    };
    let ghost w = width as int;
    let ghost h = height as int;
    let ghost stride_i: int = w * bpp;
    let stride64: u64 = (width as u64) * (bpp as u64);
    let expected64: u64 = match (height as u64).checked_mul(stride64 + 1) {
        Some(e) => e,
        None => {
            return Err(DecodeError::DimensionsTooLarge);
        },
    };
    if expected64 > usize::MAX as u64 {
        return Err(DecodeError::DimensionsTooLarge);
    }
    let expected: usize = expected64 as usize;
    if data.len() < expected {
        return Err(DecodeError::DataTooSmall { got: data.len(), expected });
    }
    let raw: Vec<u8> = if height == 0 {
        Vec::new()
    } else {
        proof {
            assert(stride_i <= h * (stride_i + 1)) by (nonlinear_arith)
                requires
                    h >= 1,
                    stride_i >= 0,
            ;
        }
        match unfilter_rows(data, height, stride64 as usize, bpp) {
            Ok(v) => v,
            Err(f) => {
                return Err(DecodeError::UnsupportedFilter(f));
            },
        }
    };
    proof {
        if height > 0 {
            lemma_unfilter_len(data@, stride_i, bpp as int, h);
        }
        assert(raw@.len() == h * stride_i) by {
            if height == 0 {
                assert(h * stride_i == 0);
            }
        }
        assert(h * stride_i == bpp * (w * h)) by (nonlinear_arith)
            requires
                stride_i == w * bpp,
        ;
        assert(4 * (w * h) == 4 * w * h) by (nonlinear_arith);
    }
    let px: Vec<u8> = if has_alpha {
        raw
    } else {
        proof {
            assert((3 * (w * h)) / 3 == w * h) by (nonlinear_arith);
        }
        rgb_to_rgba_exec(raw.as_slice())
    };
    if !Imagex::fits(width, height) {
        return Err(DecodeError::DimensionsTooLarge);
    }
    let mut img = Imagex::from_raw(px, width, height);
    let info = ImageInfo {
        width,
        height,
        format: ImageFormat::Png,
        color_space: if has_alpha {
            ColorSpace::Rgba
        } else {
            ColorSpace::Rgb
        },
        bit_depth: header.bit_depth,
        has_alpha,
        compression: Some("DEFLATE".to_owned()),
    };
    let ghost before = img;
    img.set_info(Some(info));
    proof {
        assert forall|r: int, c: int|
            0 <= r < img.spec_height() && 4 * img.spec_width() <= c < img.spec_stride() implies #[trigger] img.cell_at(
            r,
            c,
        ) == 0 by {
            assert(img.cell_at(r, c) == before.cell_at(r, c));
        }
        assert forall|x: int, y: int| #![auto] img.in_bounds(x, y) implies img.pixel_at(x, y) == packed_pixel(
            px@,
            w,
            x,
            y,
        ) by {
            assert(img.pixel_at(x, y) == before.pixel_at(x, y));
        }
    }
    Ok(img)
}

impl Imagex {
    /// Decodes a PNG file held in memory into an RGBA image. Only the chunk
    /// framing, the zlib stream and the row filters are interpreted; 8-bit RGB
    /// or RGBA data is what this decoder is meant for.
    pub fn read_png(bytes: &[u8]) -> (res: Result<Imagex, DecodeError>)
        ensures
            png_decode_result(res, bytes@),
    {
        let (header, idat) = match parse_png_chunks(bytes) {
            Ok(v) => v,
            Err(e) => {
                return Err(e);
            },
        };
        if idat.len() == 0 {
            return Err(DecodeError::NoImageData);
        }
        let decompressed = match inflate_zlib(idat.as_slice()) {
            Ok(v) => v,
            Err(e) => {
                return Err(DecodeError::Decompress(e));
            },
        };
        decode_png_data(&header, decompressed.as_slice())
    }
}

/// Big-endian bytes of `n`.
pub open spec fn be32_bytes(n: u32) -> Seq<u8> {
    seq![(n / 16777216) as u8, ((n / 65536) % 256) as u8, ((n / 256) % 256) as u8, (n % 256) as u8]
}

/// One step of the CRC-32 shift register (reflected polynomial 0xEDB88320).
pub open spec fn crc_shift(c: u32) -> u32 {
    if c & 1 != 0 {
        (c >> 1) ^ 0xEDB88320u32
    } else {
        c >> 1
    }
}

/// `k` steps of the CRC-32 shift register.
pub open spec fn crc_bits(c: u32, k: int) -> u32
    decreases k,
{
    if k <= 0 {
        c
    } else {
        crc_shift(crc_bits(c, k - 1))
    }
}

/// The CRC-32 register after feeding `data` into register value `c`.
pub open spec fn crc_update(c: u32, data: Seq<u8>) -> u32
    decreases data.len(),
{
    if data.len() == 0 {
        c
    } else {
        crc_bits(crc_update(c, data.drop_last()) ^ (data.last() as u32), 8)
    }
}

/// The CRC-32 (as used by PNG and zlib) of `data`.
pub open spec fn crc32_spec(data: Seq<u8>) -> u32 {
    crc_update(0xFFFFFFFFu32, data) ^ 0xFFFFFFFFu32
}

/// A PNG chunk: length, type, body, CRC of type and body.
pub open spec fn png_chunk(tag: Seq<u8>, body: Seq<u8>) -> Seq<u8> {
    be32_bytes(body.len() as u32) + tag + body + be32_bytes(crc32_spec(tag + body))
}

/// The `IHDR` body the encoder writes: 8-bit RGBA, no interlace.
pub open spec fn ihdr_body(width: u32, height: u32) -> Seq<u8> {
    be32_bytes(width) + be32_bytes(height) + seq![8u8, 6, 0, 0, 0]
}

/// The PNG file the encoder writes around a compressed image stream.
pub open spec fn png_file(width: u32, height: u32, compressed: Seq<u8>) -> Seq<u8> {
    png_signature() + png_chunk(tag_ihdr(), ihdr_body(width, height)) + png_chunk(tag_idat(), compressed)
        + be32_bytes(0) + tag_iend() + be32_bytes(0xAE426082u32)
}

/// The first `n` rows of `img` as PNG image data: filter type 0, then the
/// row's pixel bytes (padding left out).
pub open spec fn png_filtered(img: Imagex, n: int) -> Seq<u8>
    decreases n,
{
    if n <= 0 {
        Seq::empty()
    } else {
        let s = img.spec_stride() as int;
        png_filtered(img, n - 1) + seq![0u8] + img.bytes().subrange(
            (n - 1) * s,
            (n - 1) * s + 4 * img.spec_width(),
        )
    }
}

/// Appends the big-endian bytes of `n`.
fn push_be32(out: &mut Vec<u8>, n: u32)
    ensures
        final(out)@ == old(out)@ + be32_bytes(n),
{
    out.push((n / 16777216) as u8);
    out.push(((n / 65536) % 256) as u8);
    out.push(((n / 256) % 256) as u8);
    out.push((n % 256) as u8);
    assert(final(out)@ =~= old(out)@ + be32_bytes(n));
}

/// CRC-32 of `data`, bit by bit.
pub fn crc32(data: &[u8]) -> (res: u32)
    ensures
        res == crc32_spec(data@),
{
    let mut crc: u32 = 0xFFFFFFFF;
    let mut i: usize = 0;
    while i < data.len()
        invariant
            0 <= i <= data@.len(),
            crc == crc_update(0xFFFFFFFFu32, data@.subrange(0, i as int)),
        decreases data@.len() - i,
    {
        crc = crc ^ (data[i] as u32);
        let ghost start = crc;
        let mut k: u32 = 0;
        while k < 8
            invariant
                0 <= k <= 8,
                crc == crc_bits(start, k as int),
            decreases 8 - k,
        {
            if crc & 1 != 0 {
                crc = (crc >> 1) ^ 0xEDB88320;
            } else {
                crc = crc >> 1;
            }
            k += 1;
        }
        proof {
            assert(data@.subrange(0, i + 1).drop_last() =~= data@.subrange(0, i as int));
        }
        i += 1;
    }
    assert(data@.subrange(0, data@.len() as int) =~= data@);
    crc ^ 0xFFFFFFFF
}

/// Appends a chunk with the given type and body.
fn push_chunk(out: &mut Vec<u8>, tag: [u8; 4], body: &[u8])
    ensures
        final(out)@ == old(out)@ + png_chunk(tag@, body@),
{
    push_be32(out, body.len() as u32);
    let mut typed: Vec<u8> = Vec::new();
    extend_bytes(&mut typed, tag.as_slice());
    extend_bytes(&mut typed, body);
    extend_bytes(out, typed.as_slice());
    let crc = crc32(typed.as_slice());
    push_be32(out, crc);
    assert(final(out)@ =~= old(out)@ + png_chunk(tag@, body@));
}

impl Imagex {
    /// The image data the PNG encoder compresses: every row as filter byte 0
    /// followed by its pixel bytes.
    pub(crate) fn png_filtered_rows(&self) -> (res: Vec<u8>)
        requires
            self.wf(),
        ensures
            res@ == png_filtered(*self, self.spec_height() as int),
    {
        let mut out: Vec<u8> = Vec::new();
        let mut y: u32 = 0;
        while y < self.height()
            invariant
                0 <= y <= self.spec_height(),
                self.wf(),
                out@ == png_filtered(*self, y as int),
            decreases self.spec_height() - y,
        {
            out.push(0u8);
            extend_bytes(&mut out, self.row(y));
            y += 1;
        }
        out
    }

    /// Encodes the image as an 8-bit RGBA PNG file: an `IHDR` chunk, one
    /// `IDAT` chunk holding the zlib-compressed (level 6) unfiltered rows, and
    /// `IEND`.
    pub fn write_png(&self) -> (res: Vec<u8>)
        requires
            self.wf(),
        ensures
            res@ == png_file(
                self.spec_width(),
                self.spec_height(),
                zlib_compressed(png_filtered(*self, self.spec_height() as int), 6),
            ),
            zlib_decompressed(zlib_compressed(png_filtered(*self, self.spec_height() as int), 6))
                == Some(png_filtered(*self, self.spec_height() as int)),
            zlib_compressed(png_filtered(*self, self.spec_height() as int), 6).len() > 0,
    {
        let mut out: Vec<u8> = Vec::new();
        let sig: [u8; 8] = [0x89, 0x50, 0x4E, 0x47, 0x0D, 0x0A, 0x1A, 0x0A];
        extend_bytes(&mut out, sig.as_slice());
        let mut ihdr: Vec<u8> = Vec::new();
        push_be32(&mut ihdr, self.width());
        push_be32(&mut ihdr, self.height());
        ihdr.push(8u8);
        ihdr.push(6u8);
        ihdr.push(0u8);
        ihdr.push(0u8);
        ihdr.push(0u8);
        assert(ihdr@ =~= ihdr_body(self.spec_width(), self.spec_height()));
        push_chunk(&mut out, [73, 72, 68, 82], ihdr.as_slice());
        let filtered = self.png_filtered_rows();
        let compressed = deflate_zlib(filtered.as_slice(), 6);
        push_chunk(&mut out, [73, 68, 65, 84], compressed.as_slice());
        push_be32(&mut out, 0);
        extend_bytes(&mut out, [73u8, 69, 78, 68].as_slice());
        push_be32(&mut out, 0xAE426082);
        assert(out@ =~= png_file(self.spec_width(), self.spec_height(), compressed@));
        out
    }
}

/// The pixel bytes of the first `n` rows of `img`, padding left out.
pub open spec fn rows_packed(img: Imagex, n: int) -> Seq<u8>
    decreases n,
{
    if n <= 0 {
        Seq::empty()
    } else {
        let s = img.spec_stride() as int;
        rows_packed(img, n - 1) + img.bytes().subrange((n - 1) * s, (n - 1) * s + 4 * img.spec_width())
    }
}

/// Big-endian bytes read back give the number.
pub proof fn lemma_be32_roundtrip(n: u32)
    ensures
        be_u32(be32_bytes(n), 0) == n,
{
    let b = be32_bytes(n);
    assert(b[0] == n / 16777216);
    assert(b[1] == (n / 65536) % 256);
    assert(b[2] == (n / 256) % 256);
    assert(b[3] == n % 256);
}

proof fn lemma_png_filtered_len(img: Imagex, n: int)
    requires
        img.wf(),
        0 <= n <= img.spec_height(),
    ensures
        png_filtered(img, n).len() == n * (4 * img.spec_width() + 1),
    decreases n,
{
    if n > 0 {
        let s = img.spec_stride() as int;
        let w4 = 4 * img.spec_width();
        law_buffer_layout(img);
        lemma_cell_in(s, img.spec_height() as int, n - 1, s);
        lemma_png_filtered_len(img, n - 1);
        let row = img.bytes().subrange((n - 1) * s, (n - 1) * s + w4);
        assert(row.len() == w4);
        assert(png_filtered(img, n) == png_filtered(img, n - 1) + seq![0u8] + row);
        assert(n * (w4 + 1) == (n - 1) * (w4 + 1) + w4 + 1) by (nonlinear_arith);
    } else {
        assert(n * (4 * img.spec_width() + 1) == 0) by (nonlinear_arith)
            requires
                n == 0,
        ;
    }
}

proof fn lemma_png_filtered_prefix(img: Imagex, n: int, m: int)
    requires
        img.wf(),
        0 <= n <= m <= img.spec_height(),
    ensures
        png_filtered(img, m).subrange(0, n * (4 * img.spec_width() + 1)) == png_filtered(img, n),
    decreases m - n,
{
    lemma_png_filtered_len(img, n);
    lemma_png_filtered_len(img, m);
    if n < m {
        lemma_png_filtered_prefix(img, n, m - 1);
        lemma_png_filtered_len(img, m - 1);
        assert(n * (4 * img.spec_width() + 1) <= (m - 1) * (4 * img.spec_width() + 1)) by (nonlinear_arith)
            requires
                n <= m - 1,
        ;
        assert(png_filtered(img, m).subrange(0, n * (4 * img.spec_width() + 1)) =~= png_filtered(
            img,
            m - 1,
        ).subrange(0, n * (4 * img.spec_width() + 1)));
    } else {
        assert(png_filtered(img, m).subrange(0, n * (4 * img.spec_width() + 1)) =~= png_filtered(img, n));
    }
}

/// Filter type 0 reconstructs a row as it stands.
proof fn lemma_recon_none(cur: Seq<u8>, prev: Seq<u8>, bpp: int, n: int)
    requires
        0 <= n <= cur.len(),
    ensures
        recon(0, cur, prev, bpp, n) == cur.subrange(0, n),
    decreases n,
{
    if n > 0 {
        lemma_recon_none(cur, prev, bpp, n - 1);
        assert(recon(0, cur, prev, bpp, n) =~= cur.subrange(0, n));
    }
}

proof fn lemma_unfilter_png_filtered(img: Imagex, n: int)
    requires
        img.wf(),
        0 <= n <= img.spec_height(),
    ensures
        ({
            let w4 = 4 * img.spec_width();
            let r = unfilter(png_filtered(img, img.spec_height() as int), w4, 4, n);
            r is Ok && r->Ok_0.0 == rows_packed(img, n) && r->Ok_0.1.len() == w4
        }),
    decreases n,
{
    let w4 = 4 * img.spec_width();
    let h = img.spec_height() as int;
    let f = png_filtered(img, h);
    if n > 0 {
        lemma_unfilter_png_filtered(img, n - 1);
        lemma_png_filtered_prefix(img, n, h);
        lemma_png_filtered_len(img, n - 1);
        lemma_png_filtered_len(img, n);
        let s = img.spec_stride() as int;
        law_buffer_layout(img);
        lemma_cell_in(s, h, n - 1, s);
        let start = (n - 1) * (w4 + 1);
        assert(n * (w4 + 1) == (n - 1) * (w4 + 1) + w4 + 1) by (nonlinear_arith);
        let pn = png_filtered(img, n);
        let row = img.bytes().subrange((n - 1) * s, (n - 1) * s + w4);
        assert(pn =~= png_filtered(img, n - 1) + seq![0u8] + row);
        let fp = f.subrange(0, n * (w4 + 1));
        lemma_png_filtered_len(img, h);
        assert(0 <= (n - 1) * (w4 + 1) && n * (w4 + 1) <= h * (w4 + 1)) by (nonlinear_arith)
            requires
                1 <= n <= h,
                w4 >= 0,
        ;
        assert(fp == pn);
        assert(f[start] == fp[start]);
        assert(f.subrange(start + 1, start + 1 + w4) =~= row) by {
            assert forall|i: int| 0 <= i < w4 implies f[start + 1 + i] == row[i] by {
                assert(f[start + 1 + i] == fp[start + 1 + i]);
            }
        }
        let prev = unfilter(f, w4, 4, n - 1)->Ok_0.1;
        lemma_recon_none(row, prev, 4, w4);
        assert(row.subrange(0, w4) =~= row);
    }
}

proof fn lemma_rows_packed_len(img: Imagex, n: int)
    requires
        img.wf(),
        0 <= n <= img.spec_height(),
    ensures
        rows_packed(img, n).len() == n * (4 * img.spec_width()),
    decreases n,
{
    let w4 = 4 * img.spec_width();
    if n > 0 {
        let s = img.spec_stride() as int;
        law_buffer_layout(img);
        lemma_cell_in(s, img.spec_height() as int, n - 1, s);
        lemma_rows_packed_len(img, n - 1);
        assert(n * w4 == (n - 1) * w4 + w4) by (nonlinear_arith);
    } else {
        assert(n * w4 == 0) by (nonlinear_arith)
            requires
                n == 0,
        ;
    }
}

proof fn lemma_rows_packed_index(img: Imagex, n: int, r: int, c: int)
    requires
        img.wf(),
        0 <= n <= img.spec_height(),
        0 <= r < n,
        0 <= c < 4 * img.spec_width(),
    ensures
        rows_packed(img, n)[r * (4 * img.spec_width()) + c] == img.cell_at(r, c),
    decreases n,
{
    let w4 = 4 * img.spec_width();
    let s = img.spec_stride() as int;
    law_buffer_layout(img);
    lemma_cell_in(s, img.spec_height() as int, n - 1, s);
    lemma_rows_packed_len(img, n - 1);
    if r < n - 1 {
        lemma_rows_packed_index(img, n - 1, r, c);
        lemma_lex_lt(w4, r, c, n - 1, 0);
    }
}

/// Where the parts of a file written by the encoder lie.
proof fn lemma_png_file_layout(w: u32, h: u32, c: Seq<u8>)
    ensures
        ({
            let file = png_file(w, h, c);
            &&& file.len() == 57 + c.len()
            &&& file.subrange(0, 8) == png_signature()
            &&& file.subrange(8, 33) == png_chunk(tag_ihdr(), ihdr_body(w, h))
            &&& file.subrange(33, 45 + c.len() as int) == png_chunk(tag_idat(), c)
            &&& file.subrange(49 + c.len() as int, 53 + c.len() as int) == tag_iend()
        }),
{
    let file = png_file(w, h, c);
    let b1 = png_chunk(tag_ihdr(), ihdr_body(w, h));
    let b2 = png_chunk(tag_idat(), c);
    let b3 = be32_bytes(0) + tag_iend() + be32_bytes(0xAE426082u32);
    assert(b1.len() == 25);
    assert(b2.len() == 12 + c.len());
    assert(b3.len() == 12);
    assert(file =~= png_signature() + b1 + b2 + b3);
    assert(file.subrange(0, 8) =~= png_signature());
    assert(file.subrange(8, 33) =~= b1);
    assert(file.subrange(33, 45 + c.len() as int) =~= b2);
    assert(file.subrange(49 + c.len() as int, 53 + c.len() as int) =~= b3.subrange(4, 8));
    assert(b3.subrange(4, 8) =~= tag_iend());
}

proof fn lemma_tags_differ()
    ensures
        tag_ihdr() != tag_iend(),
        tag_idat() != tag_iend(),
        tag_idat() != tag_ihdr(),
{
    assert(tag_ihdr()[1] != tag_iend()[1]);
    assert(tag_idat()[1] != tag_iend()[1]);
    assert(tag_idat()[1] != tag_ihdr()[1]);
}

/// The scan of a file written by the encoder finds its header and its one
/// data chunk.
proof fn lemma_scan_png_file(w: u32, h: u32, c: Seq<u8>)
    requires
        0 < c.len() <= u32::MAX,
    ensures
        png_scan(png_file(w, h, c)) == Ok::<(PngHeader, Seq<u8>), DecodeError>(
            (PngHeader { width: w, height: h, bit_depth: 8, color_type: 6 }, c),
        ),
{
    lemma_png_file_layout(w, h, c);
    lemma_scan_laid_out(png_file(w, h, c), w, h, c);
}

#[verifier::rlimit(50)]
proof fn lemma_scan_laid_out(file: Seq<u8>, w: u32, h: u32, c: Seq<u8>)
    requires
        0 < c.len() <= u32::MAX,
        file.len() == 57 + c.len(),
        file.subrange(0, 8) == png_signature(),
        file.subrange(8, 33) == png_chunk(tag_ihdr(), ihdr_body(w, h)),
        file.subrange(33, 45 + c.len() as int) == png_chunk(tag_idat(), c),
        file.subrange(49 + c.len() as int, 53 + c.len() as int) == tag_iend(),
    ensures
        png_scan(file) == Ok::<(PngHeader, Seq<u8>), DecodeError>(
            (PngHeader { width: w, height: h, bit_depth: 8, color_type: 6 }, c),
        ),
{
    let hdr = PngHeader { width: w, height: h, bit_depth: 8, color_type: 6 };
    lemma_tags_differ();
    lemma_step_ihdr(file, png_chunk(tag_ihdr(), ihdr_body(w, h)), ihdr_body(w, h), w, h);
    let p2: int = 45 + c.len() as int;
    lemma_step_idat(file, png_chunk(tag_idat(), c), c, hdr);
    assert(chunk_step(file, p2, hdr, c) == ChunkStep::Stop(hdr, c));
    assert(scan_chunks(file, p2, hdr, c) == Ok::<(PngHeader, Seq<u8>), DecodeError>((hdr, c)));
    assert(scan_chunks(file, 33, hdr, Seq::empty()) == scan_chunks(file, p2, hdr, c));
    assert(scan_chunks(file, 8, empty_header(), Seq::empty()) == scan_chunks(file, 33, hdr, Seq::empty()));
}

proof fn lemma_step_ihdr(file: Seq<u8>, b1: Seq<u8>, ihdr: Seq<u8>, w: u32, h: u32)
    requires
        ihdr == ihdr_body(w, h),
        b1 == png_chunk(tag_ihdr(), ihdr),
        file.len() >= 45,
        file.subrange(8, 33) == b1,
        tag_ihdr() != tag_iend(),
    ensures
        chunk_step(file, 8, empty_header(), Seq::empty()) == ChunkStep::Next(
            33,
            PngHeader { width: w, height: h, bit_depth: 8, color_type: 6 },
            Seq::<u8>::empty(),
        ),
{
    lemma_be32_roundtrip(13);
    lemma_be32_roundtrip(w);
    lemma_be32_roundtrip(h);
    assert(b1.len() == 25);
    assert(be_u32(file, 8) == be_u32(b1, 0)) by {
        let q = file.subrange(8, 33);
        assert(file[8] == q[0] && file[9] == q[1] && file[10] == q[2] && file[11] == q[3]);
    }
    assert(b1.subrange(0, 4) =~= be32_bytes(13));
    assert(file.subrange(12, 16) =~= tag_ihdr()) by {
        assert(file.subrange(12, 16) =~= b1.subrange(4, 8));
    }
    assert(b1.subrange(8, 21) =~= ihdr);
    assert(file.subrange(16, 29) =~= ihdr) by {
        assert(file.subrange(16, 29) =~= b1.subrange(8, 21));
    }
    assert(ihdr.subrange(0, 4) =~= be32_bytes(w));
    assert(ihdr.subrange(4, 8) =~= be32_bytes(h));
    assert(be_u32(file, 16) == w) by {
        let q = file.subrange(16, 29);
        assert(file[16] == q[0] && file[17] == q[1] && file[18] == q[2] && file[19] == q[3]);
        assert(be_u32(ihdr, 0) == be_u32(be32_bytes(w), 0));
    }
    assert(be_u32(file, 20) == h) by {
        let q = file.subrange(16, 29);
        assert(file[20] == q[4] && file[21] == q[5] && file[22] == q[6] && file[23] == q[7]);
        assert(be32_bytes(h)[0] == ihdr[4] && be32_bytes(h)[1] == ihdr[5] && be32_bytes(h)[2] == ihdr[6]
            && be32_bytes(h)[3] == ihdr[7]);
    }
    assert(file[24] == 8 && file[25] == 6) by {
        let q = file.subrange(16, 29);
        assert(file[24] == q[8] && file[25] == q[9]);
    }
}

proof fn lemma_step_idat(file: Seq<u8>, b2: Seq<u8>, c: Seq<u8>, hdr: PngHeader)
    requires
        0 < c.len() <= u32::MAX,
        b2 == png_chunk(tag_idat(), c),
        file.len() == 57 + c.len(),
        file.subrange(33, 45 + c.len() as int) == b2,
        tag_idat() != tag_iend(),
        tag_idat() != tag_ihdr(),
    ensures
        chunk_step(file, 33, hdr, Seq::empty()) == ChunkStep::Next(45 + c.len() as int, hdr, c),
{
    lemma_be32_roundtrip(c.len() as u32);
    assert(b2.subrange(0, 4) =~= be32_bytes(c.len() as u32));
    assert(be_u32(file, 33) == c.len()) by {
        let q = file.subrange(33, 45 + c.len() as int);
        assert(file[33] == q[0] && file[34] == q[1] && file[35] == q[2] && file[36] == q[3]);
        assert(b2[0] == be32_bytes(c.len() as u32)[0]);
        assert(b2[1] == be32_bytes(c.len() as u32)[1]);
        assert(b2[2] == be32_bytes(c.len() as u32)[2]);
        assert(b2[3] == be32_bytes(c.len() as u32)[3]);
    }
    assert(file.subrange(37, 41) =~= tag_idat()) by {
        assert(file.subrange(37, 41) =~= b2.subrange(4, 8));
    }
    assert(file.subrange(41, 41 + c.len() as int) =~= c) by {
        assert(file.subrange(41, 41 + c.len() as int) =~= b2.subrange(8, 8 + c.len() as int));
    }
    assert(Seq::<u8>::empty() + c =~= c);
}

/// The encoder's image data decodes to the image's rows, padding left out.
proof fn lemma_png_pixels_of_filtered(img: Imagex)
    requires
        img.wf(),
        img.spec_height() * (4 * img.spec_width() + 1) <= usize::MAX,
    ensures
        png_pixels(
            PngHeader { width: img.spec_width(), height: img.spec_height(), bit_depth: 8, color_type: 6 },
            png_filtered(img, img.spec_height() as int),
        ) == Ok::<Seq<u8>, DecodeError>(rows_packed(img, img.spec_height() as int)),
{
    let h = img.spec_height() as int;
    law_buffer_layout(img);
    lemma_png_filtered_len(img, h);
    lemma_unfilter_png_filtered(img, h);
}

/// The file the encoder writes is well-framed PNG: the signature; an `IHDR`
/// chunk of 13 bytes declaring the width and height, bit depth 8, colour
/// type 6 (RGBA), compression method 0, filter method 0 and no interlacing;
/// one `IDAT` chunk holding the compressed data; and an empty `IEND` chunk.
/// Every chunk but `IEND` ends with the big-endian CRC-32 of its four type
/// bytes followed by its body, as they stand in the file.
#[verifier::rlimit(100)]
#[verifier::spinoff_prover]
pub proof fn law_png_file_framing(w: u32, h: u32, c: Seq<u8>)
    requires
        c.len() <= u32::MAX,
    ensures
        ({
            let f = png_file(w, h, c);
            let n = c.len() as int;
            &&& f.len() == 57 + n
            &&& f.subrange(0, 8) == seq![0x89u8, 0x50, 0x4E, 0x47, 0x0D, 0x0A, 0x1A, 0x0A]
            &&& be_u32(f, 8) == 13
            &&& f.subrange(12, 16) == seq![73u8, 72, 68, 82]
            &&& be_u32(f, 16) == w
            &&& be_u32(f, 20) == h
            &&& f[24] == 8 && f[25] == 6
            &&& f[26] == 0 && f[27] == 0 && f[28] == 0
            &&& f.subrange(29, 33) == be32_bytes(crc32_spec(f.subrange(12, 29)))
            &&& be_u32(f, 33) == n
            &&& f.subrange(37, 41) == seq![73u8, 68, 65, 84]
            &&& f.subrange(41, 41 + n) == c
            &&& f.subrange(41 + n, 45 + n) == be32_bytes(crc32_spec(f.subrange(37, 41 + n)))
            &&& be_u32(f, 45 + n) == 0
            &&& f.subrange(49 + n, 53 + n) == seq![73u8, 69, 78, 68]
        }),
{
    let f = png_file(w, h, c);
    let n = c.len() as int;
    let ihdr = ihdr_body(w, h);
    lemma_png_file_layout(w, h, c);
    lemma_chunk_fields(png_chunk(tag_ihdr(), ihdr), tag_ihdr(), ihdr);
    lemma_chunk_fields(png_chunk(tag_idat(), c), tag_idat(), c);
    lemma_be32_roundtrip(13);
    lemma_be32_roundtrip(w);
    lemma_be32_roundtrip(h);
    lemma_be32_roundtrip(n as u32);
    lemma_be32_roundtrip(0);
    let b1 = png_chunk(tag_ihdr(), ihdr);
    let b2 = png_chunk(tag_idat(), c);
    lemma_sub_sub(f, 8, b1, 0, 4);
    lemma_sub_sub(f, 8, b1, 4, 8);
    lemma_sub_sub(f, 8, b1, 4, 21);
    lemma_sub_sub(f, 8, b1, 8, 21);
    lemma_sub_sub(f, 8, b1, 21, 25);
    lemma_sub_sub(f, 33, b2, 0, 4);
    lemma_sub_sub(f, 33, b2, 4, 8);
    lemma_sub_sub(f, 33, b2, 4, 8 + n);
    lemma_sub_sub(f, 33, b2, 8, 8 + n);
    lemma_sub_sub(f, 33, b2, 8 + n, 12 + n);
    lemma_be_at(f, 8, be32_bytes(13));
    lemma_be_at(f, 33, be32_bytes(n as u32));
    let q = f.subrange(16, 29);
    assert(q == ihdr);
    assert(q.subrange(0, 4) =~= be32_bytes(w));
    assert(q.subrange(4, 8) =~= be32_bytes(h));
    lemma_sub_sub(f, 16, q, 0, 4);
    lemma_sub_sub(f, 16, q, 4, 8);
    lemma_be_at(f, 16, be32_bytes(w));
    lemma_be_at(f, 20, be32_bytes(h));
    assert(f[24] == q[8] && f[25] == q[9] && f[26] == q[10] && f[27] == q[11] && f[28] == q[12]);
    assert(f.subrange(45 + n, 57 + n) =~= be32_bytes(0) + tag_iend() + be32_bytes(0xAE426082u32));
    assert(f.subrange(45 + n, 49 + n) =~= be32_bytes(0));
    lemma_be_at(f, 45 + n, be32_bytes(0));
}

/// The fields of a chunk the encoder writes.
proof fn lemma_chunk_fields(q: Seq<u8>, tag: Seq<u8>, body: Seq<u8>)
    requires
        tag.len() == 4,
        q == png_chunk(tag, body),
    ensures
        q.len() == 12 + body.len(),
        q.subrange(0, 4) == be32_bytes(body.len() as u32),
        q.subrange(4, 8) == tag,
        q.subrange(8, 8 + body.len() as int) == body,
        q.subrange(4, 8 + body.len() as int) == tag + body,
        q.subrange(8 + body.len() as int, 12 + body.len() as int) == be32_bytes(crc32_spec(tag + body)),
{
    let n = body.len() as int;
    assert(q.subrange(0, 4) =~= be32_bytes(n as u32));
    assert(q.subrange(4, 8) =~= tag);
    assert(q.subrange(8, 8 + n) =~= body);
    assert(q.subrange(4, 8 + n) =~= tag + body);
    assert(q.subrange(8 + n, 12 + n) =~= be32_bytes(crc32_spec(tag + body)));
}

/// A range inside a range of `f` that equals `q`.
proof fn lemma_sub_sub(f: Seq<u8>, a: int, q: Seq<u8>, x: int, y: int)
    requires
        0 <= a,
        a + q.len() <= f.len(),
        f.subrange(a, a + q.len()) == q,
        0 <= x <= y <= q.len(),
    ensures
        f.subrange(a + x, a + y) == q.subrange(x, y),
{
    assert forall|k: int| 0 <= k < y - x implies f.subrange(a + x, a + y)[k] == q.subrange(x, y)[k] by {
        assert(f.subrange(a, a + q.len())[x + k] == f[a + x + k]);
    }
    assert(f.subrange(a + x, a + y) =~= q.subrange(x, y));
}

/// Four bytes at `p` read big-endian as they read on their own.
proof fn lemma_be_at(f: Seq<u8>, p: int, b: Seq<u8>)
    requires
        0 <= p,
        p + 4 <= f.len(),
        b.len() == 4,
        f.subrange(p, p + 4) == b,
    ensures
        be_u32(f, p) == be_u32(b, 0),
{
    assert(f[p] == b[0] && f[p + 1] == b[1] && f[p + 2] == b[2] && f[p + 3] == b[3]) by {
        assert(f.subrange(p, p + 4)[0] == f[p]);
        assert(f.subrange(p, p + 4)[1] == f[p + 1]);
        assert(f.subrange(p, p + 4)[2] == f[p + 2]);
        assert(f.subrange(p, p + 4)[3] == f[p + 3]);
    }
}

/// A chunk as it stands in a file: big-endian body length, type, body, and
/// four CRC bytes (which the decoder does not check).
pub open spec fn raw_chunk(tag: Seq<u8>, body: Seq<u8>, crc: Seq<u8>) -> Seq<u8> {
    be32_bytes(body.len() as u32) + tag + body + crc
}

/// The header an `IHDR` body declares: width and height big-endian, then bit
/// depth and colour type.
pub open spec fn declared_header(ihdr: Seq<u8>) -> PngHeader {
    PngHeader {
        width: be_u32(ihdr, 0),
        height: be_u32(ihdr, 4),
        bit_depth: ihdr[8],
        color_type: ihdr[9],
    }
}

/// What the chunk scan does with one whole chunk standing at `p`.
proof fn lemma_step_raw(
    file: Seq<u8>,
    p: int,
    tag: Seq<u8>,
    body: Seq<u8>,
    crc: Seq<u8>,
    hdr: PngHeader,
    idat: Seq<u8>,
)
    requires
        0 <= p,
        tag.len() == 4,
        crc.len() == 4,
        body.len() <= u32::MAX,
        p + 12 + body.len() <= file.len(),
        file.subrange(p, p + 12 + body.len() as int) == raw_chunk(tag, body, crc),
    ensures
        tag == tag_idat() ==> chunk_step(file, p, hdr, idat) == ChunkStep::Next(
            p + 12 + body.len() as int,
            hdr,
            idat + body,
        ),
        tag == tag_ihdr() && body.len() == 13 ==> chunk_step(file, p, hdr, idat) == ChunkStep::Next(
            p + 25,
            declared_header(body),
            idat,
        ),
        tag == tag_iend() ==> chunk_step(file, p, hdr, idat) == ChunkStep::Stop(hdr, idat),
{
    let n = body.len() as int;
    let q = raw_chunk(tag, body, crc);
    lemma_tags_differ();
    lemma_be32_roundtrip(n as u32);
    assert(q.subrange(0, 4) =~= be32_bytes(n as u32));
    assert(q.subrange(4, 8) =~= tag);
    assert(q.subrange(8, 8 + n) =~= body);
    lemma_sub_sub(file, p, q, 0, 4);
    lemma_sub_sub(file, p, q, 4, 8);
    lemma_sub_sub(file, p, q, 8, 8 + n);
    lemma_be_at(file, p, be32_bytes(n as u32));
    if tag == tag_ihdr() && n == 13 {
        let bd = file.subrange(p + 8, p + 21);
        assert(bd == body);
        assert(bd.subrange(0, 4) =~= body.subrange(0, 4));
        lemma_sub_sub(file, p + 8, bd, 0, 4);
        lemma_sub_sub(file, p + 8, bd, 4, 8);
        assert(body.subrange(4, 8) =~= bd.subrange(4, 8));
        lemma_be_at(file, p + 8, body.subrange(0, 4));
        lemma_be_at(file, p + 12, body.subrange(4, 8));
        lemma_be_at(body, 0, body.subrange(0, 4));
        lemma_be_at(body, 4, body.subrange(4, 8));
        assert(file[p + 16] == bd[8] && file[p + 17] == bd[9]);
    }
}

/// Scanning a file laid out as signature, `IHDR`, then `IDAT(a)` and
/// `IDAT(b)` (with `two`) or `IDAT(a + b)`, then `IEND`.
proof fn lemma_scan_idats(file: Seq<u8>, ihdr: Seq<u8>, k1: Seq<u8>, a: Seq<u8>, k2: Seq<u8>, b: Seq<u8>, k3: Seq<u8>, k4: Seq<u8>, two: bool)
    requires
        ihdr.len() == 13,
        a.len() + b.len() <= u32::MAX,
        k1.len() == 4 && k2.len() == 4 && k3.len() == 4 && k4.len() == 4,
        file.len() == if two { 69 + a.len() + b.len() } else { 57 + a.len() + b.len() },
        file.subrange(0, 8) == png_signature(),
        file.subrange(8, 33) == raw_chunk(tag_ihdr(), ihdr, k1),
        two ==> file.subrange(33, 45 + a.len() as int) == raw_chunk(tag_idat(), a, k2),
        two ==> file.subrange(45 + a.len() as int, 57 + a.len() as int + b.len() as int) == raw_chunk(tag_idat(), b, k3),
        !two ==> file.subrange(33, 45 + a.len() as int + b.len() as int) == raw_chunk(tag_idat(), a + b, k2),
        file.subrange(file.len() - 12, file.len() as int) == raw_chunk(tag_iend(), Seq::empty(), k4),
    ensures
        png_scan(file) == Ok::<(PngHeader, Seq<u8>), DecodeError>((declared_header(ihdr), a + b)),
{
    let la = a.len() as int;
    let lb = b.len() as int;
    let hdr = declared_header(ihdr);
    let e: Seq<u8> = Seq::empty();
    let pe = file.len() - 12;
    lemma_step_raw(file, 8, tag_ihdr(), ihdr, k1, empty_header(), e);
    lemma_step_raw(file, pe, tag_iend(), e, k4, hdr, a + b);
    assert(scan_chunks(file, pe, hdr, a + b) == Ok::<(PngHeader, Seq<u8>), DecodeError>((hdr, a + b)));
    if two {
        lemma_step_raw(file, 33, tag_idat(), a, k2, hdr, e);
        assert(e + a =~= a);
        lemma_step_raw(file, 45 + la, tag_idat(), b, k3, hdr, a);
        assert(scan_chunks(file, 45 + la, hdr, a) == scan_chunks(file, pe, hdr, a + b));
        assert(scan_chunks(file, 33, hdr, e) == scan_chunks(file, 45 + la, hdr, a));
    } else {
        lemma_step_raw(file, 33, tag_idat(), a + b, k2, hdr, e);
        assert(e + (a + b) =~= a + b);
        assert(scan_chunks(file, 33, hdr, e) == scan_chunks(file, pe, hdr, a + b));
    }
    assert(scan_chunks(file, 8, empty_header(), e) == scan_chunks(file, 33, hdr, e));
}

/// Where the parts of a concatenation stand in it.
proof fn lemma_parts(p0: Seq<u8>, p1: Seq<u8>, p2: Seq<u8>, p3: Seq<u8>, p4: Seq<u8>)
    ensures
        ({
            let f = p0 + p1 + p2 + p3 + p4;
            let o1 = p0.len() as int;
            let o2 = o1 + p1.len();
            let o3 = o2 + p2.len();
            let o4 = o3 + p3.len();
            &&& f.len() == o4 + p4.len()
            &&& f.subrange(0, o1) == p0
            &&& f.subrange(o1, o2) == p1
            &&& f.subrange(o2, o3) == p2
            &&& f.subrange(o3, o4) == p3
            &&& f.subrange(o4, f.len() as int) == p4
        }),
{
    let f = p0 + p1 + p2 + p3 + p4;
    let o1 = p0.len() as int;
    let o2 = o1 + p1.len();
    let o3 = o2 + p2.len();
    let o4 = o3 + p3.len();
    assert(f.subrange(0, o1) =~= p0);
    assert(f.subrange(o1, o2) =~= p1);
    assert(f.subrange(o2, o3) =~= p2);
    assert(f.subrange(o3, o4) =~= p3);
    assert(f.subrange(o4, f.len() as int) =~= p4);
}

/// The chunk scan gathers the image data of a file from all its `IDAT`
/// chunks, in file order: a file with chunks `IHDR`, `IDAT(a)`, `IDAT(b)`,
/// `IEND` scans to the declared header and `a + b`, as does the file with
/// one `IDAT(a + b)`, so both decode to the same result. (The CRC bytes are
/// not checked, so any values stand there.)
#[verifier::rlimit(100)]
#[verifier::spinoff_prover]
pub proof fn law_png_idat_concatenated(
    ihdr: Seq<u8>,
    a: Seq<u8>,
    b: Seq<u8>,
    k1: Seq<u8>,
    k2: Seq<u8>,
    k3: Seq<u8>,
    k4: Seq<u8>,
)
    requires
        ihdr.len() == 13,
        a.len() + b.len() <= u32::MAX,
        k1.len() == 4 && k2.len() == 4 && k3.len() == 4 && k4.len() == 4,
    ensures
        ({
            let head = png_signature() + raw_chunk(tag_ihdr(), ihdr, k1);
            let tail = raw_chunk(tag_iend(), Seq::empty(), k4);
            let two = head + raw_chunk(tag_idat(), a, k2) + raw_chunk(tag_idat(), b, k3) + tail;
            let one = head + raw_chunk(tag_idat(), a + b, k2) + tail;
            &&& png_scan(two) == Ok::<(PngHeader, Seq<u8>), DecodeError>((declared_header(ihdr), a + b))
            &&& png_scan(one) == Ok::<(PngHeader, Seq<u8>), DecodeError>((declared_header(ihdr), a + b))
            &&& forall|res: Result<Imagex, DecodeError>|
                #![auto]
                png_decode_result(res, two) == png_decode_result(res, one)
        }),
{
    let c1 = raw_chunk(tag_ihdr(), ihdr, k1);
    let ca = raw_chunk(tag_idat(), a, k2);
    let cb = raw_chunk(tag_idat(), b, k3);
    let cab = raw_chunk(tag_idat(), a + b, k2);
    let ce = raw_chunk(tag_iend(), Seq::empty(), k4);
    let la = a.len() as int;
    let lb = b.len() as int;
    assert(c1.len() == 25 && ca.len() == 12 + la && cb.len() == 12 + lb && cab.len() == 12 + la + lb
        && ce.len() == 12);
    lemma_parts(png_signature(), c1, ca, cb, ce);
    lemma_parts(png_signature(), c1, cab, Seq::empty(), ce);
    assert(png_signature() + c1 + cab + Seq::<u8>::empty() + ce =~= png_signature() + c1 + cab + ce);
    lemma_scan_idats(png_signature() + c1 + ca + cb + ce, ihdr, k1, a, k2, b, k3, k4, true);
    lemma_scan_idats(png_signature() + c1 + cab + ce, ihdr, k1, a, k2, b, k3, k4, false);
    lemma_same_scan_same_decode(png_signature() + c1 + ca + cb + ce, png_signature() + c1 + cab + ce);
}

/// Files that scan alike decode alike.
proof fn lemma_same_scan_same_decode(f1: Seq<u8>, f2: Seq<u8>)
    requires
        png_scan(f1) == png_scan(f2),
    ensures
        forall|res: Result<Imagex, DecodeError>| #![auto] png_decode_result(res, f1) == png_decode_result(res, f2),
{
}

/// Byte `i` of a reconstructed row: the filtered byte plus the predictor of
/// its left, upper and upper-left neighbours, modulo 256.
proof fn lemma_recon_index(ft: u8, cur: Seq<u8>, prev: Seq<u8>, bpp: int, n: int, i: int)
    requires
        0 <= i < n,
        bpp > 0,
    ensures
        recon(ft, cur, prev, bpp, n).len() == n,
        recon(ft, cur, prev, bpp, n)[i] == wadd(
            cur[i],
            predictor(
                ft,
                if i >= bpp {
                    recon(ft, cur, prev, bpp, n)[i - bpp]
                } else {
                    0u8
                },
                prev[i],
                if i >= bpp {
                    prev[i - bpp]
                } else {
                    0u8
                },
            ),
        ),
    decreases n,
{
    lemma_recon_len(ft, cur, prev, bpp, n);
    lemma_recon_len(ft, cur, prev, bpp, n - 1);
    if i < n - 1 {
        lemma_recon_index(ft, cur, prev, bpp, n - 1, i);
        let d = recon(ft, cur, prev, bpp, n - 1);
        assert(recon(ft, cur, prev, bpp, n)[i] == d[i]);
        if i >= bpp {
            assert(recon(ft, cur, prev, bpp, n)[i - bpp] == d[i - bpp]);
        }
    } else {
        let d = recon(ft, cur, prev, bpp, n - 1);
        if i >= bpp {
            assert(recon(ft, cur, prev, bpp, n)[i - bpp] == d[i - bpp]);
        }
    }
}

/// Row `y` of reconstructed data is its filtered row reconstructed against
/// the row before it (zeros above the first row), with a filter type of at
/// most 4.
proof fn lemma_unfilter_row(data: Seq<u8>, st: int, bpp: int, n: int, y: int)
    requires
        st >= 0,
        0 <= y < n,
        unfilter(data, st, bpp, n) is Ok,
    ensures
        ({
            let out = unfilter(data, st, bpp, n)->Ok_0.0;
            let base = y * (st + 1);
            let prev = if y == 0 {
                Seq::new(st as nat, |k: int| 0u8)
            } else {
                out.subrange((y - 1) * st, y * st)
            };
            &&& out.len() == n * st
            &&& data[base] <= 4
            &&& out.subrange(y * st, y * st + st) == recon(
                data[base],
                data.subrange(base + 1, base + 1 + st),
                prev,
                bpp,
                st,
            )
        }),
    decreases n,
{
    lemma_unfilter_len(data, st, bpp, n);
    let out = unfilter(data, st, bpp, n)->Ok_0.0;
    assert(unfilter(data, st, bpp, n - 1) is Ok);
    lemma_unfilter_len(data, st, bpp, n - 1);
    let before = unfilter(data, st, bpp, n - 1)->Ok_0.0;
    let last = unfilter(data, st, bpp, n - 1)->Ok_0.1;
    let base = (n - 1) * (st + 1);
    let row = recon(data[base], data.subrange(base + 1, base + 1 + st), last, bpp, st);
    lemma_recon_len(data[base], data.subrange(base + 1, base + 1 + st), last, bpp, st);
    assert(out == before + row);
    assert((n - 1) * st + st == n * st) by (nonlinear_arith);
    if y < n - 1 {
        lemma_unfilter_row(data, st, bpp, n - 1, y);
        lemma_cell_in(st, n - 1, y, st);
        assert(out.subrange(y * st, y * st + st) =~= before.subrange(y * st, y * st + st));
        if y > 0 {
            lemma_cell_in(st, n - 1, y - 1, st);
            assert((y - 1) * st + st == y * st) by (nonlinear_arith);
            assert(out.subrange((y - 1) * st, y * st) =~= before.subrange((y - 1) * st, y * st));
        }
    } else {
        assert(out.subrange(y * st, y * st + st) =~= row);
        if y == 0 {
            assert(last =~= Seq::new(st as nat, |k: int| 0u8));
        } else {
            // The last row before this one is what `unfilter` carried along.
            lemma_unfilter_last(data, st, bpp, n - 1);
            assert((n - 2) * st + st == (n - 1) * st) by (nonlinear_arith);
            assert(out.subrange((y - 1) * st, y * st) =~= before.subrange((n - 2) * st, (n - 1) * st));
        }
    }
}

/// The row `unfilter` carries along is the last one it reconstructed.
proof fn lemma_unfilter_last(data: Seq<u8>, st: int, bpp: int, n: int)
    requires
        st >= 0,
        n > 0,
        unfilter(data, st, bpp, n) is Ok,
    ensures
        unfilter(data, st, bpp, n)->Ok_0.1 == unfilter(data, st, bpp, n)->Ok_0.0.subrange(
            (n - 1) * st,
            n * st,
        ),
{
    lemma_unfilter_len(data, st, bpp, n);
    assert(unfilter(data, st, bpp, n - 1) is Ok);
    lemma_unfilter_len(data, st, bpp, n - 1);
    let before = unfilter(data, st, bpp, n - 1)->Ok_0.0;
    assert((n - 1) * st + st == n * st) by (nonlinear_arith);
    assert(unfilter(data, st, bpp, n)->Ok_0.0.subrange((n - 1) * st, n * st) =~= unfilter(
        data,
        st,
        bpp,
        n,
    )->Ok_0.1);
}

/// Bytes per pixel of a row of 8-bit image data as the decoder reads it: 4
/// for the colour types with alpha (4 and 6), 3 for the others.
pub open spec fn row_bpp(hdr: PngHeader) -> int {
    if hdr.color_type == 4 || hdr.color_type == 6 {
        4
    } else {
        3
    }
}

/// Byte `i` of reconstructed row `y`, as it stands in the decoded RGBA
/// pixels `px` of an image `width` pixels wide with `bpp` bytes per pixel.
pub open spec fn decoded_byte(px: Seq<u8>, width: int, bpp: int, y: int, i: int) -> int {
    px[4 * (y * width + i / bpp) + i % bpp] as int
}

/// What filter type `ft` adds to a filtered byte, on integers as the PNG
/// format defines the filters: nothing (0), the byte to the left (1, Sub),
/// the byte above (2, Up), the integer mean of those two (3, Average), or
/// whichever of left, above and upper-left is closest to
/// `left + above - upper_left`, preferring left, then above (4, Paeth).
pub open spec fn filter_term(ft: int, left: int, up: int, upper_left: int) -> int {
    if ft == 1 {
        left
    } else if ft == 2 {
        up
    } else if ft == 3 {
        (left + up) / 2
    } else if ft == 4 {
        let p = left + up - upper_left;
        let pa = if p >= left { p - left } else { left - p };
        let pb = if p >= up { p - up } else { up - p };
        let pc = if p >= upper_left { p - upper_left } else { upper_left - p };
        if pa <= pb && pa <= pc {
            left
        } else if pb <= pc {
            up
        } else {
            upper_left
        }
    } else {
        0
    }
}

/// Adding the predictor modulo 256 is adding the filter's integer term.
proof fn lemma_predictor_term(a: u8, ft: u8, left: u8, up: u8, upper_left: u8)
    requires
        ft <= 4,
    ensures
        wadd(a, predictor(ft, left, up, upper_left)) as int == (a + filter_term(
            ft as int,
            left as int,
            up as int,
            upper_left as int,
        )) % 256,
{
    let t = filter_term(ft as int, left as int, up as int, upper_left as int);
    assert(0 <= t <= 255);
    assert(predictor(ft, left, up, upper_left) as int == t);
}

/// Where a reconstructed byte stands in the decoded RGBA pixels.
proof fn lemma_decoded_at(hdr: PngHeader, raw: Seq<u8>, px: Seq<u8>, y: int, i: int)
    requires
        raw.len() == hdr.height * (hdr.width * row_bpp(hdr)),
        px == if hdr.spec_has_alpha() {
            raw
        } else {
            rgb_to_rgba(raw)
        },
        0 <= y < hdr.height,
        0 <= i < hdr.width * row_bpp(hdr),
    ensures
        0 <= y * (hdr.width * row_bpp(hdr)) + i < raw.len(),
        decoded_byte(px, hdr.width as int, row_bpp(hdr), y, i) == raw[y * (hdr.width * row_bpp(hdr)) + i],
        row_bpp(hdr) == 3 ==> px[4 * (y * hdr.width + i / 3) + 3] == 255,
{
    let b = row_bpp(hdr);
    let w = hdr.width as int;
    let h = hdr.height as int;
    let st = w * b;
    lemma_cell_in(st, h, y, st);
    vstd::arithmetic::div_mod::lemma_fundamental_div_mod(i, b);
    vstd::arithmetic::div_mod::lemma_mod_bound(i, b);
    let q = i / b;
    let r = i % b;
    assert(b * (y * w + q) + r == y * st + i) by (nonlinear_arith)
        requires
            i == b * q + r,
            st == w * b,
    ;
    if b == 4 {
        assert(decoded_byte(px, w, b, y, i) == px[y * st + i]);
    } else {
        assert(0 <= q < w) by (nonlinear_arith)
            requires
                i == 3 * q + r,
                0 <= r < 3,
                0 <= i < w * 3,
        ;
        assert(y * w + q < h * w) by {
            lemma_lex_lt(w, y, q, h, 0);
            assert(h * w == h * w);
        }
        assert(raw.len() == (h * w) * 3) by (nonlinear_arith)
            requires
                raw.len() == h * (w * 3),
        ;
        vstd::arithmetic::div_mod::lemma_fundamental_div_mod_converse(raw.len() as int, 3, h * w, 0);
        let j = 4 * (y * w + q) + r;
        assert(0 <= y * w + q) by (nonlinear_arith)
            requires
                0 <= y,
                0 <= w,
                0 <= q,
        ;
        vstd::arithmetic::div_mod::lemma_fundamental_div_mod_converse(j, 4, y * w + q, r);
        vstd::arithmetic::div_mod::lemma_fundamental_div_mod_converse(4 * (y * w + q) + 3, 4, y * w + q, 3);
        assert(px.len() == (h * w) * 4);
        assert(j < px.len() && 4 * (y * w + q) + 3 < px.len());
        assert(px[j] == raw[(y * w + q) * 3 + r]);
    }
}

/// The decoder undoes the PNG row filters as the format defines them, with
/// 3 bytes per pixel without alpha and 4 with it: every decoded byte is its
/// filtered byte plus the filter's term over the decoded bytes to its left,
/// above and above-left (0 past the edge), modulo 256; filter types are 0
/// to 4; and pixels without alpha come out opaque.
#[verifier::rlimit(100)]
#[verifier::spinoff_prover]
pub proof fn law_png_unfiltering(hdr: PngHeader, data: Seq<u8>, px: Seq<u8>, y: int, i: int)
    requires
        png_pixels(hdr, data) == Ok::<Seq<u8>, DecodeError>(px),
        0 <= y < hdr.height,
        0 <= i < hdr.width * row_bpp(hdr),
    ensures
        ({
            let b = row_bpp(hdr);
            let w = hdr.width as int;
            let base = y * (w * b + 1);
            let left = if i >= b {
                decoded_byte(px, w, b, y, i - b)
            } else {
                0
            };
            let up = if y > 0 {
                decoded_byte(px, w, b, y - 1, i)
            } else {
                0
            };
            let upper_left = if i >= b && y > 0 {
                decoded_byte(px, w, b, y - 1, i - b)
            } else {
                0
            };
            &&& data[base] <= 4
            &&& decoded_byte(px, w, b, y, i) == (data[base + 1 + i] + filter_term(
                data[base] as int,
                left,
                up,
                upper_left,
            )) % 256
            &&& b == 3 ==> px[4 * (y * w + i / 3) + 3] == 255
        }),
{
    let b = row_bpp(hdr);
    let w = hdr.width as int;
    let h = hdr.height as int;
    let st = w * b;
    let base = y * (st + 1);
    assert(hdr.spec_bpp() == b);
    let un = unfilter(data, st, b, h);
    assert(un is Ok);
    let raw = un->Ok_0.0;
    lemma_unfilter_row(data, st, b, h, y);
    let ft = data[base];
    let cur = data.subrange(base + 1, base + 1 + st);
    let prev = if y == 0 {
        Seq::new(st as nat, |k: int| 0u8)
    } else {
        raw.subrange((y - 1) * st, y * st)
    };
    let row = recon(ft, cur, prev, b, st);
    assert(raw.subrange(y * st, y * st + st) == row);
    lemma_cell_in(st, h, y, st);
    assert(raw.len() == h * st);
    lemma_recon_index(ft, cur, prev, b, st, i);
    assert(raw.subrange(y * st, y * st + st)[i] == raw[y * st + i]);
    if i >= b {
        assert(raw.subrange(y * st, y * st + st)[i - b] == raw[y * st + (i - b)]);
    }
    lemma_cell_in(st + 1, h, y, st + 1);
    assert(cur[i] == data[base + 1 + i]);
    lemma_decoded_at(hdr, raw, px, y, i);
    assert(raw[y * st + i] == row[i]);
    if i >= b {
        lemma_decoded_at(hdr, raw, px, y, i - b);
        assert(raw[y * st + (i - b)] == row[i - b]);
    }
    if y > 0 {
        lemma_decoded_at(hdr, raw, px, y - 1, i);
        assert((y - 1) * st + st == y * st) by (nonlinear_arith);
        assert(prev[i] == raw[(y - 1) * st + i]);
        if i >= b {
            lemma_decoded_at(hdr, raw, px, y - 1, i - b);
            assert(prev[i - b] == raw[(y - 1) * st + (i - b)]);
        }
    }
    let left = if i >= b {
        row[i - b]
    } else {
        0u8
    };
    let ul = if i >= b {
        prev[i - b]
    } else {
        0u8
    };
    lemma_predictor_term(cur[i], ft, left, prev[i], ul);
}

/// Decoding what `write_png` wrote gives back an image of the same size with
/// the same pixels, marked as an 8-bit RGBA PNG. (It holds where the size can
/// be laid out, the image data fits in memory, and the compressed data fits
/// the 32-bit chunk length.)
pub proof fn law_png_roundtrip(img: Imagex, res: Result<Imagex, DecodeError>)
    requires
        img.wf(),
        fits_new(img.spec_width(), img.spec_height()),
        zlib_decompressed(zlib_compressed(png_filtered(img, img.spec_height() as int), 6)) == Some(
            png_filtered(img, img.spec_height() as int),
        ),
        0 < zlib_compressed(png_filtered(img, img.spec_height() as int), 6).len() <= u32::MAX,
        img.spec_height() * (4 * img.spec_width() + 1) <= usize::MAX,
        png_decode_result(
            res,
            png_file(
                img.spec_width(),
                img.spec_height(),
                zlib_compressed(png_filtered(img, img.spec_height() as int), 6),
            ),
        ),
    ensures
        res matches Ok(out) && {
            &&& out.laid_out(img.spec_width(), img.spec_height())
            &&& out.same_pixels(img)
            &&& out.spec_info() matches Some(i) && i.format == ImageFormat::Png && i.has_alpha
                && i.bit_depth == 8
        },
{
    let w = img.spec_width();
    let h = img.spec_height();
    let f = png_filtered(img, h as int);
    let c = zlib_compressed(f, 6);
    lemma_scan_png_file(w, h, c);
    lemma_png_pixels_of_filtered(img);
    lemma_rows_packed_len(img, h as int);
    let raw = rows_packed(img, h as int);
    let out = res->Ok_0;
    assert forall|x: int, y: int| #![auto] out.in_bounds(x, y) implies out.pixel_at(x, y) == img.pixel_at(
        x,
        y,
    ) by {
        assert(out.pixel_at(x, y) == packed_pixel(raw, w as int, x, y));
        assert(4 * (y * w + x) == y * (4 * w) + 4 * x) by (nonlinear_arith);
        lemma_rows_packed_index(img, h as int, y, 4 * x);
        lemma_rows_packed_index(img, h as int, y, 4 * x + 1);
        lemma_rows_packed_index(img, h as int, y, 4 * x + 2);
        lemma_rows_packed_index(img, h as int, y, 4 * x + 3);
    }
}

} // verus!
