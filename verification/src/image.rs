//! The image buffer: RGBA pixels in row-major order, each row padded to a
//! stride of bytes.
use crate::bytes::zeroed;
use crate::rgba::Rgba;
use crate::types::{ImageFormat, ImageInfo};
use vstd::prelude::*;

verus! {

/// Bytes per row that `Imagex::new` uses: `4 * width` rounded up to a multiple of 16.
pub open spec fn aligned_stride_of(width: u32) -> int {
    ((4 * width + 15) / 16) * 16
}

/// `n` rounded up to a multiple of `align`.
pub open spec fn rounded_up(n: int, align: int) -> int {
    ((n + align - 1) / align) * align
}

/// The sizes for which `Imagex::new` can lay the buffer out: the stride fits
/// the `u32` field and the whole buffer fits in memory addresses.
pub open spec fn fits_new(width: u32, height: u32) -> bool {
    &&& aligned_stride_of(width) <= u32::MAX
    &&& height * aligned_stride_of(width) <= usize::MAX
}

/// Byte at column `col` of row `row` in a buffer whose rows start `stride` bytes apart.
pub open spec fn cell(bytes: Seq<u8>, stride: int, row: int, col: int) -> u8 {
    bytes[row * stride + col]
}

/// Pixel `(x, y)` of a strided RGBA buffer: the four bytes from column `4 * x` of row `y`.
pub open spec fn cells_pixel(bytes: Seq<u8>, stride: int, x: int, y: int) -> Rgba {
    Rgba {
        r: cell(bytes, stride, y, 4 * x),
        g: cell(bytes, stride, y, 4 * x + 1),
        b: cell(bytes, stride, y, 4 * x + 2),
        a: cell(bytes, stride, y, 4 * x + 3),
    }
}

/// Pixel `(x, y)` of tightly packed RGBA bytes, `width` pixels per row.
pub open spec fn packed_pixel(packed: Seq<u8>, width: int, x: int, y: int) -> Rgba {
    Rgba::from_bytes_at(packed, 4 * (y * width + x))
}

/// Pixel `(x, y)` of tightly packed RGB bytes, made opaque.
pub open spec fn packed_rgb_pixel(rgb: Seq<u8>, width: int, x: int, y: int) -> Rgba {
    let i = 3 * (y * width + x);
    Rgba { r: rgb[i], g: rgb[i + 1], b: rgb[i + 2], a: 255 }
}

/// Byte `k` (0, 1 or 2) of pixel `(x, y)` in tightly packed RGB bytes.
pub open spec fn rgb8_at(rgb: Seq<u8>, width: int, x: int, y: int, k: int) -> u8 {
    rgb[3 * (y * width + x) + k]
}

/// Row-major position `(r1, c1)` comes before `(r2, c2)` in a grid of rows `w` wide.
pub proof fn lemma_lex_lt(w: int, r1: int, c1: int, r2: int, c2: int)
    requires
        0 <= r1,
        0 <= r2,
        0 <= c1 < w,
        0 <= c2,
        r1 < r2 || (r1 == r2 && c1 < c2),
    ensures
        r1 * w + c1 < r2 * w + c2,
{
    if r1 < r2 {
        assert(r1 * w + w <= r2 * w) by (nonlinear_arith)
            requires
                r1 < r2,
                0 <= w,
        ;
    }
}

/// Cells of a strided grid do not overlap.
pub proof fn lemma_cell_distinct(stride: int, r1: int, c1: int, r2: int, c2: int)
    requires
        0 <= r1,
        0 <= r2,
        0 <= c1 < stride,
        0 <= c2 < stride,
        r1 != r2 || c1 != c2,
    ensures
        r1 * stride + c1 != r2 * stride + c2,
{
    if r1 < r2 || (r1 == r2 && c1 < c2) {
        lemma_lex_lt(stride, r1, c1, r2, c2);
    } else {
        lemma_lex_lt(stride, r2, c2, r1, c1);
    }
}

/// A cell of a grid of `height` rows lies inside the grid.
pub proof fn lemma_cell_in(stride: int, height: int, row: int, col: int)
    requires
        0 <= row < height,
        0 <= col <= stride,
    ensures
        0 <= row * stride,
        row * stride + col <= height * stride,
        row * stride <= (height - 1) * stride,
{
    assert(0 <= row * stride) by (nonlinear_arith)
        requires
            0 <= row,
            0 <= col <= stride,
    ;
    assert(row * stride + stride <= height * stride) by (nonlinear_arith)
        requires
            0 <= row < height,
            0 <= col <= stride,
    ;
    assert(row * stride <= (height - 1) * stride) by (nonlinear_arith)
        requires
            0 <= row < height,
            0 <= col <= stride,
    ;
}

/// Optimised image buffer: RGBA bytes in row-major order, each row starting a
/// `stride` of bytes after the previous one (the bytes after `4 * width` in a
/// row are padding).
#[derive(Debug, Clone)]
pub struct Imagex {
    data: Vec<u8>,
    width: u32,
    height: u32,
    stride: u32,
    /// Metadata, filled in when the image is decoded.
    pub info: Option<ImageInfo>,
}

impl Imagex {
    pub closed spec fn spec_width(&self) -> u32 {
        self.width
    }

    pub closed spec fn spec_height(&self) -> u32 {
        self.height
    }

    pub closed spec fn spec_stride(&self) -> u32 {
        self.stride
    }

    pub closed spec fn spec_info(&self) -> Option<ImageInfo> {
        self.info
    }

    /// The whole byte buffer, padding included.
    pub closed spec fn bytes(&self) -> Seq<u8> {
        self.data@
    }

    /// Rows hold their pixels, and the buffer holds exactly `height` rows.
    pub closed spec fn wf(&self) -> bool {
        &&& 4 * self.width <= self.stride
        &&& self.data@.len() == self.height * self.stride
        &&& self.height * self.stride <= usize::MAX
    }

    pub open spec fn cell_at(&self, row: int, col: int) -> u8 {
        cell(self.bytes(), self.spec_stride() as int, row, col)
    }

    pub open spec fn in_bounds(&self, x: int, y: int) -> bool {
        0 <= x < self.spec_width() && 0 <= y < self.spec_height()
    }

    /// The pixel at column `x` of row `y`.
    pub open spec fn pixel_at(&self, x: int, y: int) -> Rgba {
        cells_pixel(self.bytes(), self.spec_stride() as int, x, y)
    }

    /// Every padding byte is zero.
    pub open spec fn padding_zero(&self) -> bool {
        forall|r: int, c: int|
            0 <= r < self.spec_height() && 4 * self.spec_width() <= c < self.spec_stride()
                ==> #[trigger] self.cell_at(r, c) == 0
    }

    /// Same width, height and stride.
    pub open spec fn same_shape(&self, other: Imagex) -> bool {
        &&& self.spec_width() == other.spec_width()
        &&& self.spec_height() == other.spec_height()
        &&& self.spec_stride() == other.spec_stride()
    }

    /// Every pixel of `self` equals the one of `other` at the same place.
    pub open spec fn same_pixels(&self, other: Imagex) -> bool {
        forall|x: int, y: int| #![auto] self.in_bounds(x, y) ==> self.pixel_at(x, y) == other.pixel_at(x, y)
    }

    /// The layout that `new`, `from_raw` and `from_rgb8` produce, metadata aside.
    pub open spec fn laid_out(&self, width: u32, height: u32) -> bool {
        &&& self.wf()
        &&& self.spec_width() == width
        &&& self.spec_height() == height
        &&& self.spec_stride() == aligned_stride_of(width)
        &&& self.padding_zero()
    }

    /// The layout that `new`, `from_raw` and `from_rgb8` produce.
    pub open spec fn fresh_layout(&self, width: u32, height: u32) -> bool {
        &&& self.laid_out(width, height)
        &&& self.spec_info() is None
    }

    /// What `set_pixel(x, y, p)` leaves: the four bytes of the pixel replaced.
    pub open spec fn set_pixel_post(before: Imagex, after: Imagex, x: int, y: int, p: Rgba) -> bool {
        let o = y * before.spec_stride() + 4 * x;
        &&& after.wf()
        &&& after.same_shape(before)
        &&& after.spec_info() == before.spec_info()
        &&& after.bytes() == before.bytes().update(o, p.r).update(o + 1, p.g).update(o + 2, p.b).update(
            o + 3,
            p.a,
        )
    }

    /// What `fill(color)` leaves: every pixel byte replaced, padding kept.
    pub open spec fn fill_post(before: Imagex, after: Imagex, color: Rgba) -> bool {
        &&& after.wf()
        &&& after.same_shape(before)
        &&& after.spec_info() == before.spec_info()
        &&& forall|r: int, c: int|
            0 <= r < before.spec_height() && 0 <= c < before.spec_stride() ==> #[trigger] after.cell_at(r, c)
                == if c < 4 * before.spec_width() {
                color.channel(c % 4)
            } else {
                before.cell_at(r, c)
            }
    }

    /// Whether `new(width, height)` can lay the image out.
    pub fn fits(width: u32, height: u32) -> (res: bool)
        ensures
            res == fits_new(width, height),
    {
        let st: u64 = ((width as u64) * 4 + 15) / 16 * 16;
        if st > u32::MAX as u64 {
            return false;
        }
        match (height as usize).checked_mul(st as usize) {
            Some(_) => true,
            None => false,
        }
    }

    /// Stride that `new` uses: `4 * width` rounded up to a multiple of 16.
    fn aligned_stride(width: u32) -> (res: u32)
        requires
            aligned_stride_of(width) <= u32::MAX,
        ensures
            res == aligned_stride_of(width),
    {
        let bytes: usize = (width as usize) * 4;
        ((bytes + 15) / 16 * 16) as u32
    }

    /// Creates a zeroed image whose stride is `4 * width` rounded up to 16 bytes.
    pub fn new(width: u32, height: u32) -> (res: Self)
        requires
            fits_new(width, height),
        ensures
            res.fresh_layout(width, height),
            res.bytes() == Seq::new((height * aligned_stride_of(width)) as nat, |i: int| 0u8),
    {
        let stride = Self::aligned_stride(width);
        let size: usize = (height as usize) * (stride as usize);
        let data = zeroed(size);
        let res = Imagex { data, width, height, stride, info: None };
        proof {
            assert(4 * width <= stride);
            assert forall|r: int, c: int|
                0 <= r < height && 4 * width <= c < stride implies #[trigger] res.cell_at(r, c) == 0 by {
                lemma_cell_in(stride as int, height as int, r, stride as int);
                assert(r * stride + c < size);
                assert(res.bytes()[r * stride + c] == 0);
            }
        }
        res
    }

    /// Creates a zeroed image whose stride is `4 * width` rounded up to a
    /// multiple of `align`.
    pub fn new_aligned(width: u32, height: u32, align: usize) -> (res: Self)
        requires
            align > 0,
            4 * width + align - 1 <= usize::MAX,
            rounded_up(4 * width, align as int) <= u32::MAX,
            height * rounded_up(4 * width, align as int) <= usize::MAX,
        ensures
            res.wf(),
            res.spec_width() == width,
            res.spec_height() == height,
            res.spec_stride() == rounded_up(4 * width, align as int),
            res.bytes() == Seq::new((height * rounded_up(4 * width, align as int)) as nat, |i: int| 0u8),
            res.spec_info() is None,
    {
        let bytes_per_row: usize = (width as usize) * 4;
        let q: usize = (bytes_per_row + (align - 1)) / align;
        proof {
            let n = bytes_per_row + align - 1;
            vstd::arithmetic::div_mod::lemma_fundamental_div_mod(n as int, align as int);
            vstd::arithmetic::div_mod::lemma_mod_bound(n as int, align as int);
            assert(q * align <= n) by (nonlinear_arith)
                requires
                    n == align * q + n % (align as int),
                    0 <= n % (align as int),
            ;
            assert(4 * width <= q * align) by (nonlinear_arith)
                requires
                    n == align * q + n % (align as int),
                    n % (align as int) < align,
                    n == 4 * width + align - 1,
            ;
        }
        let stride: usize = q * align;
        let size: usize = (height as usize) * stride;
        let data = zeroed(size);
        Imagex { data, width, height, stride: stride as u32, info: None }
    }

    /// Creates an image of the given size with every pixel set to `color`.
    pub fn filled(width: u32, height: u32, color: &Rgba) -> (res: Self)
        requires
            fits_new(width, height),
        ensures
            res.fresh_layout(width, height),
            forall|x: int, y: int| #![auto] res.in_bounds(x, y) ==> res.pixel_at(x, y) == *color,
    {
        let mut img = Self::new(width, height);
        let ghost before = img;
        img.fill(color);
        proof {
            law_fill_sets_every_pixel(before, img, *color);
            assert forall|r: int, c: int|
                0 <= r < height && 4 * width <= c < img.spec_stride() implies #[trigger] img.cell_at(r, c)
                == 0 by {
                lemma_cell_in(img.spec_stride() as int, height as int, r, img.spec_stride() as int);
            }
        }
        img
    }

    /// Width in pixels.
    pub fn width(&self) -> (res: u32)
        ensures
            res == self.spec_width(),
    {
        self.width
    }

    /// Height in pixels.
    pub fn height(&self) -> (res: u32)
        ensures
            res == self.spec_height(),
    {
        self.height
    }

    /// Bytes from the start of one row to the start of the next.
    pub fn stride(&self) -> (res: u32)
        ensures
            res == self.spec_stride(),
    {
        self.stride
    }

    /// Number of pixels, `width * height`.
    pub fn pixel_count(&self) -> (res: u32)
        requires
            self.spec_width() * self.spec_height() <= u32::MAX,
        ensures
            res == self.spec_width() * self.spec_height(),
    {
        self.width * self.height
    }

    /// Size of the byte buffer, padding included.
    pub fn buffer_size(&self) -> (res: usize)
        ensures
            res == self.bytes().len(),
    {
        self.data.len()
    }

    /// The byte buffer, padding included.
    pub fn as_raw(&self) -> (res: &[u8])
        ensures
            res@ == self.bytes(),
    {
        self.data.as_slice()
    }

    /// The byte buffer for writing, padding included; its length cannot change.
    pub fn as_raw_mut(&mut self) -> (res: &mut [u8])
        requires
            old(self).wf(),
        ensures
            res@ == old(self).bytes(),
            final(self).bytes() == final(res)@,
            final(res)@.len() == res@.len() ==> final(self).wf(),
            final(self).same_shape(*old(self)),
            final(self).spec_info() == old(self).spec_info(),
    {
        self.data.as_mut_slice()
    }

    /// Replaces the metadata.
    pub fn set_info(&mut self, info: Option<ImageInfo>)
        ensures
            final(self).bytes() == old(self).bytes(),
            final(self).same_shape(*old(self)),
            final(self).spec_info() == info,
            old(self).wf() ==> final(self).wf(),
    {
        self.info = info;
    }

    /// The pixel at `(x, y)`.
    pub fn get_pixel(&self, x: u32, y: u32) -> (res: Rgba)
        requires
            self.wf(),
            x < self.spec_width(),
            y < self.spec_height(),
        ensures
            res == self.pixel_at(x as int, y as int),
    {
        proof {
            lemma_cell_in(self.stride as int, self.height as int, y as int, self.stride as int);
        }
        let idx: usize = (y as usize) * (self.stride as usize) + (x as usize) * 4;
        Rgba { r: self.data[idx], g: self.data[idx + 1], b: self.data[idx + 2], a: self.data[idx + 3] }
    }

    /// Overwrites the pixel at `(x, y)`.
    pub fn set_pixel(&mut self, x: u32, y: u32, pixel: Rgba)
        requires
            old(self).wf(),
            x < old(self).spec_width(),
            y < old(self).spec_height(),
        ensures
            Imagex::set_pixel_post(*old(self), *final(self), x as int, y as int, pixel),
    {
        proof {
            lemma_cell_in(self.stride as int, self.height as int, y as int, self.stride as int);
        }
        let idx: usize = (y as usize) * (self.stride as usize) + (x as usize) * 4;
        self.data.set(idx, pixel.r);
        self.data.set(idx + 1, pixel.g);
        self.data.set(idx + 2, pixel.b);
        self.data.set(idx + 3, pixel.a);
    }

    /// The pixel at `(x, y)`; the bounds are part of the contract, as for
    /// `get_pixel`.
    pub fn get_pixel_unchecked(&self, x: u32, y: u32) -> (res: Rgba)
        requires
            self.wf(),
            x < self.spec_width(),
            y < self.spec_height(),
        ensures
            res == self.pixel_at(x as int, y as int),
    {
        self.get_pixel(x, y)
    }

    /// Overwrites the pixel at `(x, y)`; the bounds are part of the
    /// contract, as for `set_pixel`.
    pub fn set_pixel_unchecked(&mut self, x: u32, y: u32, pixel: Rgba)
        requires
            old(self).wf(),
            x < old(self).spec_width(),
            y < old(self).spec_height(),
        ensures
            Imagex::set_pixel_post(*old(self), *final(self), x as int, y as int, pixel),
    {
        self.set_pixel(x, y, pixel)
    }

    /// The pixel bytes of row `y` (padding excluded).
    pub fn row(&self, y: u32) -> (res: &[u8])
        requires
            self.wf(),
            y < self.spec_height(),
        ensures
            res@ == self.bytes().subrange(
                y * self.spec_stride(),
                y * self.spec_stride() + 4 * self.spec_width(),
            ),
    {
        proof {
            lemma_cell_in(self.stride as int, self.height as int, y as int, self.stride as int);
        }
        let start: usize = (y as usize) * (self.stride as usize);
        let end: usize = start + (self.width as usize) * 4;
        let all = self.data.as_slice();
        &all[start..end]
    }

    /// The pixel bytes of row `y` (padding excluded), for writing.
    pub fn row_mut(&mut self, y: u32) -> (res: &mut [u8])
        requires
            old(self).wf(),
            y < old(self).spec_height(),
        ensures
            ({
                let start = y * old(self).spec_stride();
                let end = start + 4 * old(self).spec_width();
                &&& res@ == old(self).bytes().subrange(start, end)
                &&& final(self).bytes() == old(self).bytes().subrange(0, start) + final(res)@ + old(
                    self,
                ).bytes().subrange(end, old(self).bytes().len() as int)
            }),
            final(res)@.len() == res@.len() ==> final(self).wf(),
            final(self).same_shape(*old(self)),
            final(self).spec_info() == old(self).spec_info(),
    {
        proof {
            lemma_cell_in(self.stride as int, self.height as int, y as int, self.stride as int);
        }
        let start: usize = (y as usize) * (self.stride as usize);
        let len: usize = (self.width as usize) * 4;
        let all = self.data.as_mut_slice();
        let (_head, tail) = all.split_at_mut(start);
        let (mid, _rest) = tail.split_at_mut(len);
        mid
    }

    /// Sets every pixel to `color`; padding bytes are left as they are.
    #[verifier::loop_isolation(false)]
    pub fn fill(&mut self, color: &Rgba)
        requires
            old(self).wf(),
        ensures
            Imagex::fill_post(*old(self), *final(self), *color),
    {
        let ghost before: Imagex = *self;
        let ghost s = self.stride as int;
        let ghost w = self.width as int;
        let ghost h = self.height as int;
        let row_len: usize = (self.width as usize) * 4;
        let mut row: u32 = 0;
        while row < self.height
            invariant
                0 <= row <= h,
                self.wf(),
                self.same_shape(before),
                self.spec_info() == before.spec_info(),
                forall|r: int, c: int|
                    0 <= r < h && 0 <= c < s ==> #[trigger] cell(self.data@, s, r, c) == if c < 4 * w
                        && r < row {
                        color.channel(c % 4)
                    } else {
                        cell(before.data@, s, r, c)
                    },
            decreases h - row,
        {
            proof {
                lemma_cell_in(s, h, row as int, s);
            }
            let start: usize = (row as usize) * (self.stride as usize);
            let mut k: usize = 0;
            while k < row_len
                invariant
                    0 <= k <= row_len,
                    self.wf(),
                    self.same_shape(before),
                    self.spec_info() == before.spec_info(),
                    forall|r: int, c: int|
                        0 <= r < h && 0 <= c < s ==> #[trigger] cell(self.data@, s, r, c) == if c < 4
                            * w && (r < row || (r == row && c < k)) {
                            color.channel(c % 4)
                        } else {
                            cell(before.data@, s, r, c)
                        },
                decreases row_len - k,
            {
                let ghost prev = self.data@;
                let v = channel_byte(color, k % 4);
                self.data.set(start + k, v);
                proof {
                    assert forall|r: int, c: int| 0 <= r < h && 0 <= c < s implies #[trigger] cell(
                        self.data@,
                        s,
                        r,
                        c,
                    ) == if c < 4 * w && (r < row || (r == row && c < k + 1)) {
                        color.channel(c % 4)
                    } else {
                        cell(before.data@, s, r, c)
                    } by {
                        lemma_cell_in(s, h, r, s);
                        if r != row || c != k {
                            lemma_cell_distinct(s, r, c, row as int, k as int);
                            assert(cell(self.data@, s, r, c) == cell(prev, s, r, c));
                        }
                    }
                }
                k += 1;
            }
            row += 1;
        }
    }

    /// Fills the image with opaque black.
    pub fn clear(&mut self)
        requires
            old(self).wf(),
        ensures
            Imagex::fill_post(*old(self), *final(self), Rgba { r: 0, g: 0, b: 0, a: 255 }),
    {
        self.fill(&Rgba::black_opaque());
    }

    /// Whether the image has no pixels.
    pub fn is_empty(&self) -> (res: bool)
        ensures
            res == (self.spec_width() == 0 || self.spec_height() == 0),
    {
        self.width == 0 || self.height == 0
    }

    /// Packs the pixels as RGB bytes, dropping alpha and padding.
    #[verifier::loop_isolation(false)]
    pub fn to_rgb8(&self) -> (res: Vec<u8>)
        requires
            self.wf(),
        ensures
            res@.len() == 3 * self.spec_width() * self.spec_height(),
            forall|x: int, y: int, k: int|
                self.in_bounds(x, y) && 0 <= k < 3 ==> #[trigger] rgb8_at(res@, self.spec_width() as int, x, y, k)
                    == self.pixel_at(x, y).channel(k),
    {
        let ghost s = self.stride as int;
        let ghost w = self.width as int;
        let ghost h = self.height as int;
        let mut rgb: Vec<u8> = Vec::new();
        let mut y: u32 = 0;
        while y < self.height
            invariant
                0 <= y <= h,
                rgb@.len() == 3 * (y * w),
                forall|r: int, xx: int, k: int|
                    0 <= r < y && 0 <= xx < w && 0 <= k < 3 ==> #[trigger] rgb8_at(rgb@, w, xx, r, k)
                        == self.pixel_at(xx, r).channel(k),
            decreases h - y,
        {
            proof {
                lemma_cell_in(s, h, y as int, s);
            }
            let row_start: usize = (y as usize) * (self.stride as usize);
            let mut x: u32 = 0;
            while x < self.width
                invariant
                    0 <= x <= w,
                    rgb@.len() == 3 * (y * w + x),
                    forall|r: int, xx: int, k: int|
                        0 <= r <= y && 0 <= xx < w && 0 <= k < 3 && (r < y || xx < x)
                            ==> #[trigger] rgb8_at(rgb@, w, xx, r, k) == self.pixel_at(xx, r).channel(k),
                decreases w - x,
            {
                let i: usize = row_start + (x as usize) * 4;
                let ghost prev = rgb@;
                rgb.push(self.data[i]);
                rgb.push(self.data[i + 1]);
                rgb.push(self.data[i + 2]);
                proof {
                    assert forall|r: int, xx: int, k: int|
                        0 <= r <= y && 0 <= xx < w && 0 <= k < 3 && (r < y || xx < x + 1)
                            implies #[trigger] rgb8_at(rgb@, w, xx, r, k) == self.pixel_at(xx, r).channel(k) by {
                        if r < y || xx < x {
                            lemma_lex_lt(w, r, xx, y as int, x as int);
                            assert(rgb8_at(prev, w, xx, r, k) == rgb8_at(rgb@, w, xx, r, k));
                        }
                    }
                }
                x += 1;
            }
            proof {
                assert(3 * (y * w + w) == 3 * ((y + 1) * w)) by (nonlinear_arith);
            }
            y += 1;
        }
        proof {
            assert(3 * (h * w) == 3 * w * h) by (nonlinear_arith);
        }
        rgb
    }

    /// Creates an opaque image from tightly packed RGB bytes (`3 * width` bytes per row).
    #[verifier::loop_isolation(false)]
    pub fn from_rgb8(rgb_data: &[u8], width: u32, height: u32) -> (res: Self)
        requires
            fits_new(width, height),
            rgb_data@.len() >= 3 * width * height,
        ensures
            res.fresh_layout(width, height),
            forall|x: int, y: int|
                #![auto]
                res.in_bounds(x, y) ==> res.pixel_at(x, y) == packed_rgb_pixel(rgb_data@, width as int, x, y),
    {
        let stride = Self::aligned_stride(width);
        let ghost s = stride as int;
        let ghost w = width as int;
        let ghost h = height as int;
        let rgb_len = rgb_data.len();
        proof {
            assert(3 * w * h == 3 * (h * w)) by (nonlinear_arith);
        }
        let mut out: Vec<u8> = Vec::new();
        let mut idx: usize = 0;
        let mut y: u32 = 0;
        while y < height
            invariant
                0 <= y <= height,
                out@.len() == y * s,
                idx == 3 * (y * w),
                forall|r: int, xx: int|
                    0 <= r < y && 0 <= xx < w ==> #[trigger] cells_pixel(out@, s, xx, r) == packed_rgb_pixel(
                        rgb_data@,
                        w,
                        xx,
                        r,
                    ),
                forall|r: int, c: int| 0 <= r < y && 4 * w <= c < s ==> #[trigger] cell(out@, s, r, c) == 0u8,
            decreases height - y,
        {
            let mut row: Vec<u8> = Vec::new();
            let mut x: u32 = 0;
            while x < width
                invariant
                    0 <= x <= w,
                    row@.len() == 4 * x,
                    idx == 3 * (y * w + x),
                    forall|xx: int|
                        0 <= xx < x ==> Rgba::from_bytes_at(row@, 4 * xx) == #[trigger] packed_rgb_pixel(
                            rgb_data@,
                            w,
                            xx,
                            y as int,
                        ),
                decreases w - x,
            {
                proof {
                    lemma_lex_lt(w, y as int, x as int, h, 0);
                    assert(h * w == w * h) by (nonlinear_arith);
                }
                row.push(rgb_data[idx]);
                row.push(rgb_data[idx + 1]);
                row.push(rgb_data[idx + 2]);
                let ghost prev_row = row@;
                row.push(255u8);
                proof {
                    assert forall|xx: int| 0 <= xx < x + 1 implies Rgba::from_bytes_at(row@, 4 * xx)
                        == #[trigger] packed_rgb_pixel(rgb_data@, w, xx, y as int) by {
                        if xx < x {
                            assert(Rgba::from_bytes_at(prev_row, 4 * xx) == packed_rgb_pixel(
                                rgb_data@,
                                w,
                                xx,
                                y as int,
                            ));
                        }
                    }
                }
                idx += 3;
                x += 1;
            }
            let mut c: usize = (width as usize) * 4;
            while c < stride as usize
                invariant
                    4 * w <= c <= s,
                    row@.len() == c,
                    forall|xx: int|
                        0 <= xx < w ==> Rgba::from_bytes_at(row@, 4 * xx) == #[trigger] packed_rgb_pixel(
                            rgb_data@,
                            w,
                            xx,
                            y as int,
                        ),
                    forall|i: int| 4 * w <= i < c ==> row@[i] == 0u8,
                decreases s - c,
            {
                let ghost prev_row = row@;
                row.push(0u8);
                proof {
                    assert forall|xx: int| 0 <= xx < w implies Rgba::from_bytes_at(row@, 4 * xx)
                        == #[trigger] packed_rgb_pixel(rgb_data@, w, xx, y as int) by {
                        assert(Rgba::from_bytes_at(prev_row, 4 * xx) == packed_rgb_pixel(
                            rgb_data@,
                            w,
                            xx,
                            y as int,
                        ));
                    }
                }
                c += 1;
            }
            let ghost prev = out@;
            proof {
                lemma_cell_in(s, h, y as int, s);
            }
            out.append(&mut row);
            proof {
                assert((y + 1) * s == y * s + s) by (nonlinear_arith);
                assert(3 * (y * w + w) == 3 * ((y + 1) * w)) by (nonlinear_arith);
                assert forall|r: int, xx: int| 0 <= r < y + 1 && 0 <= xx < w implies #[trigger] cells_pixel(
                    out@,
                    s,
                    xx,
                    r,
                ) == packed_rgb_pixel(rgb_data@, w, xx, r) by {
                    if r < y {
                        lemma_lex_lt(s, r, 4 * xx + 3, y as int, 0);
                        assert(cells_pixel(prev, s, xx, r) == cells_pixel(out@, s, xx, r));
                    } else {
                        assert(r * s == prev.len());
                    }
                }
                assert forall|r: int, cc: int| 0 <= r < y + 1 && 4 * w <= cc < s implies #[trigger] cell(
                    out@,
                    s,
                    r,
                    cc,
                ) == 0u8 by {
                    if r < y {
                        lemma_lex_lt(s, r, cc, y as int, 0);
                        assert(cell(prev, s, r, cc) == cell(out@, s, r, cc));
                    } else {
                        assert(r * s == prev.len());
                    }
                }
            }
            y += 1;
        }
        let res = Imagex { data: out, width, height, stride, info: None };
        proof {
            assert forall|x: int, yy: int| #![auto] res.in_bounds(x, yy) implies res.pixel_at(x, yy)
                == packed_rgb_pixel(rgb_data@, w, x, yy) by {
                assert(res.pixel_at(x, yy) == cells_pixel(out@, s, x, yy));
            }
            assert forall|r: int, c: int|
                0 <= r < h && 4 * w <= c < s implies #[trigger] res.cell_at(r, c) == 0 by {
                assert(res.cell_at(r, c) == cell(out@, s, r, c));
            }
        }
        res
    }

    /// Nearest-neighbour resampling to `new_width` by `new_height`: pixel
    /// `(x, y)` of the result is pixel `(src_x[x], src_y[y])` of this image.
    /// The source column and row of each target column and row are given.
    #[verifier::loop_isolation(false)]
    pub fn resize(&self, new_width: u32, new_height: u32, src_x: &[u32], src_y: &[u32]) -> (res: Self)
        requires
            self.wf(),
            fits_new(new_width, new_height),
            src_x@.len() == new_width,
            src_y@.len() == new_height,
            forall|i: int| 0 <= i < new_width ==> #[trigger] src_x@[i] < self.spec_width(),
            forall|j: int| 0 <= j < new_height ==> #[trigger] src_y@[j] < self.spec_height(),
        ensures
            res.fresh_layout(new_width, new_height),
            forall|x: int, y: int|
                #![auto]
                res.in_bounds(x, y) ==> res.pixel_at(x, y) == self.pixel_at(src_x@[x] as int, src_y@[y] as int),
    {
        let stride = Self::aligned_stride(new_width);
        let ghost s = stride as int;
        let ghost w = new_width as int;
        let ghost h = new_height as int;
        let mut out: Vec<u8> = Vec::new();
        let mut y: u32 = 0;
        while y < new_height
            invariant
                0 <= y <= new_height,
                out@.len() == y * s,
                forall|r: int, xx: int|
                    0 <= r < y && 0 <= xx < w ==> #[trigger] cells_pixel(out@, s, xx, r) == self.pixel_at(
                        src_x@[xx] as int,
                        src_y@[r] as int,
                    ),
                forall|r: int, c: int| 0 <= r < y && 4 * w <= c < s ==> #[trigger] cell(out@, s, r, c) == 0u8,
            decreases new_height - y,
        {
            let sy = src_y[y as usize];
            let mut row: Vec<u8> = Vec::new();
            let mut x: u32 = 0;
            while x < new_width
                invariant
                    0 <= x <= w,
                    row@.len() == 4 * x,
                    sy == src_y@[y as int],
                    forall|xx: int|
                        0 <= xx < x ==> #[trigger] Rgba::from_bytes_at(row@, 4 * xx) == self.pixel_at(
                            src_x@[xx] as int,
                            sy as int,
                        ),
                decreases w - x,
            {
                let p = self.get_pixel(src_x[x as usize], sy);
                let ghost prev_row = row@;
                row.push(p.r);
                row.push(p.g);
                row.push(p.b);
                row.push(p.a);
                proof {
                    assert forall|xx: int| 0 <= xx < x + 1 implies #[trigger] Rgba::from_bytes_at(row@, 4 * xx)
                        == self.pixel_at(src_x@[xx] as int, sy as int) by {
                        if xx < x {
                            assert(Rgba::from_bytes_at(prev_row, 4 * xx) == Rgba::from_bytes_at(row@, 4 * xx));
                        }
                    }
                }
                x += 1;
            }
            let mut c: usize = (new_width as usize) * 4;
            while c < stride as usize
                invariant
                    4 * w <= c <= s,
                    row@.len() == c,
                    sy == src_y@[y as int],
                    forall|xx: int|
                        0 <= xx < w ==> #[trigger] Rgba::from_bytes_at(row@, 4 * xx) == self.pixel_at(
                            src_x@[xx] as int,
                            sy as int,
                        ),
                    forall|i: int| 4 * w <= i < c ==> row@[i] == 0u8,
                decreases s - c,
            {
                let ghost prev_row = row@;
                row.push(0u8);
                proof {
                    assert forall|xx: int| 0 <= xx < w implies #[trigger] Rgba::from_bytes_at(row@, 4 * xx)
                        == self.pixel_at(src_x@[xx] as int, sy as int) by {
                        assert(Rgba::from_bytes_at(prev_row, 4 * xx) == Rgba::from_bytes_at(row@, 4 * xx));
                    }
                }
                c += 1;
            }
            let ghost prev = out@;
            let ghost row_v = row@;
            proof {
                lemma_cell_in(s, h, y as int, s);
            }
            out.append(&mut row);
            proof {
                assert((y + 1) * s == y * s + s) by (nonlinear_arith);
                assert(out@ == prev + row_v);
                assert forall|r: int, xx: int| 0 <= r < y + 1 && 0 <= xx < w implies #[trigger] cells_pixel(
                    out@,
                    s,
                    xx,
                    r,
                ) == self.pixel_at(src_x@[xx] as int, src_y@[r] as int) by {
                    if r < y {
                        lemma_lex_lt(s, r, 4 * xx + 3, y as int, 0);
                        assert(cells_pixel(prev, s, xx, r) == cells_pixel(out@, s, xx, r));
                    } else {
                        assert(r * s == prev.len());
                        assert(Rgba::from_bytes_at(row_v, 4 * xx) == self.pixel_at(src_x@[xx] as int, sy as int));
                        assert(cells_pixel(out@, s, xx, r) == Rgba::from_bytes_at(row_v, 4 * xx));
                    }
                }
                assert forall|r: int, cc: int| 0 <= r < y + 1 && 4 * w <= cc < s implies #[trigger] cell(
                    out@,
                    s,
                    r,
                    cc,
                ) == 0u8 by {
                    if r < y {
                        lemma_lex_lt(s, r, cc, y as int, 0);
                        assert(cell(prev, s, r, cc) == cell(out@, s, r, cc));
                    } else {
                        assert(r * s == prev.len());
                    }
                }
            }
            y += 1;
        }
        let res = Imagex { data: out, width: new_width, height: new_height, stride, info: None };
        proof {
            assert forall|x: int, yy: int| #![auto] res.in_bounds(x, yy) implies res.pixel_at(x, yy)
                == self.pixel_at(src_x@[x] as int, src_y@[yy] as int) by {
                assert(res.pixel_at(x, yy) == cells_pixel(out@, s, x, yy));
            }
            assert forall|r: int, c: int|
                0 <= r < h && 4 * w <= c < s implies #[trigger] res.cell_at(r, c) == 0 by {
                assert(res.cell_at(r, c) == cell(out@, s, r, c));
            }
        }
        res
    }

    /// The image's metadata, if any.
    pub fn info(&self) -> (res: Option<&ImageInfo>)
        ensures
            res is None <==> self.spec_info() is None,
            res matches Some(i) ==> self.spec_info() == Some(*i),
    {
        match &self.info {
            Some(i) => Some(i),
            None => None,
        }
    }

    /// The format the image was decoded from, if known.
    pub fn format(&self) -> (res: Option<ImageFormat>)
        ensures
            res == match self.spec_info() {
                Some(i) => Some(i.format),
                None => None,
            },
    {
        match &self.info {
            Some(i) => Some(i.format),
            None => None,
        }
    }

    /// Whether the image's metadata reports an alpha channel.
    pub fn has_alpha(&self) -> (res: bool)
        ensures
            res == match self.spec_info() {
                Some(i) => i.has_alpha,
                None => false,
            },
    {
        match &self.info {
            Some(i) => i.has_alpha,
            None => false,
        }
    }

    /// Creates an image from tightly packed RGBA bytes (`4 * width` bytes per row).
    #[verifier::loop_isolation(false)]
    pub fn from_raw(data: Vec<u8>, width: u32, height: u32) -> (res: Self)
        requires
            fits_new(width, height),
            data@.len() >= 4 * width * height,
        ensures
            res.fresh_layout(width, height),
            forall|x: int, y: int|
                #![auto]
                res.in_bounds(x, y) ==> res.pixel_at(x, y) == packed_pixel(data@, width as int, x, y),
    {
        let stride = Self::aligned_stride(width);
        let ghost s = stride as int;
        let ghost w = width as int;
        let ghost h = height as int;
        let row_len: usize = (width as usize) * 4;
        let data_len = data.len();
        proof {
            assert(4 * w * h == h * (4 * w)) by (nonlinear_arith);
        }
        let mut out: Vec<u8> = Vec::new();
        let mut y: u32 = 0;
        while y < height
            invariant
                0 <= y <= height,
                out@.len() == y * s,
                forall|r: int, c: int|
                    0 <= r < y && 0 <= c < s ==> #[trigger] cell(out@, s, r, c) == if c < 4 * w {
                        data@[r * (4 * w) + c]
                    } else {
                        0u8
                    },
            decreases height - y,
        {
            proof {
                lemma_cell_in(s, h, y as int, s);
                lemma_cell_in(4 * w, h, y as int, 4 * w);
                assert(y * (4 * w) + 4 * w <= data@.len());
                assert(data@.len() == data_len);
            }
            let src: usize = (y as usize) * row_len;
            let mut row: Vec<u8> = Vec::new();
            let mut c: usize = 0;
            while c < row_len
                invariant
                    0 <= c <= row_len,
                    row@.len() == c,
                    forall|i: int| 0 <= i < c ==> row@[i] == data@[src + i],
                decreases row_len - c,
            {
                row.push(data[src + c]);
                c += 1;
            }
            while c < stride as usize
                invariant
                    4 * w <= c <= s,
                    row@.len() == c,
                    forall|i: int| 0 <= i < 4 * w ==> row@[i] == data@[src + i],
                    forall|i: int| 4 * w <= i < c ==> row@[i] == 0u8,
                decreases s - c,
            {
                row.push(0u8);
                c += 1;
            }
            let ghost prev = out@;
            out.append(&mut row);
            proof {
                assert((y + 1) * s == y * s + s) by (nonlinear_arith);
                assert forall|r: int, cc: int|
                    0 <= r < y + 1 && 0 <= cc < s implies #[trigger] cell(out@, s, r, cc) == if cc < 4 * w {
                        data@[r * (4 * w) + cc]
                    } else {
                        0u8
                    } by {
                    if r < y {
                        lemma_lex_lt(s, r, cc, y as int, 0);
                        assert(cell(prev, s, r, cc) == cell(out@, s, r, cc));
                    } else {
                        assert(r * s + cc == prev.len() + cc);
                        assert(r * (4 * w) + cc == src + cc);
                    }
                }
            }
            y += 1;
        }
        let res = Imagex { data: out, width, height, stride, info: None };
        proof {
            assert forall|x: int, yy: int| #![auto] res.in_bounds(x, yy) implies res.pixel_at(x, yy)
                == packed_pixel(data@, w, x, yy) by {
                assert(yy * (4 * w) + 4 * x == 4 * (yy * w + x)) by (nonlinear_arith);
                assert(res.cell_at(yy, 4 * x) == cell(out@, s, yy, 4 * x));
                assert(res.cell_at(yy, 4 * x + 1) == cell(out@, s, yy, 4 * x + 1));
                assert(res.cell_at(yy, 4 * x + 2) == cell(out@, s, yy, 4 * x + 2));
                assert(res.cell_at(yy, 4 * x + 3) == cell(out@, s, yy, 4 * x + 3));
            }
            assert forall|r: int, c: int|
                0 <= r < h && 4 * w <= c < s implies #[trigger] res.cell_at(r, c) == 0 by {
                assert(res.cell_at(r, c) == cell(out@, s, r, c));
            }
        }
        res
    }
}

impl Default for Imagex {
    /// A zeroed one-pixel image.
    fn default() -> (res: Self)
        ensures
            res.fresh_layout(1, 1),
            res.bytes() == Seq::new(16, |i: int| 0u8),
    {
        Imagex::new(1, 1)
    }
}

/// Channel `k` of `color` (R, G, B, A for 0..3).
fn channel_byte(color: &Rgba, k: usize) -> (res: u8)
    requires
        k < 4,
    ensures
        res == color.channel(k as int),
{
    if k == 0 {
        color.r
    } else if k == 1 {
        color.g
    } else if k == 2 {
        color.b
    } else {
        color.a
    }
}

/// After `fill(color)` every pixel is `color`, and the padding bytes are
/// those from before.
pub proof fn law_fill_sets_every_pixel(before: Imagex, after: Imagex, color: Rgba)
    requires
        Imagex::fill_post(before, after, color),
    ensures
        forall|x: int, y: int| #![auto] after.in_bounds(x, y) ==> after.pixel_at(x, y) == color,
        forall|r: int, c: int|
            0 <= r < after.spec_height() && 4 * after.spec_width() <= c < after.spec_stride()
                ==> #[trigger] after.cell_at(r, c) == before.cell_at(r, c),
{
    assert forall|x: int, y: int| #![auto] after.in_bounds(x, y) implies after.pixel_at(x, y) == color by {
        assert(after.cell_at(y, 4 * x) == color.channel((4 * x) % 4));
        assert(after.cell_at(y, 4 * x + 1) == color.channel((4 * x + 1) % 4));
        assert(after.cell_at(y, 4 * x + 2) == color.channel((4 * x + 2) % 4));
        assert(after.cell_at(y, 4 * x + 3) == color.channel((4 * x + 3) % 4));
    }
}

/// Every image the library hands out is well-formed (each constructor and
/// decoder ensures it, each method keeps it), and then its buffer holds
/// exactly `height` rows of `stride` bytes (`buffer_size` is
/// `height * stride`), each row holding its `4 * width` pixel bytes. No
/// method changes width, height or stride (each states `same_shape`).
pub proof fn law_buffer_layout(img: Imagex)
    requires
        img.wf(),
    ensures
        4 * img.spec_width() <= img.spec_stride(),
        img.bytes().len() == img.spec_height() * img.spec_stride(),
        img.spec_height() * img.spec_stride() <= usize::MAX,
{
}

/// Reading a pixel back after `set_pixel` gives the written value, and every
/// other pixel keeps its value.
pub proof fn law_set_pixel_then_get(before: Imagex, after: Imagex, x: int, y: int, p: Rgba)
    requires
        before.wf(),
        before.in_bounds(x, y),
        Imagex::set_pixel_post(before, after, x, y, p),
    ensures
        after.pixel_at(x, y) == p,
        forall|x2: int, y2: int|
            #![auto]
            before.in_bounds(x2, y2) && (x2 != x || y2 != y) ==> after.pixel_at(x2, y2) == before.pixel_at(
                x2,
                y2,
            ),
{
    let s = before.spec_stride() as int;
    let h = before.spec_height() as int;
    lemma_cell_in(s, h, y, s);
    assert forall|x2: int, y2: int|
        #![auto]
        before.in_bounds(x2, y2) && (x2 != x || y2 != y) implies after.pixel_at(x2, y2) == before.pixel_at(
            x2,
            y2,
        ) by {
        lemma_cell_in(s, h, y2, s);
        if y2 < y {
            lemma_lex_lt(s, y2, s - 1, y, 0);
        } else if y < y2 {
            lemma_lex_lt(s, y, s - 1, y2, 0);
        }
    }
}

/// An image built with `from_rgb8` gives its RGB bytes back through `to_rgb8`.
pub proof fn law_rgb8_roundtrip(img: Imagex, rgb: Seq<u8>, out: Seq<u8>)
    requires
        img.wf(),
        rgb.len() >= 3 * img.spec_width() * img.spec_height(),
        forall|x: int, y: int|
            #![auto]
            img.in_bounds(x, y) ==> img.pixel_at(x, y) == packed_rgb_pixel(rgb, img.spec_width() as int, x, y),
        out.len() == 3 * img.spec_width() * img.spec_height(),
        forall|x: int, y: int, k: int|
            img.in_bounds(x, y) && 0 <= k < 3 ==> #[trigger] rgb8_at(out, img.spec_width() as int, x, y, k)
                == img.pixel_at(x, y).channel(k),
    ensures
        out == rgb.subrange(0, 3 * img.spec_width() * img.spec_height()),
{
    let w = img.spec_width() as int;
    let h = img.spec_height() as int;
    assert forall|i: int| 0 <= i < out.len() implies out[i] == rgb[i] by {
        let p = i / 3;
        let k = i % 3;
        assert(i == 3 * p + k);
        assert(0 <= p < w * h) by (nonlinear_arith)
            requires
                i == 3 * p + k,
                0 <= k < 3,
                0 <= i < 3 * w * h,
        ;
        vstd::arithmetic::div_mod::lemma_fundamental_div_mod(p, w);
        let y = p / w;
        let x = p % w;
        assert(0 <= x < w);
        assert(0 <= y < h) by (nonlinear_arith)
            requires
                p == w * y + x,
                0 <= x < w,
                0 <= p < w * h,
        ;
        assert(y * w + x == p) by (nonlinear_arith)
            requires
                p == w * y + x,
        ;
        assert(rgb8_at(out, w, x, y, k) == img.pixel_at(x, y).channel(k));
    }
    assert(out =~= rgb.subrange(0, 3 * w * h));
}

/// The stride `new`, `from_raw`, `from_rgb8`, `filled`, `resize` and the
/// decoders lay rows out with (`fresh_layout`): a multiple of 16, at least
/// `4 * width` and less than `4 * width + 16`.
pub proof fn law_aligned_stride(width: u32)
    ensures
        aligned_stride_of(width) % 16 == 0,
        4 * width <= aligned_stride_of(width) < 4 * width + 16,
{
    let n = 4 * width + 15;
    vstd::arithmetic::div_mod::lemma_fundamental_div_mod(n as int, 16);
    vstd::arithmetic::div_mod::lemma_mod_multiples_basic(n / 16, 16);
}

/// Writing a row through `row_mut` replaces that row's pixel bytes only: the
/// row reads back as written, and every other row and all padding keep their
/// bytes.
pub proof fn law_row_mut_write(before: Imagex, after: Imagex, y: int, written: Seq<u8>)
    requires
        before.wf(),
        0 <= y < before.spec_height(),
        written.len() == 4 * before.spec_width(),
        after.same_shape(before),
        after.bytes() == before.bytes().subrange(0, y * before.spec_stride()) + written
            + before.bytes().subrange(
            y * before.spec_stride() + 4 * before.spec_width(),
            before.bytes().len() as int,
        ),
    ensures
        after.wf(),
        after.bytes().subrange(
            y * after.spec_stride(),
            y * after.spec_stride() + 4 * after.spec_width(),
        ) == written,
        forall|r: int, c: int|
            0 <= r < before.spec_height() && 0 <= c < before.spec_stride() && (r != y || c >= 4
                * before.spec_width()) ==> #[trigger] after.cell_at(r, c) == before.cell_at(r, c),
{
    let s = before.spec_stride() as int;
    let h = before.spec_height() as int;
    let w = before.spec_width() as int;
    lemma_cell_in(s, h, y, s);
    assert(after.bytes().subrange(y * s, y * s + 4 * w) =~= written);
    assert forall|r: int, c: int|
        0 <= r < h && 0 <= c < s && (r != y || c >= 4 * w) implies #[trigger] after.cell_at(r, c)
        == before.cell_at(r, c) by {
        lemma_cell_in(s, h, r, s);
        if r < y {
            lemma_lex_lt(s, r, c, y, 0);
        } else if r > y {
            lemma_lex_lt(s, y, s - 1, r, 0);
        }
    }
}

/// Resizing to the image's own size, with every column and row taken from
/// itself, gives an image with the same pixels, no metadata, and rows laid
/// out as `new` lays them; the source image is only read.
pub proof fn law_resize_identity(img: Imagex, res: Imagex, src_x: Seq<u32>, src_y: Seq<u32>)
    requires
        img.wf(),
        src_x.len() == img.spec_width(),
        src_y.len() == img.spec_height(),
        forall|i: int| 0 <= i < src_x.len() ==> #[trigger] src_x[i] == i,
        forall|j: int| 0 <= j < src_y.len() ==> #[trigger] src_y[j] == j,
        res.fresh_layout(img.spec_width(), img.spec_height()),
        forall|x: int, y: int|
            #![auto]
            res.in_bounds(x, y) ==> res.pixel_at(x, y) == img.pixel_at(src_x[x] as int, src_y[y] as int),
    ensures
        res.laid_out(img.spec_width(), img.spec_height()),
        res.spec_info() is None,
        res.same_pixels(img),
        forall|x: int, y: int| #![auto] img.in_bounds(x, y) ==> res.pixel_at(x, y) == img.pixel_at(x, y),
{
    assert forall|x: int, y: int| #![auto] img.in_bounds(x, y) implies res.pixel_at(x, y) == img.pixel_at(x, y) by {
        assert(res.in_bounds(x, y));
        assert(src_x[x] == x && src_y[y] == y);
    }
}

} // verus!
