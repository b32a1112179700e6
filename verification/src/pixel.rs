//! Iterators over the pixels of an image, and a mutable view of one pixel.
use crate::image::{cell, cells_pixel, lemma_cell_in, lemma_lex_lt, law_buffer_layout, Imagex};
use crate::rgb::Rgb;
use crate::rgba::Rgba;
use vstd::prelude::*;

verus! {

/// Iterator over the pixels of an image in row-major order, each one read as
/// an `Rgba` value.
pub struct PixelIter<'a> {
    /// The image's byte buffer.
    pub data: &'a [u8],
    /// Bytes per row, padding included.
    pub stride: usize,
    /// Pixels per row.
    pub width: usize,
    /// Number of rows.
    pub height: usize,
    /// Column of the next pixel.
    pub x: usize,
    /// Row of the next pixel.
    pub y: usize,
    /// Offset of the next pixel in `data`.
    pub idx: usize,
}

impl<'a> PixelIter<'a> {
    /// Every pixel has been handed out: the last row is passed, or rows
    /// hold no pixels.
    pub open spec fn done(self) -> bool {
        self.y >= self.height || self.width == 0
    }

    /// `next` reads inside the buffer and moves on without overflow.
    pub open spec fn can_advance(self) -> bool {
        !self.done() ==> {
            &&& self.idx + 4 <= self.data@.len()
            &&& self.x + 1 <= usize::MAX
            &&& (self.x + 1 >= self.width ==> (self.y + 1) * self.stride <= usize::MAX)
        }
    }

    /// The pixel that `next` hands out.
    pub open spec fn current(self) -> Rgba {
        Rgba::from_bytes_at(self.data@, self.idx as int)
    }

    /// The iterator after one call of `next`: one column on, or the start of
    /// the next row after the last column.
    pub open spec fn advanced(self) -> PixelIter<'a> {
        if self.done() {
            self
        } else if self.x + 1 >= self.width {
            PixelIter { x: 0, y: (self.y + 1) as usize, idx: ((self.y + 1) * self.stride) as usize, ..self }
        } else {
            PixelIter { x: (self.x + 1) as usize, idx: (self.idx + 4) as usize, ..self }
        }
    }

    /// The number of pixels left, `(height - y) * width - x`.
    pub open spec fn remaining(self) -> int {
        (self.height - self.y) * self.width - self.x
    }

    /// `len` can count the pixels left without overflow.
    pub open spec fn can_count(self) -> bool {
        &&& self.y <= self.height
        &&& self.x <= (self.height - self.y) * self.width <= usize::MAX
    }

    /// Hands out the next pixel, or `None` once the last row is passed (at
    /// once where rows hold no pixels).
    pub fn next(&mut self) -> (res: Option<Rgba>)
        requires
            old(self).can_advance(),
        ensures
            *final(self) == old(self).advanced(),
            res == if old(self).done() {
                None
            } else {
                Some(old(self).current())
            },
    {
        if self.y >= self.height || self.width == 0 {
            return None;
        }
        let pixel = Rgba {
            r: self.data[self.idx],
            g: self.data[self.idx + 1],
            b: self.data[self.idx + 2],
            a: self.data[self.idx + 3],
        };
        self.x += 1;
        self.idx += 4;
        if self.x >= self.width {
            self.x = 0;
            self.y += 1;
            self.idx = self.y * self.stride;
        }
        Some(pixel)
    }

    /// The number of pixels left.
    pub fn len(&self) -> (res: usize)
        requires
            self.can_count(),
        ensures
            res == self.remaining(),
    {
        let rows = self.height - self.y;
        assert(rows * self.width <= usize::MAX);
        rows * self.width - self.x
    }

    /// The exact number of pixels left, as lower and upper bound.
    pub fn size_hint(&self) -> (res: (usize, Option<usize>))
        requires
            self.can_count(),
        ensures
            res.0 == self.remaining(),
            res.1 == Some(res.0),
    {
        let n = self.len();
        (n, Some(n))
    }
}

/// `it` after `k` calls of `next`.
pub open spec fn advanced_by<'a>(it: PixelIter<'a>, k: nat) -> PixelIter<'a>
    decreases k,
{
    if k == 0 {
        it
    } else {
        advanced_by(it, (k - 1) as nat).advanced()
    }
}

/// `it` is what `img.pixels()` returns: at the first pixel of the image's buffer.
pub open spec fn iter_at_start(it: PixelIter, img: Imagex) -> bool {
    &&& it.data@ == img.bytes()
    &&& it.stride == img.spec_stride()
    &&& it.width == img.spec_width()
    &&& it.height == img.spec_height()
    &&& it.x == 0
    &&& it.y == 0
    &&& it.idx == 0
}

impl Imagex {
    /// An iterator over all pixels, in row-major order.
    pub fn pixels(&self) -> (res: PixelIter<'_>)
        ensures
            iter_at_start(res, *self),
    {
        PixelIter {
            data: self.as_raw(),
            stride: self.stride() as usize,
            width: self.width() as usize,
            height: self.height() as usize,
            x: 0,
            y: 0,
            idx: 0,
        }
    }
}

/// After `y * width + x` calls of `next`, `it` is ready to hand out pixel
/// `(x, y)` of `img`, with `width * height - (y * width + x)` pixels left.
pub open spec fn hands_out_at(it: PixelIter, img: Imagex, x: int, y: int) -> bool {
    let st = advanced_by(it, (y * img.spec_width() + x) as nat);
    &&& !st.done()
    &&& st.can_advance()
    &&& st.current() == img.pixel_at(x, y)
    &&& st.remaining() == img.spec_width() * img.spec_height() - (y * img.spec_width() + x)
    &&& st.can_count()
}

/// After `y * width + x` calls of `next`, a fresh iterator stands at pixel
/// `(x, y)`.
proof fn lemma_iter_at(it: PixelIter, img: Imagex, x: int, y: int)
    requires
        img.wf(),
        iter_at_start(it, img),
        img.in_bounds(x, y),
    ensures
        0 <= y * img.spec_width() + x,
        y * img.spec_stride() + 4 * x + 4 <= img.spec_height() * img.spec_stride(),
        advanced_by(it, (y * img.spec_width() + x) as nat) == (PixelIter {
            x: x as usize,
            y: y as usize,
            idx: (y * img.spec_stride() + 4 * x) as usize,
            ..it
        }),
    decreases y * img.spec_width() + x,
{
    let w = img.spec_width() as int;
    let h = img.spec_height() as int;
    let s = img.spec_stride() as int;
    law_buffer_layout(img);
    lemma_cell_in(s, h, y, 4 * x + 4);
    assert(0 <= y * w) by (nonlinear_arith)
        requires
            0 <= y,
            0 <= w,
    ;
    let k = y * w + x;
    if x > 0 {
        lemma_iter_at(it, img, x - 1, y);
        assert(advanced_by(it, k as nat) == advanced_by(it, (k - 1) as nat).advanced());
    } else if y > 0 {
        assert((y - 1) * w + (w - 1) == y * w - 1) by (nonlinear_arith);
        lemma_iter_at(it, img, w - 1, y - 1);
        assert(advanced_by(it, k as nat) == advanced_by(it, (k - 1) as nat).advanced());
        assert((y - 1 + 1) * s == y * s);
    } else {
        assert(k == 0);
        assert(y * s + 4 * x == 0) by (nonlinear_arith)
            requires
                y == 0,
                x == 0,
        ;
    }
}

/// A fresh iterator over an image hands out every pixel exactly once, in
/// row-major order: the `(y * width + x)`-th item is the pixel at `(x, y)`,
/// `width * height` items in all, each call within its precondition, and
/// `len` counts down from `width * height`. After the last item it stands at
/// column 0 past the last row (where rows hold pixels), `len` gives 0, and
/// further calls change nothing.
pub proof fn law_pixels_row_major(img: Imagex, it: PixelIter)
    requires
        img.wf(),
        iter_at_start(it, img),
    ensures
        it.can_count(),
        it.remaining() == img.spec_width() * img.spec_height(),
        forall|x: int, y: int| img.in_bounds(x, y) ==> #[trigger] hands_out_at(it, img, x, y),
        forall|k: nat| k < img.spec_width() * img.spec_height() ==> !(#[trigger] advanced_by(it, k)).done(),
        ({
            let e = advanced_by(it, (img.spec_width() * img.spec_height()) as nat);
            &&& e.done()
            &&& e.can_count()
            &&& e.remaining() == 0
            &&& e.x == 0
            &&& img.spec_width() > 0 ==> e.y == img.spec_height()
        }),
        forall|k: nat|
            k >= img.spec_width() * img.spec_height() ==> #[trigger] advanced_by(it, k) == advanced_by(
                it,
                (img.spec_width() * img.spec_height()) as nat,
            ),
{
    let w = img.spec_width() as int;
    let h = img.spec_height() as int;
    let s = img.spec_stride() as int;
    law_buffer_layout(img);
    assert(h * w <= usize::MAX) by (nonlinear_arith)
        requires
            4 * w <= s,
            h * s <= usize::MAX,
            0 <= h,
            0 <= w,
    ;
    assert(h * w == w * h) by (nonlinear_arith);
    assert forall|x: int, y: int| img.in_bounds(x, y) implies #[trigger] hands_out_at(it, img, x, y) by {
        lemma_iter_at(it, img, x, y);
        lemma_cell_in(s, h, y, s);
        assert((y + 1) * s == y * s + s) by (nonlinear_arith);
        assert((h - y) * w - x == w * h - (y * w + x)) by (nonlinear_arith);
        assert((h - y) * w <= h * w) by (nonlinear_arith)
            requires
                0 <= y < h,
                0 <= w,
        ;
        assert(x <= (h - y) * w) by (nonlinear_arith)
            requires
                0 <= x < w,
                y < h,
        ;
    }
    assert forall|k: nat| k < w * h implies !(#[trigger] advanced_by(it, k)).done() by {
        let x = (k as int) % w;
        let y = (k as int) / w;
        assert(w > 0) by (nonlinear_arith)
            requires
                k < w * h,
                0 <= h,
                0 <= w,
        ;
        vstd::arithmetic::div_mod::lemma_fundamental_div_mod(k as int, w);
        assert(0 <= x < w);
        assert(0 <= y);
        assert(y < h) by (nonlinear_arith)
            requires
                k == w * y + x,
                0 <= x,
                k < w * h,
                0 < w,
        ;
        assert(k == y * w + x) by (nonlinear_arith)
            requires
                k == w * y + x,
        ;
        lemma_iter_at(it, img, x, y);
    }
    let n = (w * h) as nat;
    if w > 0 && h > 0 {
        lemma_iter_at(it, img, w - 1, h - 1);
        assert((h - 1) * w + (w - 1) + 1 == w * h) by (nonlinear_arith);
        assert(((h - 1) * w + (w - 1)) as nat + 1 == n);
        assert(advanced_by(it, n) == advanced_by(it, (n - 1) as nat).advanced());
        assert((h - 1 + 1) * s == h * s);
    } else {
        assert(w * h == 0) by (nonlinear_arith)
            requires
                w == 0 || h == 0,
        ;
        assert((h - 0) * w == 0) by (nonlinear_arith)
            requires
                w == 0 || h == 0,
        ;
    }
    assert forall|k: nat| k >= n implies #[trigger] advanced_by(it, k) == advanced_by(it, n) by {
        lemma_advanced_stays(it, n, k);
    }
}

/// A done iterator stays where it is.
proof fn lemma_advanced_stays(it: PixelIter, n: nat, k: nat)
    requires
        advanced_by(it, n).done(),
        n <= k,
    ensures
        advanced_by(it, k) == advanced_by(it, n),
    decreases k - n,
{
    if k > n {
        lemma_advanced_stays(it, n, (k - 1) as nat);
    }
}

/// Mutable access to the four channels of one pixel.
pub struct PixelRefMut<'a> {
    /// The red channel.
    pub r: &'a mut u8,
    /// The green channel.
    pub g: &'a mut u8,
    /// The blue channel.
    pub b: &'a mut u8,
    /// The alpha channel.
    pub a: &'a mut u8,
}

impl<'a> PixelRefMut<'a> {
    /// Writes all four channels.
    pub fn set(&mut self, pixel: Rgba)
        ensures
            *final(self).r == pixel.r,
            *final(self).g == pixel.g,
            *final(self).b == pixel.b,
            *final(self).a == pixel.a,
            *final(final(self).r) == *final(old(self).r),
            *final(final(self).g) == *final(old(self).g),
            *final(final(self).b) == *final(old(self).b),
            *final(final(self).a) == *final(old(self).a),
    {
        *self.r = pixel.r;
        *self.g = pixel.g;
        *self.b = pixel.b;
        *self.a = pixel.a;
    }

    /// The colour channels, alpha left out.
    pub fn to_rgb(&self) -> (res: Rgb)
        ensures
            res == (Rgb { r: *old(self.r), g: *old(self.g), b: *old(self.b) }),
    {
        Rgb { r: *self.r, g: *self.g, b: *self.b }
    }

    /// All four channels.
    pub fn to_rgba(&self) -> (res: Rgba)
        ensures
            res == (Rgba { r: *old(self.r), g: *old(self.g), b: *old(self.b), a: *old(self.a) }),
    {
        Rgba { r: *self.r, g: *self.g, b: *self.b, a: *self.a }
    }
}

/// The four bytes of `s` as the channels of a pixel.
fn channels(s: &mut [u8]) -> (res: PixelRefMut<'_>)
    requires
        old(s)@.len() == 4,
    ensures
        *res.r == old(s)@[0],
        *res.g == old(s)@[1],
        *res.b == old(s)@[2],
        *res.a == old(s)@[3],
        final(s)@ == seq![*final(res.r), *final(res.g), *final(res.b), *final(res.a)],
{
    let (s0, rest) = s.split_at_mut(1);
    let (s1, rest) = rest.split_at_mut(1);
    let (s2, s3) = rest.split_at_mut(1);
    let r = s0.first_mut().unwrap();
    let g = s1.first_mut().unwrap();
    let b = s2.first_mut().unwrap();
    let a = s3.first_mut().unwrap();
    PixelRefMut { r, g, b, a }
}

/// Iterator over the pixels of an image in row-major order, each one handed
/// out as mutable access to its channels. It holds the part of the buffer
/// from the next pixel on; each call splits that pixel off, and the row's
/// padding after the last pixel of a row.
pub struct PixelIterMut<'a> {
    /// The image's bytes from the next pixel on.
    pub data: &'a mut [u8],
    /// Bytes per row, padding included.
    pub stride: usize,
    /// Pixels per row.
    pub width: usize,
    /// Number of rows.
    pub height: usize,
    /// Column of the next pixel.
    pub x: usize,
    /// Row of the next pixel.
    pub y: usize,
    /// Offset of the next pixel in the image's buffer.
    pub idx: usize,
}

impl<'a> PixelIterMut<'a> {
    /// Every pixel has been handed out: the last row is passed, or rows
    /// hold no pixels.
    pub open spec fn done(&self) -> bool {
        self.y >= self.height || self.width == 0
    }

    /// Whether the next pixel is the last of its row.
    pub open spec fn at_row_end(&self) -> bool {
        self.x + 1 >= self.width
    }

    /// Bytes that `next` splits off after the pixel: the padding at a row's
    /// end, none inside a row.
    pub open spec fn skipped(&self) -> int {
        if self.at_row_end() {
            self.stride - 4 * self.width
        } else {
            0
        }
    }

    /// `next` finds the pixel, and the padding after it, in what it holds, and
    /// moves on without overflow.
    pub open spec fn can_advance(&self) -> bool {
        !self.done() ==> {
            &&& 4 * self.width <= self.stride
            &&& 4 + self.skipped() <= self.data@.len()
            &&& self.x + 1 <= usize::MAX
            &&& self.idx + 4 <= usize::MAX
            &&& (self.at_row_end() ==> (self.y + 1) * self.stride <= usize::MAX)
        }
    }

    /// The number of pixels left, `(height - y) * width - x`.
    pub open spec fn remaining(&self) -> int {
        (self.height - self.y) * self.width - self.x
    }

    /// `len` can count the pixels left without overflow.
    pub open spec fn can_count(&self) -> bool {
        &&& self.y <= self.height
        &&& self.x <= (self.height - self.y) * self.width <= usize::MAX
    }

    /// The number of pixels left.
    pub fn len(&self) -> (res: usize)
        requires
            self.can_count(),
        ensures
            res == self.remaining(),
    {
        let rows = self.height - self.y;
        assert(rows * self.width <= usize::MAX);
        rows * self.width - self.x
    }

    /// The exact number of pixels left, as lower and upper bound.
    pub fn size_hint(&self) -> (res: (usize, Option<usize>))
        requires
            self.can_count(),
        ensures
            res.0 == self.remaining(),
            res.1 == Some(res.0),
    {
        let n = self.len();
        (n, Some(n))
    }

    /// The bytes that `next` splits off after the pixel.
    pub open spec fn padding(&self) -> Seq<u8> {
        self.data@.subrange(4, 4 + self.skipped())
    }

    /// The pixel whose channels `next` hands out.
    pub open spec fn current(&self) -> Rgba {
        Rgba::from_bytes_at(self.data@, 0)
    }

    /// What one call of `next` does to the position and to what the iterator
    /// holds: nothing once done; else one column on, with the pixel split off,
    /// or the start of the next row, with the pixel and the row's padding
    /// split off.
    pub open spec fn stepped_to(self, after: PixelIterMut<'a>) -> bool {
        &&& after.stride == self.stride
        &&& after.width == self.width
        &&& after.height == self.height
        &&& if self.done() {
            &&& after.x == self.x
            &&& after.y == self.y
            &&& after.idx == self.idx
            &&& after.data@ == self.data@
        } else {
            &&& after.data@ == self.data@.subrange(4 + self.skipped(), self.data@.len() as int)
            &&& if self.at_row_end() {
                &&& after.x == 0
                &&& after.y == self.y + 1
                &&& after.idx == (self.y + 1) * self.stride
            } else {
                &&& after.x == self.x + 1
                &&& after.y == self.y
                &&& after.idx == self.idx + 4
            }
        }
    }

    /// Hands out the next pixel, or `None` once the last row is passed (at
    /// once where rows hold no pixels). The final bytes of what the iterator
    /// held are the pixel's final channels, the padding passed over, and the
    /// final bytes of what it holds next.
    pub fn next(&mut self) -> (res: Option<PixelRefMut<'a>>)
        requires
            old(self).can_advance(),
        ensures
            (*old(self)).stepped_to(*final(self)),
            old(self).done() ==> {
                &&& res is None
                &&& final(final(self).data)@ == final(old(self).data)@
            },
            !old(self).done() ==> {
                &&& res matches Some(p)
                &&& *p.r == old(self).data@[0]
                &&& *p.g == old(self).data@[1]
                &&& *p.b == old(self).data@[2]
                &&& *p.a == old(self).data@[3]
                &&& final(old(self).data)@ == seq![*final(p.r), *final(p.g), *final(p.b), *final(p.a)]
                    + old(self).padding() + final(final(self).data)@
            },
    {
        if self.y >= self.height || self.width == 0 {
            return None;
        }
        let mut rest: &'a mut [u8] = &mut [];
        std::mem::swap(&mut rest, &mut self.data);
        let (px, after) = rest.split_at_mut(4);
        self.x += 1;
        self.idx += 4;
        if self.x >= self.width {
            self.x = 0;
            self.y += 1;
            self.idx = self.y * self.stride;
            let pad = self.stride - 4 * self.width;
            let (_padding, tail) = after.split_at_mut(pad);
            self.data = tail;
        } else {
            self.data = after;
        }
        assert(self.data@ =~= old(self).data@.subrange(4 + old(self).skipped(), old(self).data@.len() as int));
        Some(channels(px))
    }
}

/// `it` stands at pixel `(x, y)` of `img`: it holds the image's bytes from
/// that pixel on.
pub open spec fn mut_iter_at(it: PixelIterMut, img: Imagex, x: int, y: int) -> bool {
    &&& it.stride == img.spec_stride()
    &&& it.width == img.spec_width()
    &&& it.height == img.spec_height()
    &&& it.x == x
    &&& it.y == y
    &&& it.idx == y * img.spec_stride() + 4 * x
    &&& it.data@ == img.bytes().subrange(y * img.spec_stride() + 4 * x, img.bytes().len() as int)
}

/// A mutable iterator standing at a pixel of an image can take its next
/// step: it hands out that pixel's channels, and then stands at the next
/// pixel in row-major order, or is done after the last one; `len` counts the
/// pixels left, and what it splits off after the pixel is the padding that
/// `padding_after` names. From `pixels_mut`, which starts at `(0, 0)`, it so
/// visits every pixel once.
pub proof fn law_pixels_mut_step(img: Imagex, it: PixelIterMut, next: PixelIterMut, x: int, y: int)
    requires
        img.wf(),
        img.in_bounds(x, y),
        mut_iter_at(it, img, x, y),
        it.stepped_to(next),
    ensures
        it.can_advance(),
        !it.done(),
        it.current() == img.pixel_at(x, y),
        it.remaining() == img.spec_width() * img.spec_height() - (y * img.spec_width() + x),
        it.padding() == padding_after(img, y * img.spec_width() + x),
        x + 1 < img.spec_width() ==> mut_iter_at(next, img, x + 1, y),
        x + 1 == img.spec_width() && y + 1 < img.spec_height() ==> mut_iter_at(next, img, 0, y + 1),
        x + 1 == img.spec_width() && y + 1 == img.spec_height() ==> next.done(),
{
    let w = img.spec_width() as int;
    let h = img.spec_height() as int;
    let s = img.spec_stride() as int;
    let b = img.bytes();
    lemma_mut_at(img, it, x, y);
    law_buffer_layout(img);
    lemma_cell_in(s, h, y, s);
    assert((y + 1) * s == y * s + s) by (nonlinear_arith);
    let o = y * s + 4 * x;
    if x + 1 < w {
        assert(next.data@ =~= b.subrange(o + 4, b.len() as int));
    } else {
        assert(next.data@ =~= b.subrange((y + 1) * s, b.len() as int));
    }
}

/// What a mutable iterator standing at pixel `(x, y)` holds and hands out.
proof fn lemma_mut_at(img: Imagex, it: PixelIterMut, x: int, y: int)
    requires
        img.wf(),
        img.in_bounds(x, y),
        mut_iter_at(it, img, x, y),
    ensures
        it.can_advance(),
        !it.done(),
        it.current() == img.pixel_at(x, y),
        it.remaining() == img.spec_width() * img.spec_height() - (y * img.spec_width() + x),
        it.padding() == padding_after(img, y * img.spec_width() + x),
{
    let w = img.spec_width() as int;
    let h = img.spec_height() as int;
    let s = img.spec_stride() as int;
    let b = img.bytes();
    law_buffer_layout(img);
    lemma_cell_in(s, h, y, s);
    assert((y + 1) * s == y * s + s) by (nonlinear_arith);
    let o = y * s + 4 * x;
    assert((h - y) * w - x == w * h - (y * w + x)) by (nonlinear_arith);
    assert(it.data@[0] == b[o] && it.data@[1] == b[o + 1] && it.data@[2] == b[o + 2] && it.data@[3] == b[o + 3]);
    let k = y * w + x;
    vstd::arithmetic::div_mod::lemma_fundamental_div_mod_converse(k, w, y, x);
    if x + 1 < w {
        vstd::arithmetic::div_mod::lemma_fundamental_div_mod_converse(k + 1, w, y, x + 1);
        assert(it.padding() =~= padding_after(img, k));
    } else {
        assert((y + 1) * w == k + 1) by (nonlinear_arith)
            requires
                k == y * w + x,
                x + 1 == w,
        ;
        vstd::arithmetic::div_mod::lemma_fundamental_div_mod_converse(k + 1, w, y + 1, 0);
        assert(it.padding() =~= padding_after(img, k));
    }
}

/// `its` are the states of a mutable iterator over `img` after 0, 1, 2, ...
/// calls of `next`, starting where `pixels_mut` starts.
pub open spec fn mut_walk(img: Imagex, its: Seq<PixelIterMut>) -> bool {
    &&& its.len() > 0
    &&& mut_iter_at(its[0], img, 0, 0)
    &&& forall|k: int| 0 <= k < its.len() - 1 ==> #[trigger] its[k].stepped_to(its[k + 1])
}

/// After `y * width + x` calls the walk stands at pixel `(x, y)`, ready to
/// hand it out, with `len` counting the pixels left.
pub open spec fn walk_hands_out_at(img: Imagex, its: Seq<PixelIterMut>, x: int, y: int) -> bool {
    let it = its[y * img.spec_width() + x];
    &&& mut_iter_at(it, img, x, y)
    &&& it.can_advance()
    &&& !it.done()
    &&& it.current() == img.pixel_at(x, y)
    &&& it.remaining() == img.spec_width() * img.spec_height() - (y * img.spec_width() + x)
    &&& it.can_count()
}

proof fn lemma_walk_at(img: Imagex, its: Seq<PixelIterMut>, x: int, y: int)
    requires
        img.wf(),
        mut_walk(img, its),
        img.in_bounds(x, y),
        y * img.spec_width() + x < its.len(),
    ensures
        0 <= y * img.spec_width() + x,
        walk_hands_out_at(img, its, x, y),
    decreases y * img.spec_width() + x,
{
    let w = img.spec_width() as int;
    let h = img.spec_height() as int;
    let s = img.spec_stride() as int;
    let k = y * w + x;
    law_buffer_layout(img);
    assert(0 <= y * w) by (nonlinear_arith)
        requires
            0 <= y,
            0 <= w,
    ;
    if x > 0 {
        lemma_walk_at(img, its, x - 1, y);
        let j = k - 1;
        assert(its[j].stepped_to(its[j + 1]));
        law_pixels_mut_step(img, its[k - 1], its[k], x - 1, y);
    } else if y > 0 {
        assert((y - 1) * w + (w - 1) == k - 1) by (nonlinear_arith)
            requires
                k == y * w + x,
                x == 0,
        ;
        lemma_walk_at(img, its, w - 1, y - 1);
        let j = k - 1;
        assert(its[j].stepped_to(its[j + 1]));
        law_pixels_mut_step(img, its[k - 1], its[k], w - 1, y - 1);
    } else {
        assert(k == 0) by (nonlinear_arith)
            requires
                k == y * w + x,
                x == 0,
                y == 0,
        ;
    }
    lemma_mut_at(img, its[k], x, y);
    assert(h * w <= usize::MAX) by (nonlinear_arith)
        requires
            4 * w <= s,
            h * s <= usize::MAX,
            0 <= h,
            0 <= w,
    ;
    assert((h - y) * w <= h * w) by (nonlinear_arith)
        requires
            0 <= y < h,
            0 <= w,
    ;
    assert(x <= (h - y) * w) by (nonlinear_arith)
        requires
            0 <= x < w,
            y < h,
    ;
}

proof fn lemma_walk_done(img: Imagex, its: Seq<PixelIterMut>, k: int)
    requires
        img.wf(),
        mut_walk(img, its),
        img.spec_width() * img.spec_height() <= k < its.len(),
    ensures
        its[k].done(),
        its[k].x == 0,
        its[k].y <= img.spec_height(),
        img.spec_width() > 0 ==> its[k].y == img.spec_height(),
        its[k].width == img.spec_width(),
        its[k].height == img.spec_height(),
    decreases k,
{
    let w = img.spec_width() as int;
    let h = img.spec_height() as int;
    if k > w * h {
        lemma_walk_done(img, its, k - 1);
        let j = k - 1;
        assert(its[j].stepped_to(its[j + 1]));
    } else if w > 0 && h > 0 {
        assert((h - 1) * w + (w - 1) == k - 1) by (nonlinear_arith)
            requires
                k == w * h,
        ;
        lemma_walk_at(img, its, w - 1, h - 1);
        let j = k - 1;
        assert(its[j].stepped_to(its[j + 1]));
    } else {
        assert(w * h == 0) by (nonlinear_arith)
            requires
                w == 0 || h == 0,
        ;
        assert(k == 0);
    }
}

/// Any number of calls of `next` from `pixels_mut`: after `y * width + x`
/// calls the iterator stands at pixel `(x, y)` and hands it out next, with
/// `len` counting `width * height` minus the calls made; from
/// `width * height` calls on it is done (standing past the last row where
/// rows hold pixels) and `len` gives 0.
pub proof fn law_pixels_mut_walk(img: Imagex, its: Seq<PixelIterMut>)
    requires
        img.wf(),
        mut_walk(img, its),
    ensures
        forall|x: int, y: int|
            img.in_bounds(x, y) && y * img.spec_width() + x < its.len() ==> #[trigger] walk_hands_out_at(
                img,
                its,
                x,
                y,
            ),
        forall|k: int|
            img.spec_width() * img.spec_height() <= k < its.len() ==> {
                &&& (#[trigger] its[k]).done()
                &&& its[k].can_count()
                &&& its[k].remaining() == 0
            },
{
    let w = img.spec_width() as int;
    let h = img.spec_height() as int;
    assert forall|x: int, y: int| img.in_bounds(x, y) && y * w + x < its.len() implies #[trigger] walk_hands_out_at(
        img,
        its,
        x,
        y,
    ) by {
        lemma_walk_at(img, its, x, y);
    }
    assert forall|k: int| w * h <= k < its.len() implies {
        &&& (#[trigger] its[k]).done()
        &&& its[k].can_count()
        &&& its[k].remaining() == 0
    } by {
        lemma_walk_done(img, its, k);
        assert((h - its[k].y) * its[k].width == 0) by (nonlinear_arith)
            requires
                w == 0 || its[k].y == h,
                its[k].width == w,
        ;
    }
}

/// The four bytes of a colour: R, G, B, A.
pub open spec fn rgba_bytes(p: Rgba) -> Seq<u8> {
    seq![p.r, p.g, p.b, p.a]
}

/// What the `k`-th call of `next` on a fresh mutable iterator over `img`
/// splits off after the pixel: the row's padding after a row's last pixel,
/// nothing otherwise.
pub open spec fn padding_after(img: Imagex, k: int) -> Seq<u8> {
    let w = img.spec_width() as int;
    let s = img.spec_stride() as int;
    if (k + 1) % w == 0 {
        img.bytes().subrange((k / w) * s + 4 * w, (k / w) * s + s)
    } else {
        Seq::empty()
    }
}

/// How the final bytes of what a fresh mutable iterator over `img` holds
/// follow each other, as `next` relates them: `finals[k]` after `k` calls,
/// `written[k]` the colour the `k`-th pixel handed out ends with, and
/// nothing left after the last pixel.
pub open spec fn write_back_chain(img: Imagex, finals: Seq<Seq<u8>>, written: Seq<Rgba>) -> bool {
    let n = img.spec_width() * img.spec_height();
    &&& finals.len() == n + 1
    &&& written.len() == n
    &&& forall|k: int|
        0 <= k < n ==> #[trigger] finals[k] == rgba_bytes(written[k]) + padding_after(img, k) + finals[k + 1]
    &&& finals[n] == Seq::<u8>::empty()
}

/// The buffer of `img` with pixel `(x, y)` replaced by `written[y * width + x]`.
pub open spec fn written_buffer(img: Imagex, written: Seq<Rgba>) -> Seq<u8> {
    let w = img.spec_width() as int;
    let s = img.spec_stride() as int;
    Seq::new(
        img.bytes().len(),
        |i: int|
            if i % s < 4 * w {
                written[(i / s) * w + (i % s) / 4].channel((i % s) % 4)
            } else {
                img.bytes()[i]
            },
    )
}

/// Byte `j` of pixel `(x, y)` of the written buffer is channel `j` of the
/// colour written there.
proof fn lemma_written_pixel(img: Imagex, written: Seq<Rgba>, x: int, y: int, j: int)
    requires
        img.wf(),
        img.in_bounds(x, y),
        0 <= j < 4,
    ensures
        0 <= y * img.spec_stride() + 4 * x + j < img.bytes().len(),
        written_buffer(img, written)[y * img.spec_stride() + 4 * x + j] == written[y * img.spec_width()
            + x].channel(j),
{
    let s = img.spec_stride() as int;
    law_buffer_layout(img);
    lemma_cell_in(s, img.spec_height() as int, y, s);
    vstd::arithmetic::div_mod::lemma_fundamental_div_mod_converse(y * s + 4 * x + j, s, y, 4 * x + j);
    vstd::arithmetic::div_mod::lemma_fundamental_div_mod_converse(4 * x + j, 4, x, j);
}

/// The padding bytes of the written buffer are those of the image.
proof fn lemma_written_padding(img: Imagex, written: Seq<Rgba>, y: int, c: int)
    requires
        img.wf(),
        0 <= y < img.spec_height(),
        4 * img.spec_width() <= c < img.spec_stride(),
    ensures
        0 <= y * img.spec_stride() + c < img.bytes().len(),
        written_buffer(img, written)[y * img.spec_stride() + c] == img.bytes()[y * img.spec_stride() + c],
{
    let s = img.spec_stride() as int;
    law_buffer_layout(img);
    lemma_cell_in(s, img.spec_height() as int, y, s);
    vstd::arithmetic::div_mod::lemma_fundamental_div_mod_converse(y * s + c, s, y, c);
}

/// From pixel `(x, y)` on, the chain holds the written buffer's bytes.
#[verifier::rlimit(40)]
proof fn lemma_write_back_from(img: Imagex, finals: Seq<Seq<u8>>, written: Seq<Rgba>, x: int, y: int)
    requires
        img.wf(),
        img.in_bounds(x, y),
        write_back_chain(img, finals, written),
    ensures
        finals[y * img.spec_width() + x] == written_buffer(img, written).subrange(
            y * img.spec_stride() + 4 * x,
            img.bytes().len() as int,
        ),
    decreases img.spec_height() - y, img.spec_width() - x,
{
    let w = img.spec_width() as int;
    let h = img.spec_height() as int;
    let s = img.spec_stride() as int;
    let t = written_buffer(img, written);
    let n = img.bytes().len() as int;
    law_buffer_layout(img);
    lemma_cell_in(s, h, y, s);
    assert((y + 1) * s == y * s + s) by (nonlinear_arith);
    let k = y * w + x;
    let o = y * s + 4 * x;
    assert(0 <= k < w * h) by {
        lemma_lex_lt(w, y, x, h, 0);
        assert(0 <= y * w) by (nonlinear_arith)
            requires
                0 <= y,
                0 <= w,
        ;
        assert(h * w == w * h) by (nonlinear_arith);
    }
    assert(finals[k] == rgba_bytes(written[k]) + padding_after(img, k) + finals[k + 1]);
    lemma_written_pixel(img, written, x, y, 0);
    lemma_written_pixel(img, written, x, y, 1);
    lemma_written_pixel(img, written, x, y, 2);
    lemma_written_pixel(img, written, x, y, 3);
    let px = rgba_bytes(written[k]);
    assert(t.subrange(o, o + 4) =~= px);
    if x + 1 < w {
        vstd::arithmetic::div_mod::lemma_fundamental_div_mod_converse(k + 1, w, y, x + 1);
        assert(padding_after(img, k) == Seq::<u8>::empty());
        lemma_write_back_from(img, finals, written, x + 1, y);
        assert(k + 1 == y * w + (x + 1));
        assert(finals[k + 1] == t.subrange(o + 4, n));
        assert(t.subrange(o, n) =~= t.subrange(o, o + 4) + t.subrange(o + 4, n));
        assert(finals[k] =~= px + t.subrange(o + 4, n));
    } else {
        assert((y + 1) * w == k + 1) by (nonlinear_arith)
            requires
                k == y * w + x,
                x + 1 == w,
        ;
        vstd::arithmetic::div_mod::lemma_fundamental_div_mod_converse(k + 1, w, y + 1, 0);
        vstd::arithmetic::div_mod::lemma_fundamental_div_mod_converse(k, w, y, x);
        let pad = padding_after(img, k);
        assert(pad == img.bytes().subrange(y * s + 4 * w, y * s + s));
        assert forall|i: int| 0 <= i < s - 4 * w implies #[trigger] t.subrange(o + 4, y * s + s)[i]
            == pad[i] by {
            lemma_written_padding(img, written, y, 4 * w + i);
        }
        assert(t.subrange(o + 4, y * s + s) =~= pad);
        if y + 1 < h {
            lemma_write_back_from(img, finals, written, 0, y + 1);
            assert((y + 1) * w + 0 == k + 1);
            assert((y + 1) * s + 4 * 0 == y * s + s);
            assert(finals[k + 1] == t.subrange(y * s + s, n));
        } else {
            assert(k + 1 == w * h) by (nonlinear_arith)
                requires
                    k + 1 == (y + 1) * w,
                    y + 1 == h,
            ;
            assert(y * s + s == n) by (nonlinear_arith)
                requires
                    y + 1 == h,
                    n == h * s,
            ;
            assert(finals[k + 1] =~= t.subrange(y * s + s, n));
        }
        assert(t.subrange(o, n) =~= t.subrange(o, o + 4) + t.subrange(o + 4, y * s + s) + t.subrange(
            y * s + s,
            n,
        ));
        assert(finals[k] =~= px + pad + t.subrange(y * s + s, n));
    }
}

/// A whole pass of a fresh mutable iterator over `img` leaves, as the
/// image's final buffer, the pixel `(x, y)` holding the colour written
/// through the `(y * width + x)`-th handed-out pixel, and every padding byte
/// as it was.
#[verifier::rlimit(40)]
pub proof fn law_pixels_mut_write_back(img: Imagex, finals: Seq<Seq<u8>>, written: Seq<Rgba>)
    requires
        img.wf(),
        img.spec_width() > 0 || img.spec_height() == 0,
        write_back_chain(img, finals, written),
    ensures
        finals[0] == written_buffer(img, written),
        forall|x: int, y: int|
            #![trigger cells_pixel(finals[0], img.spec_stride() as int, x, y)]
            img.in_bounds(x, y) ==> cells_pixel(finals[0], img.spec_stride() as int, x, y) == written[y
                * img.spec_width() + x],
        forall|r: int, c: int|
            0 <= r < img.spec_height() && 4 * img.spec_width() <= c < img.spec_stride() ==> #[trigger] cell(
                finals[0],
                img.spec_stride() as int,
                r,
                c,
            ) == img.cell_at(r, c),
{
    let w = img.spec_width() as int;
    let h = img.spec_height() as int;
    let s = img.spec_stride() as int;
    let t = written_buffer(img, written);
    law_buffer_layout(img);
    if h > 0 {
        lemma_write_back_from(img, finals, written, 0, 0);
        assert(0 * w + 0 == 0 && 0 * s + 4 * 0 == 0);
        assert(finals[0] =~= t);
    } else {
        assert(w * h == 0 && h * s == 0) by (nonlinear_arith)
            requires
                h == 0,
        ;
        assert(finals[0] =~= t);
    }
    assert forall|x: int, y: int|
        #![trigger cells_pixel(finals[0], s, x, y)]
        img.in_bounds(x, y) implies cells_pixel(finals[0], s, x, y) == written[y * w + x] by {
        lemma_written_pixel(img, written, x, y, 0);
        lemma_written_pixel(img, written, x, y, 1);
        lemma_written_pixel(img, written, x, y, 2);
        lemma_written_pixel(img, written, x, y, 3);
    }
    assert forall|r: int, c: int|
        0 <= r < h && 4 * w <= c < s implies #[trigger] cell(finals[0], s, r, c) == img.cell_at(r, c) by {
        lemma_written_padding(img, written, r, c);
    }
}

impl Imagex {
    /// An iterator over all pixels, in row-major order, with mutable access to
    /// each. What is written through it is what the image holds afterwards.
    pub fn pixels_mut(&mut self) -> (res: PixelIterMut<'_>)
        requires
            old(self).wf(),
        ensures
            mut_iter_at(res, *old(self), 0, 0),
            final(self).bytes() == final(res.data)@,
            final(res.data)@.len() == res.data@.len() ==> final(self).wf(),
            final(self).same_shape(*old(self)),
            final(self).spec_info() == old(self).spec_info(),
    {
        let stride = self.stride() as usize;
        let width = self.width() as usize;
        let height = self.height() as usize;
        let data = self.as_raw_mut();
        proof {
            assert(data@ =~= old(self).bytes().subrange(0, old(self).bytes().len() as int));
            assert(0 * old(self).spec_stride() + 4 * 0 == 0);
        }
        PixelIterMut { data, stride, width, height, x: 0, y: 0, idx: 0 }
    }
}

impl Imagex {
    /// Mutable access to the channels of the pixel at `(x, y)`. What is
    /// written through it is what the image holds there afterwards; every
    /// other byte keeps its value.
    pub fn get_pixel_mut(&mut self, x: u32, y: u32) -> (res: PixelRefMut<'_>)
        requires
            old(self).wf(),
            x < old(self).spec_width(),
            y < old(self).spec_height(),
        ensures
            ({
                let o = y * old(self).spec_stride() + 4 * x;
                &&& *res.r == old(self).bytes()[o]
                &&& *res.g == old(self).bytes()[o + 1]
                &&& *res.b == old(self).bytes()[o + 2]
                &&& *res.a == old(self).bytes()[o + 3]
                &&& final(self).bytes() == old(self).bytes().update(o, *final(res.r)).update(
                    o + 1,
                    *final(res.g),
                ).update(o + 2, *final(res.b)).update(o + 3, *final(res.a))
            }),
            final(self).wf(),
            final(self).same_shape(*old(self)),
            final(self).spec_info() == old(self).spec_info(),
    {
        let ghost before = self.bytes();
        proof {
            law_buffer_layout(*self);
            lemma_cell_in(self.spec_stride() as int, self.spec_height() as int, y as int, self.spec_stride() as int);
        }
        let idx: usize = (y as usize) * (self.stride() as usize) + (x as usize) * 4;
        let data = self.as_raw_mut();
        let (_head, rest) = data.split_at_mut(idx);
        let (px, _tail) = rest.split_at_mut(4);
        let res = channels(px);
        res
    }
}

} // verus!
