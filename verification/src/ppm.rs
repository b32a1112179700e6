//! Binary PPM (`P6`) decoding and encoding over byte buffers.
//!
//! The header is read line by line, as text: the magic line, then any number
//! of lines starting with `#`, then a line holding width and height separated
//! by white space, then the maximum colour value; the RGB bytes follow.
use crate::error::DecodeError;
use crate::bytes::extend_bytes;
use crate::image::{aligned_stride_of, fits_new, law_buffer_layout, packed_rgb_pixel, rgb8_at, Imagex};
use crate::rgba::Rgba;
use crate::types::{ColorSpace, ImageFormat, ImageInfo};
use vstd::prelude::*;
use vstd::std_specs::iter::IteratorSpec;
use vstd::string::StringSliceAdditionalSpecFns;
use vstd::utf8::{decode_utf8, valid_utf8};

verus! {

/// End of the line starting at `p`: just past the first `\n` at or after `p`,
/// or the end of the data.
pub open spec fn nl_end(b: Seq<u8>, p: int) -> int
    decreases b.len() - p,
{
    if p >= b.len() {
        b.len() as int
    } else if b[p] == 10u8 {
        p + 1
    } else {
        nl_end(b, p + 1)
    }
}

/// Unicode `White_Space`, the set `char::is_whitespace` tests.
pub open spec fn is_ws(c: char) -> bool {
    ||| '\t' <= c <= '\r'
    ||| c == ' '
    ||| c == '\u{85}'
    ||| c == '\u{A0}'
    ||| c == '\u{1680}'
    ||| '\u{2000}' <= c <= '\u{200A}'
    ||| c == '\u{2028}'
    ||| c == '\u{2029}'
    ||| c == '\u{202F}'
    ||| c == '\u{205F}'
    ||| c == '\u{3000}'
}

/// First index at or after `i` that is not white space (or the length).
pub open spec fn skip_ws(cs: Seq<char>, i: int) -> int
    decreases cs.len() - i,
{
    if i >= cs.len() {
        cs.len() as int
    } else if is_ws(cs[i]) {
        skip_ws(cs, i + 1)
    } else {
        i
    }
}

/// First index at or after `i` that is white space (or the length).
pub open spec fn skip_non_ws(cs: Seq<char>, i: int) -> int
    decreases cs.len() - i,
{
    if i >= cs.len() {
        cs.len() as int
    } else if is_ws(cs[i]) {
        i
    } else {
        skip_non_ws(cs, i + 1)
    }
}

/// One past the last index before `j` that is not white space (or 0).
pub open spec fn trim_end(cs: Seq<char>, j: int) -> int
    decreases j,
{
    if j <= 0 {
        0
    } else if is_ws(cs[j - 1]) {
        trim_end(cs, j - 1)
    } else {
        j
    }
}

/// The text without leading and trailing white space.
pub open spec fn trim(cs: Seq<char>) -> Seq<char> {
    let a = skip_ws(cs, 0);
    let z = trim_end(cs, cs.len() as int);
    if a < z {
        cs.subrange(a, z)
    } else {
        Seq::empty()
    }
}

/// An ASCII decimal digit.
pub open spec fn is_digit(c: char) -> bool {
    '0' <= c <= '9'
}

/// The value of a string of decimal digits.
pub open spec fn digits_value(ds: Seq<char>) -> int
    decreases ds.len(),
{
    if ds.len() == 0 {
        0
    } else {
        digits_value(ds.drop_last()) * 10 + (ds.last() as int - 48)
    }
}

/// The text without one leading `+`, if it has one.
pub open spec fn strip_plus(cs: Seq<char>) -> Seq<char> {
    if cs.len() > 0 && cs[0] == '+' {
        cs.drop_first()
    } else {
        cs
    }
}

/// One or more ASCII digits whose value fits a `u32`.
pub open spec fn parse_digits(ds: Seq<char>) -> Option<u32> {
    if ds.len() > 0 && (forall|i: int| 0 <= i < ds.len() ==> is_digit(#[trigger] ds[i])) && digits_value(
        ds,
    ) <= u32::MAX {
        Some(digits_value(ds) as u32)
    } else {
        None
    }
}

/// What `str::parse::<u32>` accepts: an optional `+`, then one or more ASCII
/// digits, with a value that fits.
pub open spec fn parse_u32_spec(cs: Seq<char>) -> Option<u32> {
    parse_digits(strip_plus(cs))
}

/// The first line at or after `p` that does not start with `#`, with the
/// position after it; or an error for a line that is not UTF-8.
pub open spec fn skip_comments(b: Seq<u8>, p: int) -> Result<(Seq<char>, int), DecodeError>
    decreases b.len() - p,
{
    let e = nl_end(b, p);
    let line = b.subrange(p, e);
    if !valid_utf8(line) {
        Err(DecodeError::InvalidUtf8)
    } else {
        let cs = decode_utf8(line);
        if cs.len() > 0 && cs[0] == '#' && p < e <= b.len() {
            skip_comments(b, e)
        } else {
            Ok((cs, e))
        }
    }
}

/// How reading a PPM header ends.
pub enum PpmHeader {
    /// With this error.
    Fail(DecodeError),
    /// With a magic line that is not `P6`; holds that line, trimmed.
    NotP6(Seq<char>),
    /// With width, height, and the position where the RGB bytes start.
    Header(u32, u32, int),
}

/// Reads the PPM header lines.
pub open spec fn ppm_header(b: Seq<u8>) -> PpmHeader {
    let e1 = nl_end(b, 0);
    let l1 = b.subrange(0, e1);
    if !valid_utf8(l1) {
        PpmHeader::Fail(DecodeError::InvalidUtf8)
    } else if trim(decode_utf8(l1)) != seq!['P', '6'] {
        PpmHeader::NotP6(trim(decode_utf8(l1)))
    } else {
        match skip_comments(b, e1) {
            Err(e) => PpmHeader::Fail(e),
            Ok((dl, p)) => {
                let a1 = skip_ws(dl, 0);
                let z1 = skip_non_ws(dl, a1);
                let a2 = skip_ws(dl, z1);
                let z2 = skip_non_ws(dl, a2);
                if a1 >= dl.len() || a2 >= dl.len() {
                    PpmHeader::Fail(DecodeError::MissingDimensions)
                } else {
                    match parse_u32_spec(dl.subrange(a1, z1)) {
                        None => PpmHeader::Fail(DecodeError::InvalidWidth),
                        Some(w) => match parse_u32_spec(dl.subrange(a2, z2)) {
                            None => PpmHeader::Fail(DecodeError::InvalidHeight),
                            Some(h) => {
                                let e3 = nl_end(b, p);
                                let l3 = b.subrange(p, e3);
                                if !valid_utf8(l3) {
                                    PpmHeader::Fail(DecodeError::InvalidUtf8)
                                } else if parse_u32_spec(trim(decode_utf8(l3))) is None {
                                    PpmHeader::Fail(DecodeError::InvalidMaxValue)
                                } else {
                                    PpmHeader::Header(w, h, e3)
                                }
                            },
                        },
                    }
                }
            },
        }
    }
}

/// The metadata a decoded PPM carries.
pub open spec fn is_ppm_info(info: Option<ImageInfo>, w: u32, h: u32) -> bool {
    info matches Some(i) && {
        &&& i.width == w
        &&& i.height == h
        &&& i.format == ImageFormat::Ppm
        &&& i.color_space == ColorSpace::Rgb
        &&& i.bit_depth == 8
        &&& !i.has_alpha
        &&& i.compression is None
    }
}

/// What decoding a PPM file gives: the header error; an error for a size
/// that cannot be counted or laid out; an error for missing pixel bytes; or
/// the opaque image whose RGB bytes follow the header.
pub open spec fn ppm_decode_result(res: Result<Imagex, DecodeError>, b: Seq<u8>) -> bool {
    match ppm_header(b) {
        PpmHeader::Fail(e) => res == Err::<Imagex, DecodeError>(e),
        PpmHeader::NotP6(m) => res matches Err(DecodeError::NotP6(v)) && v@ == m,
        PpmHeader::Header(w, h, start) => if w * h > u32::MAX || 3 * (w * h) > usize::MAX {
            res == Err::<Imagex, DecodeError>(DecodeError::DimensionsTooLarge)
        } else if b.len() - start < 3 * (w * h) {
            res == Err::<Imagex, DecodeError>(DecodeError::UnexpectedEof)
        } else if !fits_new(w, h) {
            res == Err::<Imagex, DecodeError>(DecodeError::DimensionsTooLarge)
        } else {
            res matches Ok(img) && {
                &&& img.laid_out(w, h)
                &&& forall|x: int, y: int|
                    #![auto]
                    img.in_bounds(x, y) ==> img.pixel_at(x, y) == packed_rgb_pixel(
                        b.subrange(start, start + 3 * (w * h)),
                        w as int,
                        x,
                        y,
                    )
                &&& is_ppm_info(img.spec_info(), w, h)
            }
        },
    }
}

/// Calls `std::str::from_utf8`. Trusted claim, from its documentation: it
/// succeeds exactly on valid UTF-8, and the string it returns has exactly the
/// given bytes.
#[verifier::external_body]
fn str_from_utf8(bytes: &[u8]) -> (res: Option<&str>)
    ensures
        res is Some <==> valid_utf8(bytes@),
        res matches Some(s) ==> s.spec_bytes() == bytes@,
{
    std::str::from_utf8(bytes).ok()
}

/// The characters of a string.
fn collect_chars(s: &str) -> (res: Vec<char>)
    ensures
        res@ == s@,
{
    broadcast use vstd::string::axiom_spec_iter;

    let mut out: Vec<char> = Vec::new();
    for c in it: s.chars()
        invariant
            it.seq() == s@,
            out@ == it.seq().take(it.index() as int),
    {
        out.push(c);
    }
    assert(out@ =~= s@);
    out
}

/// End of the line starting at `p`.
fn line_end(b: &[u8], p: usize) -> (res: usize)
    requires
        p <= b@.len(),
    ensures
        res == nl_end(b@, p as int),
        p <= res <= b@.len(),
{
    let mut i: usize = p;
    while i < b.len()
        invariant
            p <= i <= b@.len(),
            nl_end(b@, p as int) == nl_end(b@, i as int),
        decreases b@.len() - i,
    {
        if b[i] == 10 {
            return i + 1;
        }
        i += 1;
    }
    i
}

/// The text of the line starting at `p`, and where the next line starts.
fn read_line(b: &[u8], p: usize) -> (res: Result<(Vec<char>, usize), DecodeError>)
    requires
        p <= b@.len(),
    ensures
        ({
            let e = nl_end(b@, p as int);
            let line = b@.subrange(p as int, e);
            &&& !valid_utf8(line) ==> res == Err::<(Vec<char>, usize), DecodeError>(DecodeError::InvalidUtf8)
            &&& valid_utf8(line) ==> (res matches Ok((cs, e2)) && cs@ == decode_utf8(line) && e2 == e)
            &&& p <= e <= b@.len()
        }),
{
    let e = line_end(b, p);
    let line = &b[p..e];
    match str_from_utf8(line) {
        Some(s) => {
            let cs = collect_chars(s);
            proof {
                vstd::utf8::encode_utf8_decode_utf8(s@);
            }
            Ok((cs, e))
        },
        None => Err(DecodeError::InvalidUtf8),
    }
}

fn is_ws_char(c: char) -> (res: bool)
    ensures
        res == is_ws(c),
{
    ('\t' <= c && c <= '\r') || c == ' ' || c == '\u{85}' || c == '\u{A0}' || c == '\u{1680}' || (
    '\u{2000}' <= c && c <= '\u{200A}') || c == '\u{2028}' || c == '\u{2029}' || c == '\u{202F}' || c
        == '\u{205F}' || c == '\u{3000}'
}

fn skip_ws_exec(cs: &Vec<char>, i: usize) -> (res: usize)
    requires
        i <= cs@.len(),
    ensures
        res == skip_ws(cs@, i as int),
        i <= res <= cs@.len(),
{
    let mut k = i;
    while k < cs.len() && is_ws_char(cs[k])
        invariant
            i <= k <= cs@.len(),
            skip_ws(cs@, i as int) == skip_ws(cs@, k as int),
        decreases cs@.len() - k,
    {
        k += 1;
    }
    k
}

fn skip_non_ws_exec(cs: &Vec<char>, i: usize) -> (res: usize)
    requires
        i <= cs@.len(),
    ensures
        res == skip_non_ws(cs@, i as int),
        i <= res <= cs@.len(),
{
    let mut k = i;
    while k < cs.len() && !is_ws_char(cs[k])
        invariant
            i <= k <= cs@.len(),
            skip_non_ws(cs@, i as int) == skip_non_ws(cs@, k as int),
        decreases cs@.len() - k,
    {
        k += 1;
    }
    k
}

fn trim_end_exec(cs: &Vec<char>) -> (res: usize)
    ensures
        res == trim_end(cs@, cs@.len() as int),
        res <= cs@.len(),
{
    let mut k = cs.len();
    while k > 0 && is_ws_char(cs[k - 1])
        invariant
            k <= cs@.len(),
            trim_end(cs@, cs@.len() as int) == trim_end(cs@, k as int),
        decreases k,
    {
        k -= 1;
    }
    k
}

/// Bounds of the text without surrounding white space.
fn trim_bounds(cs: &Vec<char>) -> (res: (usize, usize))
    ensures
        res.0 <= res.1 <= cs@.len(),
        cs@.subrange(res.0 as int, res.1 as int) == trim(cs@),
{
    let a = skip_ws_exec(cs, 0);
    let z = trim_end_exec(cs);
    if a < z {
        (a, z)
    } else {
        proof {
            assert(cs@.subrange(a as int, a as int) =~= Seq::<char>::empty());
        }
        (a, a)
    }
}

/// `str::parse::<u32>` on `cs[a..z]`.
#[verifier::loop_isolation(false)]
fn parse_u32_chars(cs: &Vec<char>, a: usize, z: usize) -> (res: Option<u32>)
    requires
        a <= z <= cs@.len(),
    ensures
        res == parse_u32_spec(cs@.subrange(a as int, z as int)),
{
    let ghost s = cs@.subrange(a as int, z as int);
    let mut i = a;
    if i < z && cs[i] == '+' {
        i += 1;
    }
    let ghost ds = strip_plus(s);
    assert(ds =~= cs@.subrange(i as int, z as int));
    if i == z {
        return None;
    }
    let start = i;
    let mut v: u64 = 0;
    while i < z
        invariant
            start <= i <= z,
            z <= cs@.len(),
            ds == cs@.subrange(start as int, z as int),
            forall|j: int| 0 <= j < i - start ==> is_digit(#[trigger] ds[j]),
            v == digits_value(ds.subrange(0, i - start)),
            v <= u32::MAX,
        decreases z - i,
    {
        let c = cs[i];
        if !('0' <= c && c <= '9') {
            assert(!is_digit(ds[i - start]));
            return None;
        }
        let d = (c as u32 - 48) as u64;
        assert(ds.subrange(0, i + 1 - start).drop_last() =~= ds.subrange(0, i - start));
        let nv = v * 10 + d;
        if nv > u32::MAX as u64 {
            proof {
                if forall|j: int| 0 <= j < ds.len() ==> is_digit(#[trigger] ds[j]) {
                    lemma_digits_grow(ds, i + 1 - start);
                }
            }
            return None;
        }
        v = nv;
        i += 1;
    }
    assert(ds.subrange(0, ds.len() as int) =~= ds);
    Some(v as u32)
}

/// The value of a digit string never shrinks as digits are added.
proof fn lemma_digits_grow(ds: Seq<char>, k: int)
    requires
        0 <= k <= ds.len(),
        forall|j: int| 0 <= j < ds.len() ==> is_digit(#[trigger] ds[j]),
    ensures
        digits_value(ds.subrange(0, k)) <= digits_value(ds),
    decreases ds.len() - k,
{
    if k < ds.len() {
        lemma_digits_grow(ds, k + 1);
        assert(ds.subrange(0, k + 1).drop_last() =~= ds.subrange(0, k));
        lemma_digits_nonneg(ds.subrange(0, k));
    } else {
        assert(ds.subrange(0, k) =~= ds);
    }
}

proof fn lemma_digits_nonneg(ds: Seq<char>)
    requires
        forall|j: int| 0 <= j < ds.len() ==> is_digit(#[trigger] ds[j]),
    ensures
        digits_value(ds) >= 0,
    decreases ds.len(),
{
    if ds.len() > 0 {
        lemma_digits_nonneg(ds.drop_last());
    }
}

/// The first line at or after `p` that does not start with `#`, and where the
/// line after it starts.
fn skip_comment_lines(b: &[u8], p: usize) -> (res: Result<(Vec<char>, usize), DecodeError>)
    requires
        p <= b@.len(),
    ensures
        match skip_comments(b@, p as int) {
            Ok((cs, e)) => res matches Ok((v, e2)) && v@ == cs && e2 == e && e <= b@.len(),
            Err(er) => res == Err::<(Vec<char>, usize), DecodeError>(er),
        },
{
    let mut q = p;
    loop
        invariant
            p <= q <= b@.len(),
            skip_comments(b@, p as int) == skip_comments(b@, q as int),
        decreases b@.len() - q,
    {
        let (cs, e) = match read_line(b, q) {
            Ok(v) => v,
            Err(er) => {
                return Err(er);
            },
        };
        if cs.len() > 0 && cs[0] == '#' && q < e {
            q = e;
        } else {
            return Ok((cs, e));
        }
    }
}

/// Copies `cs[a..z]`.
fn copy_chars(cs: &Vec<char>, a: usize, z: usize) -> (res: Vec<char>)
    requires
        a <= z <= cs@.len(),
    ensures
        res@ == cs@.subrange(a as int, z as int),
{
    let mut out: Vec<char> = Vec::new();
    let mut i = a;
    while i < z
        invariant
            a <= i <= z,
            z <= cs@.len(),
            out@ == cs@.subrange(a as int, i as int),
        decreases z - i,
    {
        out.push(cs[i]);
        i += 1;
        assert(out@ =~= cs@.subrange(a as int, i as int));
    }
    out
}

/// Reads the header of a PPM file: width, height, and where the RGB bytes start.
fn read_ppm_header(b: &[u8]) -> (res: Result<(u32, u32, usize), DecodeError>)
    ensures
        match ppm_header(b@) {
            PpmHeader::Fail(e) => res == Err::<(u32, u32, usize), DecodeError>(e),
            PpmHeader::NotP6(m) => res matches Err(DecodeError::NotP6(v)) && v@ == m,
            PpmHeader::Header(w, h, start) => res matches Ok((w2, h2, s2)) && w2 == w && h2 == h && s2
                == start && start <= b@.len(),
        },
{
    let (l1, e1) = match read_line(b, 0) {
        Ok(v) => v,
        Err(e) => {
            return Err(e);
        },
    };
    let (a, z) = trim_bounds(&l1);
    let is_p6 = z - a == 2 && l1[a] == 'P' && l1[a + 1] == '6';
    proof {
        let t = l1@.subrange(a as int, z as int);
        if is_p6 {
            assert(t =~= seq!['P', '6']);
        } else if t.len() == 2 {
            assert(t[0] != 'P' || t[1] != '6');
        }
    }
    if !is_p6 {
        return Err(DecodeError::NotP6(copy_chars(&l1, a, z)));
    }
    let (dl, p) = match skip_comment_lines(b, e1) {
        Ok(v) => v,
        Err(e) => {
            return Err(e);
        },
    };
    let a1 = skip_ws_exec(&dl, 0);
    let z1 = skip_non_ws_exec(&dl, a1);
    let a2 = skip_ws_exec(&dl, z1);
    let z2 = skip_non_ws_exec(&dl, a2);
    if a1 >= dl.len() || a2 >= dl.len() {
        return Err(DecodeError::MissingDimensions);
    }
    let w = match parse_u32_chars(&dl, a1, z1) {
        Some(v) => v,
        None => {
            return Err(DecodeError::InvalidWidth);
        },
    };
    let h = match parse_u32_chars(&dl, a2, z2) {
        Some(v) => v,
        None => {
            return Err(DecodeError::InvalidHeight);
        },
    };
    let (l3, e3) = match read_line(b, p) {
        Ok(v) => v,
        Err(e) => {
            return Err(e);
        },
    };
    let (a3, z3) = trim_bounds(&l3);
    match parse_u32_chars(&l3, a3, z3) {
        Some(_) => {},
        None => {
            return Err(DecodeError::InvalidMaxValue);
        },
    }
    Ok((w, h, e3))
}

impl Imagex {
    /// Decodes a binary PPM (`P6`) file held in memory into an opaque image.
    /// The maximum colour value must parse but is not applied: samples are
    /// read as single bytes.
    pub fn read_ppm(bytes: &[u8]) -> (res: Result<Imagex, DecodeError>)
        ensures
            ppm_decode_result(res, bytes@),
    {
        let blen = bytes.len();
        let (w, h, start) = match read_ppm_header(bytes) {
            Ok(v) => v,
            Err(e) => {
                return Err(e);
            },
        };
        proof {
            assert(ppm_header(bytes@) is Header);
            assert(blen == bytes@.len());
            assert(start <= bytes@.len());
            assert((w as int) * (h as int) <= u64::MAX) by (nonlinear_arith)
                requires
                    w <= u32::MAX,
                    h <= u32::MAX,
            ;
        }
        let count: u64 = (w as u64) * (h as u64);
        if count > u32::MAX as u64 {
            return Err(DecodeError::DimensionsTooLarge);
        }
        let count3: u64 = count * 3;
        if count3 > usize::MAX as u64 {
            return Err(DecodeError::DimensionsTooLarge);
        }
        let n3: usize = count3 as usize;
        if blen - start < n3 {
            return Err(DecodeError::UnexpectedEof);
        }
        if !Imagex::fits(w, h) {
            return Err(DecodeError::DimensionsTooLarge);
        }
        let rgb = &bytes[start..start + n3];
        proof {
            assert(3 * (w * h) == 3 * w * h) by (nonlinear_arith);
        }
        let mut img = Imagex::from_rgb8(rgb, w, h);
        let ghost before = img;
        img.set_info(
            Some(
                ImageInfo {
                    width: w,
                    height: h,
                    format: ImageFormat::Ppm,
                    color_space: ColorSpace::Rgb,
                    bit_depth: 8,
                    has_alpha: false,
                    compression: None,
                },
            ),
        );
        proof {
            assert forall|r: int, c: int|
                0 <= r < img.spec_height() && 4 * img.spec_width() <= c < img.spec_stride() implies #[trigger] img.cell_at(
                r,
                c,
            ) == 0 by {
                assert(img.cell_at(r, c) == before.cell_at(r, c));
            }
            assert forall|x: int, y: int| #![auto] img.in_bounds(x, y) implies img.pixel_at(x, y)
                == packed_rgb_pixel(rgb@, w as int, x, y) by {
                assert(img.pixel_at(x, y) == before.pixel_at(x, y));
            }
        }
        Ok(img)
    }
}

/// Decimal digits of `n`, most significant first, no leading zeros.
pub open spec fn decimal(n: nat) -> Seq<u8>
    decreases n,
{
    if n < 10 {
        seq![(48 + n) as u8]
    } else {
        decimal(n / 10).push((48 + n % 10) as u8)
    }
}

/// The header the encoder writes: `P6`, then `width height`, then `255`, one per line.
pub open spec fn ppm_header_bytes(width: u32, height: u32) -> Seq<u8> {
    seq![80u8, 54, 10] + decimal(width as nat) + seq![32u8] + decimal(height as nat) + seq![10u8, 50, 53, 53, 10]
}

/// `out` is what the encoder writes for `img`: the header, then the colour
/// bytes of every pixel in row-major order, alpha and padding left out.
pub open spec fn ppm_written(img: Imagex, out: Seq<u8>) -> bool {
    let hl = ppm_header_bytes(img.spec_width(), img.spec_height()).len() as int;
    let tail = out.subrange(hl, out.len() as int);
    &&& hl <= out.len()
    &&& out.subrange(0, hl) == ppm_header_bytes(img.spec_width(), img.spec_height())
    &&& tail.len() == 3 * img.spec_width() * img.spec_height()
    &&& forall|x: int, y: int, k: int|
        img.in_bounds(x, y) && 0 <= k < 3 ==> #[trigger] rgb8_at(tail, img.spec_width() as int, x, y, k)
            == img.pixel_at(x, y).channel(k)
}

/// Appends the decimal digits of `n`.
fn push_decimal(out: &mut Vec<u8>, n: u32)
    ensures
        final(out)@ == old(out)@ + decimal(n as nat),
    decreases n,
{
    if n >= 10 {
        push_decimal(out, n / 10);
    }
    out.push((48 + n % 10) as u8);
    proof {
        if n < 10 {
            assert(final(out)@ =~= old(out)@ + decimal(n as nat));
        } else {
            assert(final(out)@ =~= old(out)@ + decimal(n as nat));
        }
    }
}

impl Imagex {
    /// Encodes the image as a binary PPM (`P6`) file with maximum value 255;
    /// alpha and padding are dropped.
    pub fn write_ppm(&self) -> (res: Vec<u8>)
        requires
            self.wf(),
        ensures
            ppm_written(*self, res@),
    {
        let mut out: Vec<u8> = Vec::new();
        out.push(80u8);
        out.push(54u8);
        out.push(10u8);
        push_decimal(&mut out, self.width());
        out.push(32u8);
        push_decimal(&mut out, self.height());
        out.push(10u8);
        out.push(50u8);
        out.push(53u8);
        out.push(53u8);
        out.push(10u8);
        let ghost header = out@;
        assert(header =~= ppm_header_bytes(self.spec_width(), self.spec_height()));
        let rgb = self.to_rgb8();
        extend_bytes(&mut out, rgb.as_slice());
        assert(out@.subrange(0, header.len() as int) =~= header);
        assert(out@.subrange(header.len() as int, out@.len() as int) =~= rgb@);
        out
    }
}

/// Bytes read as ASCII characters.
pub open spec fn ascii_chars(b: Seq<u8>) -> Seq<char> {
    Seq::new(b.len(), |i: int| b[i] as char)
}

/// ASCII bytes are valid UTF-8 and decode to one character each.
proof fn lemma_ascii_decode(b: Seq<u8>)
    requires
        forall|i: int| 0 <= i < b.len() ==> b[i] < 128,
    ensures
        valid_utf8(b),
        decode_utf8(b) == ascii_chars(b),
{
    let cs = ascii_chars(b);
    assert(vstd::utf8::is_ascii_chars(cs));
    vstd::utf8::is_ascii_chars_encode_utf8(cs);
    assert(vstd::utf8::encode_utf8(cs) =~= b);
    vstd::utf8::encode_utf8_valid_utf8(cs);
    vstd::utf8::encode_utf8_decode_utf8(cs);
}

/// The decimal digits of `n` are ASCII digits, at least one, whose value is `n`.
proof fn lemma_decimal_digits(n: nat)
    ensures
        decimal(n).len() >= 1,
        forall|i: int| 0 <= i < decimal(n).len() ==> 48 <= #[trigger] decimal(n)[i] <= 57,
        digits_value(ascii_chars(decimal(n))) == n,
    decreases n,
{
    let cs = ascii_chars(decimal(n));
    if n >= 10 {
        lemma_decimal_digits(n / 10);
        assert(cs.drop_last() =~= ascii_chars(decimal(n / 10)));
        assert(cs.last() as int == 48 + n % 10);
        assert(cs.len() > 0);
        assert(digits_value(cs) == digits_value(cs.drop_last()) * 10 + (cs.last() as int - 48));
        assert(n == (n / 10) * 10 + n % 10);
    } else {
        assert(cs.drop_last() =~= Seq::<char>::empty());
        assert(cs.last() as int == 48 + n);
        assert(cs.len() > 0);
        assert(digits_value(cs) == digits_value(cs.drop_last()) * 10 + (cs.last() as int - 48));
    }
}

/// The line starting at `p` ends just past the first `\n` at `q`.
proof fn lemma_nl_end_at(b: Seq<u8>, p: int, q: int)
    requires
        0 <= p <= q < b.len(),
        b[q] == 10u8,
        forall|i: int| p <= i < q ==> b[i] != 10u8,
    ensures
        nl_end(b, p) == q + 1,
    decreases q - p,
{
    if p < q {
        lemma_nl_end_at(b, p + 1, q);
    }
}

/// Scanning non-white-space from `i` stops at `j`.
proof fn lemma_skip_non_ws_to(cs: Seq<char>, i: int, j: int)
    requires
        0 <= i <= j <= cs.len(),
        forall|k: int| i <= k < j ==> !is_ws(#[trigger] cs[k]),
        j == cs.len() || is_ws(cs[j]),
    ensures
        skip_non_ws(cs, i) == j,
    decreases j - i,
{
    if i < j {
        lemma_skip_non_ws_to(cs, i + 1, j);
    }
}

/// The decimal digits of `n`, read as text, parse back to `n`.
proof fn lemma_parse_decimal(n: u32)
    ensures
        parse_u32_spec(ascii_chars(decimal(n as nat))) == Some(n),
{
    let cs = ascii_chars(decimal(n as nat));
    lemma_decimal_digits(n as nat);
    assert(decimal(n as nat)[0] >= 48);
    assert(cs[0] != '+');
    assert(strip_plus(cs) == cs);
    assert forall|i: int| 0 <= i < cs.len() implies is_digit(#[trigger] cs[i]) by {
        assert(48 <= decimal(n as nat)[i] <= 57);
    }
}

/// The text of `b` without surrounding white space, for a line of one or
/// more non-white-space ASCII bytes followed by `\n`.
proof fn lemma_trim_line(b: Seq<u8>)
    requires
        b.len() >= 2,
        b.last() == 10u8,
        forall|i: int| 0 <= i < b.len() - 1 ==> 33 <= #[trigger] b[i] < 127,
    ensures
        valid_utf8(b),
        trim(decode_utf8(b)) == ascii_chars(b.drop_last()),
{
    lemma_ascii_decode(b);
    let cs = ascii_chars(b);
    let n = b.len() as int;
    assert(!is_ws(cs[0]));
    assert(skip_ws(cs, 0) == 0);
    assert(is_ws(cs[n - 1]));
    assert(!is_ws(cs[n - 2]));
    assert(trim_end(cs, n - 1) == n - 1);
    assert(trim_end(cs, n) == n - 1);
    assert(cs.subrange(0, n - 1) =~= ascii_chars(b.drop_last()));
}

/// The header the encoder writes reads back as its width and height, with
/// the pixel bytes starting right after it.
proof fn lemma_ppm_header_written(w: u32, h: u32, out: Seq<u8>)
    requires
        ppm_header_bytes(w, h).len() <= out.len(),
        out.subrange(0, ppm_header_bytes(w, h).len() as int) == ppm_header_bytes(w, h),
    ensures
        ppm_header(out) == PpmHeader::Header(w, h, ppm_header_bytes(w, h).len() as int),
{
    let dw = decimal(w as nat);
    let dh = decimal(h as nat);
    let hb = ppm_header_bytes(w, h);
    let hl = hb.len() as int;
    lemma_decimal_digits(w as nat);
    lemma_decimal_digits(h as nat);
    let lw = dw.len() as int;
    let lh = dh.len() as int;
    let q2 = 4 + lw + lh;
    assert(hl == q2 + 5);
    assert forall|i: int| 0 <= i < hl implies out[i] == #[trigger] hb[i] by {
        assert(out.subrange(0, hl)[i] == out[i]);
    }
    let s1 = seq![80u8, 54, 10] + dw;
    let s2 = s1 + seq![32u8];
    let s3 = s2 + dh;
    assert(hb == s3 + seq![10u8, 50, 53, 53, 10]);
    assert forall|i: int| 0 <= i < q2 implies #[trigger] hb[i] == s3[i] by {}
    assert forall|i: int| 0 <= i < 4 + lw implies #[trigger] s3[i] == s2[i] by {}
    assert forall|i: int| 0 <= i < 3 + lw implies #[trigger] s2[i] == s1[i] by {}
    assert forall|i: int| 3 <= i < 3 + lw implies #[trigger] hb[i] == dw[i - 3] by {
        assert(s1[i] == dw[i - 3]);
    }
    assert forall|i: int| 4 + lw <= i < q2 implies #[trigger] hb[i] == dh[i - 4 - lw] by {}
    assert(hb[0] == 80u8 && hb[1] == 54u8 && hb[2] == 10u8) by {
        assert(s1[0] == 80u8 && s1[1] == 54u8 && s1[2] == 10u8);
    }
    assert(hb[3 + lw] == 32u8);
    assert(hb[q2] == 10u8 && hb[q2 + 1] == 50u8 && hb[q2 + 2] == 53u8 && hb[q2 + 3] == 53u8 && hb[q2 + 4] == 10u8);
    // The magic line.
    assert(out[2] == 10u8 && out[0] != 10u8 && out[1] != 10u8);
    lemma_nl_end_at(out, 0, 2);
    let l1 = out.subrange(0, 3);
    assert(l1 =~= seq![80u8, 54, 10]);
    lemma_trim_line(l1);
    assert(ascii_chars(l1.drop_last()) =~= seq!['P', '6']);
    // The size line.
    let line = out.subrange(3, q2 + 1);
    assert forall|i: int| 3 <= i < q2 implies out[i] != 10u8 && out[i] < 128 by {
        assert(out[i] == hb[i]);
        if i < 3 + lw {
            assert(48 <= dw[i - 3] <= 57);
        } else if i > 3 + lw {
            assert(48 <= dh[i - 4 - lw] <= 57);
        }
    }
    assert(out[q2] == 10u8);
    lemma_nl_end_at(out, 3, q2);
    lemma_ascii_decode(line);
    let cs = ascii_chars(line);
    assert(48 <= dw[0] <= 57);
    assert(cs[0] == out[3] as char);
    assert(out[3] == hb[3]);
    assert(cs[0] != '#');
    assert(skip_comments(out, 3) == Ok::<(Seq<char>, int), DecodeError>((cs, q2 + 1)));
    assert forall|k: int| 0 <= k < lw implies !is_ws(#[trigger] cs[k]) by {
        assert(cs[k] == out[k + 3] as char);
        assert(out[k + 3] == hb[k + 3]);
        assert(48 <= dw[k] <= 57);
    }
    assert forall|k: int| lw + 1 <= k < lw + 1 + lh implies !is_ws(#[trigger] cs[k]) by {
        assert(cs[k] == out[k + 3] as char);
        assert(out[k + 3] == hb[k + 3]);
        assert(48 <= dh[k - lw - 1] <= 57);
    }
    assert(cs[lw] == out[lw + 3] as char && out[lw + 3] == hb[lw + 3]);
    assert(cs[lw + 1 + lh] == out[q2] as char && out[q2] == hb[q2]);
    assert(is_ws(cs[lw]));
    assert(is_ws(cs[lw + 1 + lh]));
    assert(skip_ws(cs, 0) == 0);
    lemma_skip_non_ws_to(cs, 0, lw);
    assert(skip_ws(cs, lw + 1) == lw + 1);
    assert(skip_ws(cs, lw) == lw + 1);
    lemma_skip_non_ws_to(cs, lw + 1, lw + 1 + lh);
    assert forall|k: int| 0 <= k < lw implies #[trigger] cs.subrange(0, lw)[k] == ascii_chars(dw)[k] by {
        assert(cs[k] == out[k + 3] as char);
        assert(out[k + 3] == hb[k + 3]);
    }
    assert(cs.subrange(0, lw) =~= ascii_chars(dw));
    assert forall|k: int| 0 <= k < lh implies #[trigger] cs.subrange(lw + 1, lw + 1 + lh)[k] == ascii_chars(
        dh,
    )[k] by {
        assert(cs[k + lw + 1] == out[k + lw + 4] as char);
        assert(out[k + lw + 4] == hb[k + lw + 4]);
    }
    assert(cs.subrange(lw + 1, lw + 1 + lh) =~= ascii_chars(dh));
    lemma_parse_decimal(w);
    lemma_parse_decimal(h);
    // The maximum value line.
    let l3 = out.subrange(q2 + 1, hl);
    assert(l3 =~= seq![50u8, 53, 53, 10]);
    assert(out[hl - 1] == 10u8);
    lemma_nl_end_at(out, q2 + 1, hl - 1);
    lemma_trim_line(l3);
    let v = ascii_chars(l3.drop_last());
    assert(v =~= seq!['2', '5', '5']);
    assert(v.drop_last().drop_last() =~= seq!['2']);
    assert(v.drop_last().drop_last().drop_last() =~= Seq::<char>::empty());
    assert(digits_value(Seq::<char>::empty()) == 0);
    assert(v.drop_last().drop_last().last() as int == 50);
    assert(v.drop_last().last() as int == 53 && v.last() as int == 53);
    assert(digits_value(v.drop_last().drop_last()) == 2);
    assert(digits_value(v.drop_last()) == 25);
    assert(digits_value(v) == 255);
    assert(parse_u32_spec(v) == Some(255u32));
}

/// Decoding what `write_ppm` wrote gives back an image of the same size whose
/// pixels are those of the written image made opaque, marked as an 8-bit RGB
/// PPM.
/// (It holds where the size can be laid out and the pixel count fits the
/// `u32` the decoder counts in.)
pub proof fn law_ppm_roundtrip(img: Imagex, out: Seq<u8>, res: Result<Imagex, DecodeError>)
    requires
        img.wf(),
        fits_new(img.spec_width(), img.spec_height()),
        img.spec_width() * img.spec_height() <= u32::MAX,
        ppm_written(img, out),
        ppm_decode_result(res, out),
    ensures
        res matches Ok(back) && {
            &&& back.laid_out(img.spec_width(), img.spec_height())
            &&& is_ppm_info(back.spec_info(), img.spec_width(), img.spec_height())
            &&& forall|x: int, y: int|
                #![auto]
                img.in_bounds(x, y) ==> back.pixel_at(x, y) == (Rgba {
                    r: img.pixel_at(x, y).r,
                    g: img.pixel_at(x, y).g,
                    b: img.pixel_at(x, y).b,
                    a: 255,
                })
        },
{
    let w = img.spec_width();
    let h = img.spec_height();
    let hl = ppm_header_bytes(w, h).len() as int;
    lemma_ppm_header_written(w, h, out);
    law_buffer_layout(img);
    assert(3 * w * h == 3 * (w * h)) by (nonlinear_arith);
    assert(3 * (w * h) <= usize::MAX) by (nonlinear_arith)
        requires
            4 * w <= aligned_stride_of(w),
            h * aligned_stride_of(w) <= usize::MAX,
    ;
    let tail = out.subrange(hl, out.len() as int);
    assert(out.subrange(hl, hl + 3 * (w * h)) == tail);
    let back = res->Ok_0;
    assert forall|x: int, y: int| #![auto] img.in_bounds(x, y) implies back.pixel_at(x, y) == (Rgba {
        r: img.pixel_at(x, y).r,
        g: img.pixel_at(x, y).g,
        b: img.pixel_at(x, y).b,
        a: 255,
    }) by {
        assert(back.in_bounds(x, y));
        assert(rgb8_at(tail, w as int, x, y, 0) == img.pixel_at(x, y).channel(0));
        assert(rgb8_at(tail, w as int, x, y, 1) == img.pixel_at(x, y).channel(1));
        assert(rgb8_at(tail, w as int, x, y, 2) == img.pixel_at(x, y).channel(2));
    }
}

} // verus!
