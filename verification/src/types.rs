//! Image formats, colour spaces and image metadata.
use vstd::prelude::*;
use vstd::string::StringSliceAdditionalSpecFns;

verus! {

/// Image file formats known to the library.
#[derive(Debug, Clone, Copy, PartialEq, Eq, Hash, Structural)]
pub enum ImageFormat {
    Unknown,
    Png,
    Jpeg,
    WebP,
    Bmp,
    Gif,
    Tiff,
    Ico,
    Avif,
    Ppm,
}

/// Colour spaces that image metadata can report.
#[derive(Debug, Clone, Copy, PartialEq, Eq, Structural)]
pub enum ColorSpace {
    Rgb,
    Rgba,
    Grayscale,
    GrayscaleAlpha,
    Cmyk,
    Unknown,
}

/// Metadata of an image, filled in when it is decoded.
#[derive(Debug, Clone)]
pub struct ImageInfo {
    pub width: u32,
    pub height: u32,
    pub format: ImageFormat,
    pub color_space: ColorSpace,
    pub bit_depth: u8,
    pub has_alpha: bool,
    pub compression: Option<String>,
}

impl ImageInfo {
    /// Metadata for an 8-bit RGBA image of unknown format.
    pub fn new(width: u32, height: u32) -> (res: Self)
        ensures
            res.width == width,
            res.height == height,
            res.format == ImageFormat::Unknown,
            res.color_space == ColorSpace::Rgba,
            res.bit_depth == 8,
            res.has_alpha,
            res.compression is None,
    {
        ImageInfo {
            width,
            height,
            format: ImageFormat::Unknown,
            color_space: ColorSpace::Rgba,
            bit_depth: 8,
            has_alpha: true,
            compression: None,
        }
    }
}

/// `c` with ASCII upper-case letters made lower-case.
pub open spec fn ascii_lower(c: u8) -> u8 {
    if 65 <= c <= 90 {
        (c + 32) as u8
    } else {
        c
    }
}

/// Index of the last `/` before `j`, or -1.
pub open spec fn last_slash_before(b: Seq<u8>, j: int) -> int
    decreases j,
{
    if j <= 0 {
        -1
    } else if b[j - 1] == 47u8 {
        j - 1
    } else {
        last_slash_before(b, j - 1)
    }
}

/// Bounds of the last path component before `j` that is neither empty nor `.`.
pub open spec fn last_component(b: Seq<u8>, j: int) -> Option<(int, int)>
    decreases j + 1,
{
    if j <= 0 {
        None
    } else {
        let s = last_slash_before(b, j);
        let comp = b.subrange(s + 1, j);
        if (comp.len() == 0 || comp == seq![46u8]) && -1 <= s < j {
            last_component(b, s)
        } else {
            Some((s + 1, j))
        }
    }
}

/// The file name of a Unix path, where `/` is the only separator, as
/// `std::path::Path::file_name` gives it on Unix: the last component that is
/// neither empty nor `.`, unless that is `..`. (On Windows std also splits at
/// `\`; paths are modelled the Unix way here.)
pub open spec fn file_name(b: Seq<u8>) -> Option<Seq<u8>> {
    match last_component(b, b.len() as int) {
        None => None,
        Some((a, z)) => if b.subrange(a, z) == seq![46u8, 46u8] {
            None
        } else {
            Some(b.subrange(a, z))
        },
    }
}

/// Index of the last `.` before `j`, or -1.
pub open spec fn last_dot_before(b: Seq<u8>, j: int) -> int
    decreases j,
{
    if j <= 0 {
        -1
    } else if b[j - 1] == 46u8 {
        j - 1
    } else {
        last_dot_before(b, j - 1)
    }
}

/// The extension of a path, as `std::path::Path::extension` gives it: the
/// part of the file name after its last `.`, where that `.` is not the
/// name's first byte.
pub open spec fn path_extension(b: Seq<u8>) -> Option<Seq<u8>> {
    match file_name(b) {
        None => None,
        Some(name) => {
            let d = last_dot_before(name, name.len() as int);
            if d <= 0 {
                None
            } else {
                Some(name.subrange(d + 1, name.len() as int))
            }
        },
    }
}

/// The format an extension names, compared without regard to ASCII case.
/// (No non-ASCII character lower-cases to a string of these letters, so this
/// agrees with comparing the Unicode lower-case form.)
pub open spec fn format_for_extension(e: Seq<u8>) -> ImageFormat {
    let l = e.map_values(|c: u8| ascii_lower(c));
    if l == seq![112u8, 110, 103] {
        ImageFormat::Png
    } else if l == seq![106u8, 112, 103] || l == seq![106u8, 112, 101, 103] {
        ImageFormat::Jpeg
    } else if l == seq![119u8, 101, 98, 112] {
        ImageFormat::WebP
    } else if l == seq![98u8, 109, 112] {
        ImageFormat::Bmp
    } else if l == seq![103u8, 105, 102] {
        ImageFormat::Gif
    } else if l == seq![116u8, 105, 102, 102] || l == seq![116u8, 105, 102] {
        ImageFormat::Tiff
    } else if l == seq![105u8, 99, 111] {
        ImageFormat::Ico
    } else if l == seq![97u8, 118, 105, 102] {
        ImageFormat::Avif
    } else if l == seq![112u8, 112, 109] {
        ImageFormat::Ppm
    } else {
        ImageFormat::Unknown
    }
}

/// The format a path names by its extension; `Unknown` where it has none.
pub open spec fn format_of_path(p: Seq<u8>) -> ImageFormat {
    match path_extension(p) {
        None => ImageFormat::Unknown,
        Some(e) => format_for_extension(e),
    }
}

/// The extension `ImageFormat::extension` gives, as bytes.
pub open spec fn extension_bytes(f: ImageFormat) -> Seq<u8> {
    match f {
        ImageFormat::Png => seq![112u8, 110, 103],
        ImageFormat::Jpeg => seq![106u8, 112, 103],
        ImageFormat::WebP => seq![119u8, 101, 98, 112],
        ImageFormat::Bmp => seq![98u8, 109, 112],
        ImageFormat::Gif => seq![103u8, 105, 102],
        ImageFormat::Tiff => seq![116u8, 105, 102, 102],
        ImageFormat::Ico => seq![105u8, 99, 111],
        ImageFormat::Avif => seq![97u8, 118, 105, 102],
        ImageFormat::Ppm => seq![112u8, 112, 109],
        ImageFormat::Unknown => Seq::empty(),
    }
}

/// Every known format's extension names it again.
pub proof fn law_extension_names_format(f: ImageFormat)
    requires
        f != ImageFormat::Unknown,
    ensures
        format_for_extension(extension_bytes(f)) == f,
{
    let e = extension_bytes(f);
    let l = e.map_values(|c: u8| ascii_lower(c));
    assert(l =~= e);
}

proof fn lemma_slash_skip(b: Seq<u8>, lo: int, j: int)
    requires
        0 <= lo <= j <= b.len(),
        forall|k: int| lo <= k < j ==> b[k] != 47u8,
    ensures
        last_slash_before(b, j) == last_slash_before(b, lo),
    decreases j - lo,
{
    if j > lo {
        lemma_slash_skip(b, lo, j - 1);
    }
}

proof fn lemma_slash_prefix(a: Seq<u8>, t: Seq<u8>, j: int)
    requires
        0 <= j <= a.len(),
    ensures
        last_slash_before(a + t, j) == last_slash_before(a, j),
    decreases j,
{
    if j > 0 {
        assert((a + t)[j - 1] == a[j - 1]);
        lemma_slash_prefix(a, t, j - 1);
    }
}

proof fn lemma_dot_skip(b: Seq<u8>, lo: int, j: int)
    requires
        0 <= lo <= j <= b.len(),
        forall|k: int| lo <= k < j ==> b[k] != 46u8,
    ensures
        last_dot_before(b, j) == last_dot_before(b, lo),
    decreases j - lo,
{
    if j > lo {
        lemma_dot_skip(b, lo, j - 1);
    }
}

/// A file named with a stem, a dot and a known format's extension, written
/// in any mix of upper- and lower-case letters, is recognised as that
/// format, whatever directories precede it.
pub proof fn law_from_path_any_case(stem: Seq<u8>, ext: Seq<u8>, f: ImageFormat)
    requires
        f != ImageFormat::Unknown,
        stem.len() > 0,
        stem.last() != 47u8,
        ext.map_values(|c: u8| ascii_lower(c)) == extension_bytes(f),
    ensures
        path_extension(stem + seq![46u8] + ext) == Some(ext),
        format_of_path(stem + seq![46u8] + ext) == f,
{
    let e = ext;
    let lower = |c: u8| ascii_lower(c);
    let p = stem + seq![46u8] + e;
    let n = stem.len() as int;
    assert(e.len() == extension_bytes(f).len());
    assert(e.len() >= 3);
    assert forall|k: int| 0 <= k < e.len() implies e[k] != 47u8 && e[k] != 46u8 by {
        assert(e.map_values(lower)[k] == extension_bytes(f)[k]);
        assert(extension_bytes(f)[k] != 47u8 && extension_bytes(f)[k] != 46u8);
    }
    // The last `/` lies inside the stem.
    assert forall|k: int| n <= k < p.len() implies p[k] != 47u8 by {
        if k > n {
            assert(p[k] == e[k - n - 1]);
        }
    }
    lemma_slash_skip(p, n, p.len() as int);
    lemma_slash_prefix(stem, seq![46u8] + e, n);
    assert(p =~= stem + (seq![46u8] + e));
    let s = last_slash_before(p, p.len() as int);
    assert(-1 <= s < n - 1) by {
        lemma_slash_bounds(stem, n);
        assert(stem[n - 1] != 47u8);
        if s == n - 1 {
            lemma_slash_hit(stem, n);
        }
    }
    let comp = p.subrange(s + 1, p.len() as int);
    assert(comp.len() > 1);
    assert(comp != seq![46u8]);
    assert(last_component(p, p.len() as int) == Some((s + 1, p.len() as int)));
    assert(comp != seq![46u8, 46u8]) by {
        assert(comp.len() >= 5);
    }
    assert(file_name(p) == Some(comp));
    // The last `.` of the file name is the one before the extension.
    let d = n - s - 1;
    assert forall|k: int| d < k < comp.len() implies comp[k] != 46u8 by {
        assert(comp[k] == p[k + s + 1]);
        assert(p[k + s + 1] == e[k + s + 1 - n - 1]);
    }
    lemma_dot_skip(comp, d + 1, comp.len() as int);
    assert(comp[d] == 46u8);
    assert(last_dot_before(comp, d + 1) == d);
    assert(d > 0);
    assert(comp.subrange(d + 1, comp.len() as int) =~= e);
    law_extension_names_format(f);
    assert(extension_bytes(f).map_values(lower) =~= extension_bytes(f));
}

/// A file named with a stem, a dot and a known format's extension (as
/// `ImageFormat::extension` gives it) is recognised as that format, whatever
/// directories precede it.
pub proof fn law_from_path_names_format(stem: Seq<u8>, f: ImageFormat)
    requires
        f != ImageFormat::Unknown,
        stem.len() > 0,
        stem.last() != 47u8,
    ensures
        path_extension(stem + seq![46u8] + extension_bytes(f)) == Some(extension_bytes(f)),
        format_of_path(stem + seq![46u8] + extension_bytes(f)) == f,
{
    law_extension_names_format(f);
    assert(extension_bytes(f).map_values(|c: u8| ascii_lower(c)) =~= extension_bytes(f));
    law_from_path_any_case(stem, extension_bytes(f), f);
}

proof fn lemma_slash_bounds(b: Seq<u8>, j: int)
    requires
        0 <= j <= b.len(),
    ensures
        -1 <= last_slash_before(b, j) < j,
    decreases j,
{
    if j > 0 {
        lemma_slash_bounds(b, j - 1);
    }
}

proof fn lemma_slash_hit(b: Seq<u8>, j: int)
    requires
        0 < j <= b.len(),
        last_slash_before(b, j) == j - 1,
    ensures
        b[j - 1] == 47u8,
{
    if b[j - 1] != 47u8 {
        lemma_slash_bounds(b, j - 1);
    }
}

/// One past the last `/` before `j`, or 0.
fn component_start(b: &[u8], j: usize) -> (res: usize)
    requires
        j <= b@.len(),
    ensures
        res == last_slash_before(b@, j as int) + 1,
        res <= j,
{
    let mut k = j;
    while k > 0
        invariant
            k <= j <= b@.len(),
            last_slash_before(b@, j as int) == last_slash_before(b@, k as int),
        decreases k,
    {
        if b[k - 1] == 47 {
            return k;
        }
        k -= 1;
    }
    0
}

/// One past the last `.` in `b[a..z]`, counted from `a`, or 0.
fn dot_end(b: &[u8], a: usize, z: usize) -> (res: usize)
    requires
        a <= z <= b@.len(),
    ensures
        res == last_dot_before(b@.subrange(a as int, z as int), (z - a) as int) + 1,
        res <= z - a,
{
    let ghost name = b@.subrange(a as int, z as int);
    let mut k = z;
    while k > a
        invariant
            a <= k <= z,
            z <= b@.len(),
            name == b@.subrange(a as int, z as int),
            last_dot_before(name, (z - a) as int) == last_dot_before(name, (k - a) as int),
        decreases k,
    {
        if b[k - 1] == 46 {
            return k - a;
        }
        k -= 1;
    }
    0
}

/// Whether `b[a..z]`, lower-cased, is `lit`.
fn lower_eq(b: &[u8], a: usize, z: usize, lit: &[u8]) -> (res: bool)
    requires
        a <= z <= b@.len(),
    ensures
        res == (b@.subrange(a as int, z as int).map_values(|c: u8| ascii_lower(c)) == lit@),
{
    let ghost l = b@.subrange(a as int, z as int).map_values(|c: u8| ascii_lower(c));
    if z - a != lit.len() {
        return false;
    }
    let mut i: usize = 0;
    while i < lit.len()
        invariant
            0 <= i <= lit@.len(),
            z - a == lit@.len(),
            a <= z <= b@.len(),
            l == b@.subrange(a as int, z as int).map_values(|c: u8| ascii_lower(c)),
            forall|k: int| 0 <= k < i ==> l[k] == lit@[k],
        decreases lit@.len() - i,
    {
        let c = b[a + i];
        let lc = if 65 <= c && c <= 90 {
            c + 32
        } else {
            c
        };
        if lc != lit[i] {
            assert(l[i as int] != lit@[i as int]);
            return false;
        }
        i += 1;
    }
    assert(l =~= lit@);
    true
}

/// The bounds that `last_component` gives for the whole of `b`.
fn last_component_exec(b: &[u8]) -> (res: Option<(usize, usize)>)
    ensures
        match res {
            None => last_component(b@, b@.len() as int) is None,
            Some((x, y)) => x <= y <= b@.len() && last_component(b@, b@.len() as int) == Some(
                (x as int, y as int),
            ),
        },
{
    let mut j: usize = b.len();
    loop
        invariant
            j <= b@.len(),
            last_component(b@, b@.len() as int) == last_component(b@, j as int),
        decreases j,
    {
        if j == 0 {
            return None;
        }
        let a = component_start(b, j);
        let ghost comp = b@.subrange(a as int, j as int);
        if a < j && !(j - a == 1 && b[a] == 46) {
            assert(comp != seq![46u8]) by {
                if comp.len() == 1 {
                    assert(comp[0] != seq![46u8][0]);
                }
            }
            return Some((a, j));
        }
        assert(comp.len() == 0 || comp =~= seq![46u8]);
        if a == 0 {
            assert(last_component(b@, -1) is None);
            return None;
        }
        j = a - 1;
    }
}

impl ImageFormat {
    /// The format a path's extension names, compared without regard to case;
    /// `Unknown` for a path without a known extension.
    pub fn from_path(path: &str) -> (res: Self)
        ensures
            res == format_of_path(path.spec_bytes()),
    {
        let b = path.as_bytes();
        let ghost bs = b@;
        let (a, j) = match last_component_exec(b) {
            None => return ImageFormat::Unknown,
            Some(r) => r,
        };
        let ghost name = bs.subrange(a as int, j as int);
        if j - a == 2 && b[a] == 46 && b[a + 1] == 46 {
            assert(name =~= seq![46u8, 46u8]);
            return ImageFormat::Unknown;
        }
        assert(name != seq![46u8, 46u8]) by {
            if name.len() == 2 {
                assert(name[0] == bs[a as int] && name[1] == bs[a + 1]);
            }
        }
        let d = dot_end(b, a, j);
        if d <= 1 {
            return ImageFormat::Unknown;
        }
        let e = a + d;
        assert(name.subrange(d as int, name.len() as int) =~= bs.subrange(e as int, j as int));
        if lower_eq(b, e, j, &[112u8, 110, 103]) {
            ImageFormat::Png
        } else if lower_eq(b, e, j, &[106u8, 112, 103]) || lower_eq(b, e, j, &[106u8, 112, 101, 103]) {
            ImageFormat::Jpeg
        } else if lower_eq(b, e, j, &[119u8, 101, 98, 112]) {
            ImageFormat::WebP
        } else if lower_eq(b, e, j, &[98u8, 109, 112]) {
            ImageFormat::Bmp
        } else if lower_eq(b, e, j, &[103u8, 105, 102]) {
            ImageFormat::Gif
        } else if lower_eq(b, e, j, &[116u8, 105, 102, 102]) || lower_eq(b, e, j, &[116u8, 105, 102]) {
            ImageFormat::Tiff
        } else if lower_eq(b, e, j, &[105u8, 99, 111]) {
            ImageFormat::Ico
        } else if lower_eq(b, e, j, &[97u8, 118, 105, 102]) {
            ImageFormat::Avif
        } else if lower_eq(b, e, j, &[112u8, 112, 109]) {
            ImageFormat::Ppm
        } else {
            ImageFormat::Unknown
        }
    }
}

impl ImageFormat {
    /// The usual file extension of the format, without a dot; empty for
    /// `Unknown`.
    pub fn extension(&self) -> (res: &'static str)
        ensures
            res.spec_bytes() == extension_bytes(*self),
    {
        proof {
            broadcast use vstd::string::is_ascii_spec_bytes;
        }
        match self {
            ImageFormat::Png => {
                proof {
                    reveal_strlit("png");
                    assert(vstd::string::is_ascii("png"));
                    assert("png".spec_bytes() =~= seq![112u8, 110, 103]);
                }
                "png"
            },
            ImageFormat::Jpeg => {
                proof {
                    reveal_strlit("jpg");
                    assert(vstd::string::is_ascii("jpg"));
                    assert("jpg".spec_bytes() =~= seq![106u8, 112, 103]);
                }
                "jpg"
            },
            ImageFormat::WebP => {
                proof {
                    reveal_strlit("webp");
                    assert(vstd::string::is_ascii("webp"));
                    assert("webp".spec_bytes() =~= seq![119u8, 101, 98, 112]);
                }
                "webp"
            },
            ImageFormat::Bmp => {
                proof {
                    reveal_strlit("bmp");
                    assert(vstd::string::is_ascii("bmp"));
                    assert("bmp".spec_bytes() =~= seq![98u8, 109, 112]);
                }
                "bmp"
            },
            ImageFormat::Gif => {
                proof {
                    reveal_strlit("gif");
                    assert(vstd::string::is_ascii("gif"));
                    assert("gif".spec_bytes() =~= seq![103u8, 105, 102]);
                }
                "gif"
            },
            ImageFormat::Tiff => {
                proof {
                    reveal_strlit("tiff");
                    assert(vstd::string::is_ascii("tiff"));
                    assert("tiff".spec_bytes() =~= seq![116u8, 105, 102, 102]);
                }
                "tiff"
            },
            ImageFormat::Ico => {
                proof {
                    reveal_strlit("ico");
                    assert(vstd::string::is_ascii("ico"));
                    assert("ico".spec_bytes() =~= seq![105u8, 99, 111]);
                }
                "ico"
            },
            ImageFormat::Avif => {
                proof {
                    reveal_strlit("avif");
                    assert(vstd::string::is_ascii("avif"));
                    assert("avif".spec_bytes() =~= seq![97u8, 118, 105, 102]);
                }
                "avif"
            },
            ImageFormat::Ppm => {
                proof {
                    reveal_strlit("ppm");
                    assert(vstd::string::is_ascii("ppm"));
                    assert("ppm".spec_bytes() =~= seq![112u8, 112, 109]);
                }
                "ppm"
            },
            ImageFormat::Unknown => {
                proof {
                    reveal_strlit("");
                    assert(vstd::string::is_ascii(""));
                    assert("".spec_bytes() =~= Seq::<u8>::empty());
                }
                ""
            },
        }
    }
}

} // verus!
