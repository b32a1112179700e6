//! Four-channel colour value with 8-bit channels (alpha last).
use crate::rgb::Rgb;
use vstd::prelude::*;

verus! {

/// RGBA colour with 8-bit precision per channel; alpha 255 is fully opaque.
#[derive(Debug, Clone, Copy, PartialEq, Eq, Hash, Structural)]
pub struct Rgba {
    pub r: u8,
    pub g: u8,
    pub b: u8,
    pub a: u8,
}

impl Rgba {
    /// Channel `k` of the colour in memory order R, G, B, A.
    pub open spec fn channel(self, k: int) -> u8 {
        if k == 0 {
            self.r
        } else if k == 1 {
            self.g
        } else if k == 2 {
            self.b
        } else {
            self.a
        }
    }

    /// The colour drawn from four consecutive bytes starting at `off`.
    pub open spec fn from_bytes_at(bytes: Seq<u8>, off: int) -> Rgba {
        Rgba { r: bytes[off], g: bytes[off + 1], b: bytes[off + 2], a: bytes[off + 3] }
    }

    /// Creates a new RGBA pixel.
    pub fn new(r: u8, g: u8, b: u8, a: u8) -> (res: Self)
        ensures
            res == (Rgba { r, g, b, a }),
    {
        Rgba { r, g, b, a }
    }

    /// Creates a fully opaque pixel from three colour channels.
    pub fn from_rgb(r: u8, g: u8, b: u8) -> (res: Self)
        ensures
            res == (Rgba { r, g, b, a: 255 }),
    {
        Rgba { r, g, b, a: 255 }
    }

    /// Creates an opaque grey pixel.
    pub fn gray(value: u8) -> (res: Self)
        ensures
            res == (Rgba { r: value, g: value, b: value, a: 255 }),
    {
        Rgba { r: value, g: value, b: value, a: 255 }
    }

    /// Opaque black.
    pub fn black_opaque() -> (res: Self)
        ensures
            res == (Rgba { r: 0, g: 0, b: 0, a: 255 }),
    {
        Rgba { r: 0, g: 0, b: 0, a: 255 }
    }

    /// Opaque white.
    pub fn white_opaque() -> (res: Self)
        ensures
            res == (Rgba { r: 255, g: 255, b: 255, a: 255 }),
    {
        Rgba { r: 255, g: 255, b: 255, a: 255 }
    }

    /// Fully transparent black.
    pub fn transparent() -> (res: Self)
        ensures
            res == (Rgba { r: 0, g: 0, b: 0, a: 0 }),
    {
        Rgba { r: 0, g: 0, b: 0, a: 0 }
    }

    /// Drops the alpha channel.
    pub fn to_rgb(&self) -> (res: Rgb)
        ensures
            res == (Rgb { r: self.r, g: self.g, b: self.b }),
    {
        Rgb { r: self.r, g: self.g, b: self.b }
    }
}

/// Widening an RGB colour to opaque RGBA and dropping alpha again gives the
/// colour back.
pub proof fn law_rgb_rgba_roundtrip(c: Rgb)
    ensures
        ({
            let w = <Rgba as vstd::std_specs::convert::FromSpec<Rgb>>::from_spec(c);
            Rgb { r: w.r, g: w.g, b: w.b } == c && w.a == 255
        }),
{
}

impl From<Rgb> for Rgba {
    fn from(rgb: Rgb) -> (res: Self) {
        Rgba { r: rgb.r, g: rgb.g, b: rgb.b, a: 255 }
    }
}

impl vstd::std_specs::convert::FromSpecImpl<Rgb> for Rgba {
    open spec fn obeys_from_spec() -> bool {
        true
    }

    open spec fn from_spec(rgb: Rgb) -> Self {
        Rgba { r: rgb.r, g: rgb.g, b: rgb.b, a: 255 }
    }
}

impl From<Rgba> for [u8; 4] {
    fn from(pixel: Rgba) -> (res: Self) {
        [pixel.r, pixel.g, pixel.b, pixel.a]
    }
}

impl vstd::std_specs::convert::FromSpecImpl<Rgba> for [u8; 4] {
    open spec fn obeys_from_spec() -> bool {
        true
    }

    open spec fn from_spec(pixel: Rgba) -> Self {
        [pixel.r, pixel.g, pixel.b, pixel.a]
    }
}

impl From<(u8, u8, u8, u8)> for Rgba {
    fn from(t: (u8, u8, u8, u8)) -> (res: Self) {
        Rgba { r: t.0, g: t.1, b: t.2, a: t.3 }
    }
}

impl vstd::std_specs::convert::FromSpecImpl<(u8, u8, u8, u8)> for Rgba {
    open spec fn obeys_from_spec() -> bool {
        true
    }

    open spec fn from_spec(t: (u8, u8, u8, u8)) -> Self {
        Rgba { r: t.0, g: t.1, b: t.2, a: t.3 }
    }
}

impl Default for Rgba {
    fn default() -> (res: Self)
        ensures
            res == (Rgba { r: 0, g: 0, b: 0, a: 255 }),
    {
        Rgba::black_opaque()
    }
}

} // verus!
