//! Three-channel colour value with 8-bit channels.
use vstd::prelude::*;

verus! {

/// Channel sum clipped to the top of the `u8` range.
pub open spec fn sat_add(a: u8, b: u8) -> u8 {
    if a + b > 255 {
        255u8
    } else {
        (a + b) as u8
    }
}

/// Channel difference clipped to the bottom of the `u8` range.
pub open spec fn sat_sub(a: u8, b: u8) -> u8 {
    if a < b {
        0u8
    } else {
        (a - b) as u8
    }
}

/// The larger of two bytes.
pub open spec fn max_u8(a: u8, b: u8) -> u8 {
    if a >= b {
        a
    } else {
        b
    }
}

/// The smaller of two bytes.
pub open spec fn min_u8(a: u8, b: u8) -> u8 {
    if a <= b {
        a
    } else {
        b
    }
}

/// RGB colour with 8-bit precision per channel.
#[derive(Debug, Clone, Copy, PartialEq, Eq, Hash, Structural)]
pub struct Rgb {
    pub r: u8,
    pub g: u8,
    pub b: u8,
}

impl Rgb {
    /// Creates a new RGB pixel.
    pub fn new(r: u8, g: u8, b: u8) -> (res: Self)
        ensures
            res == (Rgb { r, g, b }),
    {
        Rgb { r, g, b }
    }

    /// Creates a grey pixel (all channels equal).
    pub fn gray(value: u8) -> (res: Self)
        ensures
            res == (Rgb { r: value, g: value, b: value }),
    {
        Rgb { r: value, g: value, b: value }
    }

    /// Creates a black pixel.
    pub fn black() -> (res: Self)
        ensures
            res == (Rgb { r: 0, g: 0, b: 0 }),
    {
        Rgb { r: 0, g: 0, b: 0 }
    }

    /// Creates a white pixel.
    pub fn white() -> (res: Self)
        ensures
            res == (Rgb { r: 255, g: 255, b: 255 }),
    {
        Rgb { r: 255, g: 255, b: 255 }
    }

    /// Channel-wise addition that clips at 255.
    pub fn saturating_add(&self, other: &Self) -> (res: Self)
        ensures
            res.r == sat_add(self.r, other.r),
            res.g == sat_add(self.g, other.g),
            res.b == sat_add(self.b, other.b),
    {
        Rgb {
            r: self.r.saturating_add(other.r),
            g: self.g.saturating_add(other.g),
            b: self.b.saturating_add(other.b),
        }
    }

    /// Channel-wise subtraction that clips at 0.
    pub fn saturating_sub(&self, other: &Self) -> (res: Self)
        ensures
            res.r == sat_sub(self.r, other.r),
            res.g == sat_sub(self.g, other.g),
            res.b == sat_sub(self.b, other.b),
    {
        Rgb {
            r: self.r.saturating_sub(other.r),
            g: self.g.saturating_sub(other.g),
            b: self.b.saturating_sub(other.b),
        }
    }

    /// Inverts every channel (`255 - c`).
    pub fn invert(&self) -> (res: Self)
        ensures
            res == self.inverted(),
    {
        Rgb { r: 255 - self.r, g: 255 - self.g, b: 255 - self.b }
    }

    /// Largest of the three channels.
    pub fn max_channel(&self) -> (res: u8)
        ensures
            res == max_u8(max_u8(self.r, self.g), self.b),
    {
        let rg = if self.r >= self.g {
            self.r
        } else {
            self.g
        };
        if rg >= self.b {
            rg
        } else {
            self.b
        }
    }

    /// Smallest of the three channels.
    pub fn min_channel(&self) -> (res: u8)
        ensures
            res == min_u8(min_u8(self.r, self.g), self.b),
    {
        let rg = if self.r <= self.g {
            self.r
        } else {
            self.g
        };
        if rg <= self.b {
            rg
        } else {
            self.b
        }
    }
}

impl Rgb {
    /// The colour with every channel replaced by `255 - c`.
    pub open spec fn inverted(self) -> Rgb {
        Rgb { r: (255 - self.r) as u8, g: (255 - self.g) as u8, b: (255 - self.b) as u8 }
    }
}

/// Inverting twice gives the colour back.
pub proof fn law_invert_involutive(c: Rgb)
    ensures
        c.inverted().inverted() == c,
{
}

/// Adding and then subtracting the same colour with clipping never goes above
/// the starting channel, and gives it back exactly when no channel clipped.
pub proof fn law_saturating_add_sub(a: u8, b: u8)
    ensures
        sat_sub(sat_add(a, b), b) <= a,
        a + b <= 255 ==> sat_sub(sat_add(a, b), b) == a,
{
}

impl From<[u8; 3]> for Rgb {
    fn from(arr: [u8; 3]) -> (res: Self) {
        Rgb { r: arr[0], g: arr[1], b: arr[2] }
    }
}

impl vstd::std_specs::convert::FromSpecImpl<[u8; 3]> for Rgb {
    open spec fn obeys_from_spec() -> bool {
        true
    }

    open spec fn from_spec(arr: [u8; 3]) -> Self {
        Rgb { r: arr@[0], g: arr@[1], b: arr@[2] }
    }
}

impl From<Rgb> for [u8; 3] {
    fn from(pixel: Rgb) -> (res: Self) {
        [pixel.r, pixel.g, pixel.b]
    }
}

impl vstd::std_specs::convert::FromSpecImpl<Rgb> for [u8; 3] {
    open spec fn obeys_from_spec() -> bool {
        true
    }

    open spec fn from_spec(pixel: Rgb) -> Self {
        [pixel.r, pixel.g, pixel.b]
    }
}

impl From<(u8, u8, u8)> for Rgb {
    fn from(t: (u8, u8, u8)) -> (res: Self) {
        Rgb { r: t.0, g: t.1, b: t.2 }
    }
}

impl vstd::std_specs::convert::FromSpecImpl<(u8, u8, u8)> for Rgb {
    open spec fn obeys_from_spec() -> bool {
        true
    }

    open spec fn from_spec(t: (u8, u8, u8)) -> Self {
        Rgb { r: t.0, g: t.1, b: t.2 }
    }
}

impl Default for Rgb {
    fn default() -> (res: Self)
        ensures
            res == (Rgb { r: 0, g: 0, b: 0 }),
    {
        Rgb::black()
    }
}

} // verus!
