//! Pixel encodings and their conversion to 8-bit luminance.
use vstd::prelude::*;

verus! {

/// Rounds `n / d` to the nearest integer (halves upwards) and clamps the
/// result to the 8-bit range; a non-positive numerator gives 0.
pub open spec fn round_clamp(n: int, d: int) -> int {
    if n <= 0 {
        0
    } else if (n + d / 2) / d > 255 {
        255
    } else {
        (n + d / 2) / d
    }
}

/// Luminance of an RGB triple: round(0.299·r + 0.587·g + 0.114·b).
pub open spec fn rgb_luma(r: int, g: int, b: int) -> int {
    (299 * r + 587 * g + 114 * b + 500) / 1000
}

/// Red channel of the BT.601 inverse transform: y + 1.402·(cr − 128).
pub open spec fn ycbcr_red(y: int, cr: int) -> int {
    round_clamp(1000 * y + 1402 * (cr - 128), 1000)
}

/// Green channel of the BT.601 inverse transform:
/// y − 0.344136·(cb − 128) − 0.714136·(cr − 128).
pub open spec fn ycbcr_green(y: int, cb: int, cr: int) -> int {
    round_clamp(1000000 * y - 344136 * (cb - 128) - 714136 * (cr - 128), 1000000)
}

/// Blue channel of the BT.601 inverse transform: y + 1.772·(cb − 128).
pub open spec fn ycbcr_blue(y: int, cb: int) -> int {
    round_clamp(1000 * y + 1772 * (cb - 128), 1000)
}

/// Rounds and clamps `n / d` as `round_clamp` states.
fn round_clamp_exec(n: i64, d: i64) -> (r: u8)
    requires
        d == 1000 || d == 1000000,
        -1000000000000 <= n <= 1000000000000,
    ensures
        r as int == round_clamp(n as int, d as int),
{
    if n <= 0 {
        0
    } else {
        let q: i64 = (n + d / 2) / d;
        if q > 255 {
            255
        } else {
            q as u8
        }
    }
}

/// [Rgb8] representation of a pixel.
#[derive(Debug, Clone, Copy, Default, PartialEq, Eq, Structural)]
pub struct Rgb8 {
    pub r: u8,
    pub g: u8,
    pub b: u8,
}

impl Rgb8 {
    /// Luminance of this pixel, as `to_gray8` computes it.
    pub open spec fn gray8_spec(&self) -> int {
        rgb_luma(self.r as int, self.g as int, self.b as int)
    }

    /// Converts [Rgb8] to an 8-bit gray level.
    pub fn to_gray8(&self) -> (gray: u8)
        ensures
            gray as int == self.gray8_spec(),
    {
        let (r, g, b) = (self.r as u32, self.g as u32, self.b as u32);
        let acc: u32 = 299 * r + 587 * g + 114 * b + 500;
        (acc / 1000) as u8
    }
}

/// [YCbCr8] representation of a pixel.
#[derive(Debug, Clone, Copy, PartialEq, Eq, Structural)]
pub struct YCbCr8 {
    /// Y luminance component
    pub y: u8,
    /// Cb: blue chrominance component
    pub cb: u8,
    /// Cr: red chrominance component
    pub cr: u8,
}

impl YCbCr8 {
    /// The [Rgb8] pixel that `to_rgb8` returns.
    pub open spec fn rgb8_spec(&self) -> Rgb8 {
        Rgb8 {
            r: ycbcr_red(self.y as int, self.cr as int) as u8,
            g: ycbcr_green(self.y as int, self.cb as int, self.cr as int) as u8,
            b: ycbcr_blue(self.y as int, self.cb as int) as u8,
        }
    }

    /// Converts [YCbCr8] to [Rgb8] through the BT.601 inverse transform.
    /// An achromatic sample (cb = cr = 128) gives the gray triple (y, y, y).
    pub fn to_rgb8(&self) -> (rgb: Rgb8)
        ensures
            rgb == self.rgb8_spec(),
            self.cb == 128 && self.cr == 128 ==> rgb == (Rgb8 { r: self.y, g: self.y, b: self.y }),
    {
        let y = self.y as i64;
        let cb = self.cb as i64 - 128;
        let cr = self.cr as i64 - 128;
        let r = round_clamp_exec(1000 * y + 1402 * cr, 1000);
        let g = round_clamp_exec(1000000 * y - 344136 * cb - 714136 * cr, 1000000);
        let b = round_clamp_exec(1000 * y + 1772 * cb, 1000);
        Rgb8 { r, g, b }
    }
}

/// A pixel sample in one of the supported encodings.
#[derive(Debug, Clone, Copy, PartialEq, Eq, Structural)]
pub enum UnderlyingComponent {
    /// Gray scale 8 bit format
    Gray8(u8),
    /// [Rgb8] representation of a pixel
    Rgb8(Rgb8),
    /// [YCbCr8] representation of a pixel
    YCbCr8(YCbCr8),
}

impl Default for UnderlyingComponent {
    fn default() -> (r: Self)
        ensures
            r == UnderlyingComponent::Rgb8(Rgb8 { r: 0, g: 0, b: 0 }),
    {
        UnderlyingComponent::Rgb8(Rgb8 { r: 0, g: 0, b: 0 })
    }
}

impl UnderlyingComponent {
    /// Luminance of this sample, whatever its encoding.
    pub open spec fn gray8_spec(&self) -> int {
        match *self {
            UnderlyingComponent::Gray8(g) => g as int,
            UnderlyingComponent::Rgb8(p) => p.gray8_spec(),
            UnderlyingComponent::YCbCr8(p) => p.rgb8_spec().gray8_spec(),
        }
    }

    /// Builds a new [Rgb8] sample.
    pub fn rgb8(r: u8, g: u8, b: u8) -> (c: Self)
        ensures
            c == UnderlyingComponent::Rgb8(Rgb8 { r, g, b }),
    {
        UnderlyingComponent::Rgb8(Rgb8 { r, g, b })
    }

    /// Builds a new [UnderlyingComponent::Gray8] sample.
    pub fn gray8(gray: u8) -> (c: Self)
        ensures
            c == UnderlyingComponent::Gray8(gray),
    {
        UnderlyingComponent::Gray8(gray)
    }

    /// Converts this sample to an 8-bit gray level.
    pub fn to_gray8(&self) -> (gray: u8)
        ensures
            gray as int == self.gray8_spec(),
    {
        match self {
            UnderlyingComponent::Gray8(g) => *g,
            UnderlyingComponent::Rgb8(p) => p.to_gray8(),
            UnderlyingComponent::YCbCr8(p) => p.to_rgb8().to_gray8(),
        }
    }
}

} // verus!
