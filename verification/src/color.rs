//! Color values and alpha compositing.

use vstd::prelude::*;

verus! {

/// A color with red, green, blue and alpha channels, 8 bits each.
#[derive(Debug, Clone, Copy, PartialEq, Eq, Structural)]
pub struct RGBA {
    pub r: u8,
    pub g: u8,
    pub b: u8,
    pub a: u8,
}

/// An opaque color with red, green and blue channels, 8 bits each.
#[derive(Debug, Clone, Copy, PartialEq, Eq, Structural)]
pub struct RGB {
    pub r: u8,
    pub g: u8,
    pub b: u8,
}

/// One channel of the alpha blend: `(1 - a/255)*base + (a/255)*other`,
/// truncated to an integer.
pub open spec fn blend_channel(base: int, other: int, alpha: int) -> int {
    ((255 - alpha) * base + alpha * other) / 255
}

/// The alpha-weighted linear interpolation of `other` over `base`: each
/// channel is blended with weight `other.a / 255`.
pub open spec fn blend(base: RGB, other: RGBA) -> RGB {
    RGB {
        r: blend_channel(base.r as int, other.r as int, other.a as int) as u8,
        g: blend_channel(base.g as int, other.g as int, other.a as int) as u8,
        b: blend_channel(base.b as int, other.b as int, other.a as int) as u8,
    }
}

/// A blended channel stays an 8-bit value.
pub proof fn lemma_blend_channel_bounds(base: int, other: int, alpha: int)
    requires
        0 <= base <= 255,
        0 <= other <= 255,
        0 <= alpha <= 255,
    ensures
        0 <= blend_channel(base, other, alpha) <= 255,
{
    assert((255 - alpha) * base + alpha * other <= 255 * 255) by (nonlinear_arith)
        requires
            0 <= base <= 255,
            0 <= other <= 255,
            0 <= alpha <= 255,
    ;
    assert((255 - alpha) * base + alpha * other >= 0) by (nonlinear_arith)
        requires
            0 <= base <= 255,
            0 <= other <= 255,
            0 <= alpha <= 255,
    ;
}

/// Blending with alpha 255 yields the drawn color; blending with alpha 0
/// leaves the base color unchanged.
pub proof fn lemma_blend_extremes(base: RGB, other: RGBA)
    ensures
        other.a == 255 ==> blend(base, other) == (RGB { r: other.r, g: other.g, b: other.b }),
        other.a == 0 ==> blend(base, other) == base,
{
}

impl RGBA {
    /// Builds an RGBA color from its four channels.
    pub fn new(r: u8, g: u8, b: u8, a: u8) -> (c: Self)
        ensures
            c == (RGBA { r, g, b, a }),
    {
        Self { r, g, b, a }
    }

    /// Splits the color into its opaque part and its alpha channel.
    pub fn to_rgb(self) -> (p: (RGB, u8))
        ensures
            p.0 == (RGB { r: self.r, g: self.g, b: self.b }),
            p.1 == self.a,
    {
        (RGB { r: self.r, g: self.g, b: self.b }, self.a)
    }
}

impl RGB {
    /// Adds an RGBA value onto an RGB value returning the result.
    /// This performs a linear interpolation between the two, weighted by the
    /// alpha channel of `other`.
    pub fn add_rgba(self, other: RGBA) -> (c: Self)
        ensures
            c == blend(self, other),
    {
        let (o, alpha) = other.to_rgb();
        let a = alpha as u32;
        proof {
            lemma_blend_channel_bounds(self.r as int, o.r as int, a as int);
            lemma_blend_channel_bounds(self.g as int, o.g as int, a as int);
            lemma_blend_channel_bounds(self.b as int, o.b as int, a as int);
        }
        let r = (((255 - a) * (self.r as u32) + a * (o.r as u32)) / 255) as u8;
        let g = (((255 - a) * (self.g as u32) + a * (o.g as u32)) / 255) as u8;
        let b = (((255 - a) * (self.b as u32) + a * (o.b as u32)) / 255) as u8;
        RGB { r, g, b }
    }
}

// ==== named color values ====

/// Fully transparent black.
pub fn transparant() -> (c: RGBA)
    ensures
        c == (RGBA { r: 0, g: 0, b: 0, a: 0 }),
{
    RGBA { r: 0, g: 0, b: 0, a: 0 }
}

/// Opaque black.
pub fn black() -> (c: RGBA)
    ensures
        c == (RGBA { r: 0, g: 0, b: 0, a: 255 }),
{
    RGBA { r: 0, g: 0, b: 0, a: 255 }
}

/// Opaque white.
pub fn white() -> (c: RGBA)
    ensures
        c == (RGBA { r: 255, g: 255, b: 255, a: 255 }),
{
    RGBA { r: 255, g: 255, b: 255, a: 255 }
}

/// Opaque red.
pub fn red() -> (c: RGBA)
    ensures
        c == (RGBA { r: 255, g: 0, b: 0, a: 255 }),
{
    RGBA { r: 255, g: 0, b: 0, a: 255 }
}

/// Opaque green.
pub fn green() -> (c: RGBA)
    ensures
        c == (RGBA { r: 0, g: 255, b: 0, a: 255 }),
{
    RGBA { r: 0, g: 255, b: 0, a: 255 }
}

/// Opaque blue.
pub fn blue() -> (c: RGBA)
    ensures
        c == (RGBA { r: 0, g: 0, b: 255, a: 255 }),
{
    RGBA { r: 0, g: 0, b: 255, a: 255 }
}

} // verus!
