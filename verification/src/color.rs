//! Color representations: full-depth 8-bit channels and the hardware's
//! reduced 3-bit channels, with the lossy conversions between them.

use vstd::prelude::*;
use vstd::std_specs::convert::FromSpec;

verus! {

/// A color with 8 bits per channel.
#[derive(Clone, Copy, Debug, PartialEq, Eq, PartialOrd, Ord, Structural)]
pub struct ColorU8 {
    pub r: u8,
    pub g: u8,
    pub b: u8,
}

/// A hardware-native color with 3 bits per channel; every channel is
/// below 8.
#[derive(Clone, Copy, Debug, PartialEq, Eq, PartialOrd, Ord, Structural)]
pub struct ColorU3 {
    pub r: u8,
    pub g: u8,
    pub b: u8,
}

impl ColorU8 {
    /// Reads a color from the first three bytes of a pixel buffer,
    /// in R, G, B order.
    pub fn new(rgb: &[u8]) -> (c: ColorU8)
        requires
            rgb@.len() >= 3,
        ensures
            c == (ColorU8 { r: rgb@[0], g: rgb@[1], b: rgb@[2] }),
    {
        ColorU8 { r: rgb[0], g: rgb[1], b: rgb[2] }
    }
}

impl ColorU3 {
    /// All channels fit in 3 bits.
    pub open spec fn wf(self) -> bool {
        self.r < 8 && self.g < 8 && self.b < 8
    }

    /// The hardware's packed color word: three 3-bit channels, green in
    /// the highest bits, then red, then blue.
    pub fn packed(&self) -> (w: u16)
        requires
            self.wf(),
        ensures
            w == 64 * self.g + 8 * self.r + self.b,
            w < 512,
    {
        64 * (self.g as u16) + 8 * (self.r as u16) + (self.b as u16)
    }
}

/// Rounds an 8-bit channel value to the nearest of the 8 representable
/// 3-bit levels: round(v / 255 * 7), computed exactly as
/// floor((14 * v + 255) / 510).
pub open spec fn spec_quantize3(v: u8) -> u8 {
    ((14 * (v as int) + 255) / 510) as u8
}

/// The rounded 3-bit level always fits in 3 bits.
pub proof fn lemma_quantize3_bound(v: u8)
    ensures
        spec_quantize3(v) < 8,
{
    assert((14 * (v as int) + 255) / 510 < 8) by (nonlinear_arith)
        requires
            v <= 255,
    ;
}

/// A full-depth color with every channel rounded to the nearest 3-bit
/// level.
pub open spec fn spec_quantize3_color(c: ColorU8) -> ColorU3 {
    ColorU3 { r: spec_quantize3(c.r), g: spec_quantize3(c.g), b: spec_quantize3(c.b) }
}

/// Expands a 3-bit channel value to 8 bits by bit replication, so that
/// 0 maps to 0 and 7 maps to 255.
pub open spec fn spec_expand3(x: u8) -> u8 {
    (x << 5) | (x << 2) | (x >> 1)
}

/// Bit replication of a 3-bit value equals 36 * x + x / 2, the nearest
/// integer to x / 7 * 255.
pub proof fn lemma_expand3_value(x: u8)
    requires
        x < 8,
    ensures
        spec_expand3(x) == 36 * x + x / 2,
{
    assert((x << 5) | (x << 2) | (x >> 1) == 36 * x + x / 2) by (bit_vector)
        requires
            x < 8,
    ;
}

/// A hardware color expanded back to 8 bits per channel by bit
/// replication.
pub open spec fn spec_expand3_color(c: ColorU3) -> ColorU8 {
    ColorU8 { r: spec_expand3(c.r), g: spec_expand3(c.g), b: spec_expand3(c.b) }
}

/// Expands a 3-bit channel value to 8 bits by replicating its bits into
/// the lower positions.
pub fn u3_to_u8(x: u8) -> (r: u8)
    ensures
        r == spec_expand3(x),
{
    (x << 5u32) | (x << 2u32) | (x >> 1u32)
}

/// Rounds one 8-bit channel to the nearest 3-bit level.
fn quantize3(v: u8) -> (r: u8)
    ensures
        r == spec_quantize3(v),
        r < 8,
{
    proof {
        lemma_quantize3_bound(v);
    }
    ((14 * (v as u32) + 255) / 510) as u8
}

impl From<ColorU8> for ColorU3 {
    /// Quantizes every channel to the nearest representable 3-bit level.
    fn from(value: ColorU8) -> (c: ColorU3)
        ensures
            c == (ColorU3 {
                r: spec_quantize3(value.r),
                g: spec_quantize3(value.g),
                b: spec_quantize3(value.b),
            }),
    {
        ColorU3 { r: quantize3(value.r), g: quantize3(value.g), b: quantize3(value.b) }
    }
}

impl vstd::std_specs::convert::FromSpecImpl<ColorU8> for ColorU3 {
    open spec fn obeys_from_spec() -> bool {
        true
    }

    open spec fn from_spec(value: ColorU8) -> ColorU3 {
        ColorU3 {
            r: spec_quantize3(value.r),
            g: spec_quantize3(value.g),
            b: spec_quantize3(value.b),
        }
    }
}

impl From<ColorU3> for ColorU8 {
    /// Expands every channel back to 8 bits by bit replication.
    fn from(value: ColorU3) -> (c: ColorU8)
        ensures
            c == (ColorU8 {
                r: spec_expand3(value.r),
                g: spec_expand3(value.g),
                b: spec_expand3(value.b),
            }),
    {
        let r = u3_to_u8(value.r);
        let g = u3_to_u8(value.g);
        let b = u3_to_u8(value.b);
        ColorU8 { r, g, b }
    }
}

impl vstd::std_specs::convert::FromSpecImpl<ColorU3> for ColorU8 {
    open spec fn obeys_from_spec() -> bool {
        true
    }

    open spec fn from_spec(value: ColorU3) -> ColorU8 {
        ColorU8 {
            r: spec_expand3(value.r),
            g: spec_expand3(value.g),
            b: spec_expand3(value.b),
        }
    }
}

/// Quantizing a 3-bit level that was expanded by bit replication gives
/// the level back: expansion and rounding round-trip on representable
/// colors.
pub proof fn lemma_expand_quantize_roundtrip(x: u8)
    requires
        x < 8,
    ensures
        spec_quantize3(spec_expand3(x)) == x,
{
    lemma_expand3_value(x);
    assert((14 * ((36 * x + x / 2) as u8 as int) + 255) / 510 == x) by (bit_vector)
        requires
            x < 8,
    ;
}

} // verus!
