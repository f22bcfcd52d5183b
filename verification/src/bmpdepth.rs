//! The six color depths of the legacy bitmap sub-format.

use vstd::prelude::*;

verus! {

/// A color depth at which a legacy bitmap can store its pixels.
#[derive(Clone, Copy, Debug, PartialEq, Eq, Structural)]
pub enum BmpDepth {
    /// 1 bit per pixel: an index into a 2-entry palette.
    One,
    /// 4 bits per pixel: an index into a 16-entry palette.
    Four,
    /// 8 bits per pixel: an index into a 256-entry palette.
    Eight,
    /// 16 bits per pixel: packed 5-5-5 RGB (read, but never written).
    Sixteen,
    /// 24 bits per pixel: raw B, G, R bytes.
    TwentyFour,
    /// 32 bits per pixel: raw B, G, R, A bytes; the only depth that can
    /// carry alpha values other than 0 and 255.
    ThirtyTwo,
}

impl BmpDepth {
    /// Maps a bits-per-pixel count to the depth it names, or `None` for an
    /// unsupported count.
    pub fn from_bits_per_pixel(bits_per_pixel: u16) -> (r: Option<BmpDepth>)
        ensures
            r == BmpDepth::spec_from_bits_per_pixel(bits_per_pixel),
    {
        match bits_per_pixel {
            1 => Some(BmpDepth::One),
            4 => Some(BmpDepth::Four),
            8 => Some(BmpDepth::Eight),
            16 => Some(BmpDepth::Sixteen),
            24 => Some(BmpDepth::TwentyFour),
            32 => Some(BmpDepth::ThirtyTwo),
            _ => None,
        }
    }

    /// Returns the number of bits each pixel occupies at this depth.
    pub fn bits_per_pixel(&self) -> (r: u16)
        ensures
            r == self.spec_bits_per_pixel(),
    {
        match *self {
            BmpDepth::One => 1,
            BmpDepth::Four => 4,
            BmpDepth::Eight => 8,
            BmpDepth::Sixteen => 16,
            BmpDepth::TwentyFour => 24,
            BmpDepth::ThirtyTwo => 32,
        }
    }

    /// Returns the number of entries in this depth's color table; the depths
    /// above 8 bits per pixel store colors directly and have none.
    pub fn num_colors(&self) -> (r: usize)
        ensures
            r == self.spec_num_colors(),
    {
        match *self {
            BmpDepth::One => 2,
            BmpDepth::Four => 16,
            BmpDepth::Eight => 256,
            _ => 0,
        }
    }

    /// What `from_bits_per_pixel` returns, as a mathematical function.
    pub open spec fn spec_from_bits_per_pixel(bits_per_pixel: u16) -> Option<BmpDepth> {
        if bits_per_pixel == 1 {
            Some(BmpDepth::One)
        } else if bits_per_pixel == 4 {
            Some(BmpDepth::Four)
        } else if bits_per_pixel == 8 {
            Some(BmpDepth::Eight)
        } else if bits_per_pixel == 16 {
            Some(BmpDepth::Sixteen)
        } else if bits_per_pixel == 24 {
            Some(BmpDepth::TwentyFour)
        } else if bits_per_pixel == 32 {
            Some(BmpDepth::ThirtyTwo)
        } else {
            None
        }
    }

    /// What `bits_per_pixel` returns, as a mathematical function.
    pub open spec fn spec_bits_per_pixel(self) -> u16 {
        match self {
            BmpDepth::One => 1,
            BmpDepth::Four => 4,
            BmpDepth::Eight => 8,
            BmpDepth::Sixteen => 16,
            BmpDepth::TwentyFour => 24,
            BmpDepth::ThirtyTwo => 32,
        }
    }

    /// What `num_colors` returns, as a mathematical function.
    pub open spec fn spec_num_colors(self) -> nat {
        match self {
            BmpDepth::One => 2,
            BmpDepth::Four => 16,
            BmpDepth::Eight => 256,
            _ => 0,
        }
    }
}

/// The bits-per-pixel count of a depth always maps back to that depth.
pub proof fn lemma_bmp_depth_round_trip(depth: BmpDepth)
    ensures
        BmpDepth::spec_from_bits_per_pixel(depth.spec_bits_per_pixel()) == Some(depth),
{
}

} // verus!
