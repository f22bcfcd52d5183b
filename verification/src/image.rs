//! The decoded raster: width, height, optional cursor hotspot, and RGBA
//! pixel bytes in row-major order from the top row down.

use crate::pngio::{is_png_data, png_bytes_rgb, png_bytes_rgba, png_parse};
use crate::IcoError;
use vstd::prelude::*;

verus! {

/// Samples per pixel of a PNG color-type code.
pub open spec fn png_channels(ct: u8) -> int {
    if ct == 0 {
        1
    } else if ct == 2 {
        3
    } else if ct == 4 {
        2
    } else {
        4
    }
}

/// Whether a decoded PNG is one this library accepts: nonzero dimensions,
/// 8 bits per channel, a non-indexed color model, a sample buffer of
/// exactly the implied size, and a pixel count the machine can address.
pub open spec fn png_acceptable(parsed: Option<(u32, u32, u8, u8, Seq<u8>)>) -> bool {
    match parsed {
        Some(t) => {
            &&& t.0 >= 1
            &&& t.1 >= 1
            &&& t.2 == 8
            &&& (t.3 == 0 || t.3 == 2 || t.3 == 4 || t.3 == 6)
            &&& t.4.len() == png_channels(t.3) * ((t.0 as int) * (t.1 as int))
            &&& 4 * ((t.0 as int) * (t.1 as int)) <= usize::MAX
        },
        None => false,
    }
}

/// Normalizes decoded PNG samples to the canonical 4-byte RGBA layout:
/// RGBA passes through, RGB gains alpha 255, grayscale replicates the gray
/// value into R, G, and B.
pub open spec fn normalize_png(ct: u8, buf: Seq<u8>) -> Seq<u8> {
    if ct == 6 {
        buf
    } else {
        let n = buf.len() as int / png_channels(ct);
        Seq::new(
            (4 * n) as nat,
            |i: int|
                {
                    let p = i / 4;
                    let c = i % 4;
                    if ct == 2 {
                        if c == 3 {
                            255u8
                        } else {
                            buf[3 * p + c]
                        }
                    } else if ct == 4 {
                        if c == 3 {
                            buf[2 * p + 1]
                        } else {
                            buf[2 * p]
                        }
                    } else {
                        if c == 3 {
                            255u8
                        } else {
                            buf[p]
                        }
                    }
                },
        )
    }
}

/// The RGB samples of an RGBA raster: the same pixels with alpha dropped.
pub open spec fn rgb_channels(rgba: Seq<u8>) -> Seq<u8> {
    Seq::new((3 * (rgba.len() as int / 4)) as nat, |i: int| rgba[4 * (i / 3) + i % 3])
}

/// A decoded image.
pub struct IconImage {
    width: u32,
    height: u32,
    hotspot: Option<(u16, u16)>,
    rgba_data: Vec<u8>,
}

/// The mathematical content of an [`IconImage`].
pub struct ImageView {
    /// Width in pixels.
    pub width: u32,
    /// Height in pixels.
    pub height: u32,
    /// Cursor hotspot, if the image is a cursor.
    pub hotspot: Option<(u16, u16)>,
    /// RGBA bytes, 4 per pixel, rows top to bottom.
    pub rgba: Seq<u8>,
}

impl ImageView {
    /// Well-formedness: nonzero dimensions and exactly 4 bytes per pixel.
    pub open spec fn wf(self) -> bool {
        &&& self.width >= 1
        &&& self.height >= 1
        &&& self.rgba.len() == 4 * self.width * self.height
    }
}

impl View for IconImage {
    type V = ImageView;

    closed spec fn view(&self) -> ImageView {
        ImageView {
            width: self.width,
            height: self.height,
            hotspot: self.hotspot,
            rgba: self.rgba_data@,
        }
    }
}

impl IconImage {
    #[verifier::type_invariant]
    pub(crate) open spec fn type_inv(self) -> bool {
        self@.wf()
    }

    /// Creates a new image with the given dimensions and RGBA data.  The
    /// `width` and `height` must be nonzero, and `rgba_data` must hold
    /// exactly `4 * width * height` bytes, in row-major order from top to
    /// bottom.
    pub fn from_rgba_data(width: u32, height: u32, rgba_data: Vec<u8>) -> (r: IconImage)
        requires
            width >= 1,
            height >= 1,
            rgba_data@.len() == 4 * width * height,
        ensures
            r@ == (ImageView { width, height, hotspot: None, rgba: rgba_data@ }),
            r@.wf(),
    {
        IconImage { width, height, hotspot: None, rgba_data }
    }

    /// Returns the width of the image, in pixels.
    pub fn width(&self) -> (r: u32)
        ensures
            r == self@.width,
            self@.wf(),
    {
        proof {
            use_type_invariant(self);
        }
        self.width
    }

    /// Returns the height of the image, in pixels.
    pub fn height(&self) -> (r: u32)
        ensures
            r == self@.height,
            self@.wf(),
    {
        proof {
            use_type_invariant(self);
        }
        self.height
    }

    /// Returns the coordinates of the cursor hotspot (pixels right from the
    /// left edge of the image, and pixels down from the top edge), or `None`
    /// if this image is an icon rather than a cursor.
    pub fn cursor_hotspot(&self) -> (r: Option<(u16, u16)>)
        ensures
            r == self@.hotspot,
    {
        self.hotspot
    }

    /// Sets or clears the cursor hotspot coordinates.
    pub fn set_cursor_hotspot(&mut self, hotspot: Option<(u16, u16)>)
        ensures
            final(self)@ == (ImageView { hotspot, ..old(self)@ }),
    {
        proof {
            use_type_invariant(&*self);
        }
        self.hotspot = hotspot;
    }

    /// Returns the RGBA data for this image, 4 bytes per pixel, in row-major
    /// order from top to bottom.
    pub fn rgba_data(&self) -> (r: &[u8])
        ensures
            r@ == self@.rgba,
            self@.wf(),
    {
        proof {
            use_type_invariant(self);
        }
        self.rgba_data.as_slice()
    }
}

impl Clone for IconImage {
    /// Returns a copy of the image.
    fn clone(&self) -> (r: Self)
        ensures
            r@ == self@,
    {
        proof {
            use_type_invariant(self);
        }
        let data = self.rgba_data.clone();
        proof {
            assert(data@ =~= self.rgba_data@);
        }
        IconImage {
            width: self.width,
            height: self.height,
            hotspot: self.hotspot,
            rgba_data: data,
        }
    }
}

impl IconImage {
    /// Decodes an image from PNG data, normalizing grayscale, grayscale
    /// with alpha, and RGB pixels to the 4-byte RGBA layout; indexed
    /// palettes and bit depths other than 8 are rejected.
    #[verifier::loop_isolation(false)]
    pub fn read_png(data: &[u8]) -> (r: Result<IconImage, IcoError>)
        ensures
            match r {
                Ok(img) => png_acceptable(png_parse(data@)) && {
                    let t = png_parse(data@)->Some_0;
                    img@ == (ImageView {
                        width: t.0,
                        height: t.1,
                        hotspot: None,
                        rgba: normalize_png(t.3, t.4),
                    })
                },
                Err(e) => e == IcoError::MalformedInput && !png_acceptable(png_parse(data@)),
            },
    {
        let parsed = crate::pngio::png_decode(data);
        let (w, h, depth, ct, buf) = match parsed {
            Some(t) => t,
            None => {
                return Err(IcoError::MalformedInput);
            },
        };
        if w < 1 || h < 1 {
            return Err(IcoError::MalformedInput);
        }
        if depth != 8 {
            return Err(IcoError::MalformedInput);
        }
        if !(ct == 0 || ct == 2 || ct == 4 || ct == 6) {
            return Err(IcoError::MalformedInput);
        }
        let ghost wi = w as int;
        let ghost hi = h as int;
        proof {
            assert(wi * hi <= 0xFFFF_FFFF * 0xFFFF_FFFF) by (nonlinear_arith)
                requires
                    0 <= wi <= 0xFFFF_FFFF,
                    0 <= hi <= 0xFFFF_FFFF,
            ;
        }
        let px64: u64 = (w as u64) * (h as u64);
        if px64 > (usize::MAX as u64) / 4 {
            return Err(IcoError::MalformedInput);
        }
        let ch: usize = if ct == 0 {
            1
        } else if ct == 2 {
            3
        } else if ct == 4 {
            2
        } else {
            4
        };
        let blen = buf.len();
        if (blen as u64) != (ch as u64) * px64 {
            return Err(IcoError::MalformedInput);
        }
        let num: usize = px64 as usize;
        proof {
            assert(png_acceptable(png_parse(data@)));
            assert(buf@.len() == (ch as int) * (wi * hi));
            vstd::arithmetic::div_mod::lemma_div_multiples_vanish(wi * hi, ch as int);
            assert(buf@.len() as int / (ch as int) == wi * hi);
            vstd::arithmetic::mul::lemma_mul_is_associative(4, wi, hi);
        }
        let ghost gbuf = buf@;
        let ghost norm = normalize_png(ct, gbuf);
        let rgba: Vec<u8> = if ct == 6 {
            buf
        } else {
            let mut out: Vec<u8> = Vec::new();
            proof {
                assert(norm.len() == 4 * (wi * hi));
                assert(out@ =~= norm.take(0));
            }
            let mut p: usize = 0;
            while p < num
                invariant
                    p <= num,
                    out@ == norm.take(4 * (p as int)),
                decreases num - p,
            {
                proof {
                    vstd::arithmetic::div_mod::lemma_fundamental_div_mod_converse(
                        4 * (p as int),
                        4,
                        p as int,
                        0,
                    );
                    vstd::arithmetic::div_mod::lemma_fundamental_div_mod_converse(
                        4 * (p as int) + 1,
                        4,
                        p as int,
                        1,
                    );
                    vstd::arithmetic::div_mod::lemma_fundamental_div_mod_converse(
                        4 * (p as int) + 2,
                        4,
                        p as int,
                        2,
                    );
                    vstd::arithmetic::div_mod::lemma_fundamental_div_mod_converse(
                        4 * (p as int) + 3,
                        4,
                        p as int,
                        3,
                    );
                }
                if ct == 2 {
                    out.push(buf[3 * p]);
                    out.push(buf[3 * p + 1]);
                    out.push(buf[3 * p + 2]);
                    out.push(255);
                } else if ct == 4 {
                    let gray = buf[2 * p];
                    let alpha = buf[2 * p + 1];
                    out.push(gray);
                    out.push(gray);
                    out.push(gray);
                    out.push(alpha);
                } else {
                    let gray = buf[p];
                    out.push(gray);
                    out.push(gray);
                    out.push(gray);
                    out.push(255);
                }
                proof {
                    assert(out@ =~= norm.take(4 * (p as int) + 4));
                }
                p = p + 1;
            }
            proof {
                assert(norm.take(4 * (num as int)) =~= norm);
            }
            out
        };
        Ok(IconImage::from_rgba_data(w, h, rgba))
    }

    /// Encodes the image as a PNG file: with the alpha channel when any
    /// pixel is not fully opaque, without it otherwise.
    pub fn write_png(&self) -> (r: Result<Vec<u8>, IcoError>)
        ensures
            match r {
                Ok(out) => {
                    &&& is_png_data(out@)
                    &&& if crate::stats::spec_has_alpha(self@.rgba) {
                        Some(out@) == png_bytes_rgba(self@.width, self@.height, self@.rgba)
                    } else {
                        Some(out@) == png_bytes_rgb(
                            self@.width,
                            self@.height,
                            rgb_channels(self@.rgba),
                        )
                    }
                },
                Err(e) => e == IcoError::InvalidUsage && if crate::stats::spec_has_alpha(
                    self@.rgba,
                ) {
                    png_bytes_rgba(self@.width, self@.height, self@.rgba) is None
                } else {
                    png_bytes_rgb(self@.width, self@.height, rgb_channels(self@.rgba)) is None
                },
            },
    {
        let stats = self.compute_stats();
        match self.write_png_internal(&stats) {
            Ok(bpp_out) => Ok(bpp_out.1),
            Err(e) => Err(e),
        }
    }

    /// Encodes the image as a PNG file and also reports the resulting bits
    /// per pixel: 32 with an alpha channel, 24 without.
    #[verifier::loop_isolation(false)]
    pub(crate) fn write_png_internal(&self, stats: &crate::stats::ImageStats) -> (r: Result<
        (u16, Vec<u8>),
        IcoError,
    >)
        requires
            stats.describes(self@.rgba),
        ensures
            match r {
                Ok(t) => {
                    &&& t.0 == if crate::stats::spec_has_alpha(self@.rgba) {
                        32u16
                    } else {
                        24u16
                    }
                    &&& is_png_data(t.1@)
                    &&& if crate::stats::spec_has_alpha(self@.rgba) {
                        Some(t.1@) == png_bytes_rgba(self@.width, self@.height, self@.rgba)
                    } else {
                        Some(t.1@) == png_bytes_rgb(
                            self@.width,
                            self@.height,
                            rgb_channels(self@.rgba),
                        )
                    }
                },
                Err(e) => e == IcoError::InvalidUsage && if crate::stats::spec_has_alpha(
                    self@.rgba,
                ) {
                    png_bytes_rgba(self@.width, self@.height, self@.rgba) is None
                } else {
                    png_bytes_rgb(self@.width, self@.height, rgb_channels(self@.rgba)) is None
                },
            },
    {
        proof {
            use_type_invariant(self);
        }
        if stats.has_alpha {
            match crate::pngio::png_encode_rgba(self.width, self.height, &self.rgba_data) {
                Some(out) => Ok((32, out)),
                None => Err(IcoError::InvalidUsage),
            }
        } else {
            let ghost g = self@.rgba;
            let ghost rgb = rgb_channels(g);
            let len = self.rgba_data.len();
            let num = len / 4;
            proof {
                let px = (self@.width as int) * (self@.height as int);
                assert(g.len() == 4 * px) by {
                    vstd::arithmetic::mul::lemma_mul_is_associative(
                        4,
                        self@.width as int,
                        self@.height as int,
                    );
                }
                vstd::arithmetic::div_mod::lemma_div_multiples_vanish(px, 4);
                assert(num as int == px);
                assert(rgb.len() == 3 * (num as int));
            }
            let mut rgb_data: Vec<u8> = Vec::new();
            proof {
                assert(rgb_data@ =~= rgb.take(0));
            }
            let mut p: usize = 0;
            while p < num
                invariant
                    p <= num,
                    rgb_data@ == rgb.take(3 * (p as int)),
                decreases num - p,
            {
                proof {
                    vstd::arithmetic::div_mod::lemma_fundamental_div_mod_converse(
                        3 * (p as int),
                        3,
                        p as int,
                        0,
                    );
                    vstd::arithmetic::div_mod::lemma_fundamental_div_mod_converse(
                        3 * (p as int) + 1,
                        3,
                        p as int,
                        1,
                    );
                    vstd::arithmetic::div_mod::lemma_fundamental_div_mod_converse(
                        3 * (p as int) + 2,
                        3,
                        p as int,
                        2,
                    );
                }
                rgb_data.push(self.rgba_data[4 * p]);
                rgb_data.push(self.rgba_data[4 * p + 1]);
                rgb_data.push(self.rgba_data[4 * p + 2]);
                proof {
                    assert(rgb_data@ =~= rgb.take(3 * (p as int) + 3));
                }
                p = p + 1;
            }
            proof {
                assert(rgb.take(3 * (num as int)) =~= rgb);
            }
            match crate::pngio::png_encode_rgb(self.width, self.height, &rgb_data) {
                Some(out) => Ok((24, out)),
                None => Err(IcoError::InvalidUsage),
            }
        }
    }
}

} // verus!
