//! The legacy bitmap sub-format, bit for bit: a 40-byte header, a color
//! table for the palettized depths, bottom-up 4-byte-padded pixel rows, and
//! a trailing 1-bit mask plane at every depth except 32.

use crate::bmpdepth::{lemma_bmp_depth_round_trip, BmpDepth};
use crate::bytes::{le16_at, le32_at, lemma_u16_bytes_round_trip, lemma_u32_bytes_round_trip, u16_bytes, u32_bytes};
use crate::stats::{num_px, px_alpha, px_color};
use vstd::prelude::*;

verus! {

// ---------------------------------------------------------------------------
// Geometry
// ---------------------------------------------------------------------------
/// Bytes of actual pixel data in one row at `bpp` bits per pixel.
pub open spec fn row_data_size(width: int, bpp: int) -> int {
    (width * bpp + 7) / 8
}

/// `n` rounded up to the next multiple of 4.
pub open spec fn padded4(n: int) -> int {
    ((n + 3) / 4) * 4
}

/// Bytes one stored pixel row occupies, padding included.
pub open spec fn row_size(width: int, bpp: int) -> int {
    padded4(row_data_size(width, bpp))
}

/// Bytes one stored mask row occupies, padding included.
pub open spec fn mask_row_size(width: int) -> int {
    padded4(row_data_size(width, 1))
}

/// Offset of the pixel rows: header plus color table.
pub open spec fn bmp_rows_off(depth: BmpDepth) -> int {
    40 + 4 * (depth.spec_num_colors() as int)
}

/// Total size of an encoded bitmap with the given dimensions and depth.
pub open spec fn bmp_total_size(w: int, h: int, depth: BmpDepth) -> int {
    bmp_rows_off(depth) + h * row_size(w, depth.spec_bits_per_pixel() as int) + if depth
        is ThirtyTwo {
        0int
    } else {
        h * mask_row_size(w)
    }
}

// ---------------------------------------------------------------------------
// Parsing: header fields and validity
// ---------------------------------------------------------------------------
/// The width field of a bitmap header.
pub open spec fn bmp_width(data: Seq<u8>) -> int {
    le32_at(data, 4) as int
}

/// The logical height of a bitmap: the stored field counts the pixel rows
/// and the mask rows together, so it holds double the height.
pub open spec fn bmp_height(data: Seq<u8>) -> int {
    le32_at(data, 8) as int / 2
}

/// The depth of a bitmap, if its bits-per-pixel field is supported.
pub open spec fn bmp_depth_of(data: Seq<u8>) -> Option<BmpDepth> {
    BmpDepth::spec_from_bits_per_pixel(le16_at(data, 14))
}

/// Whether the first 12 header bytes are acceptable: the header-length field
/// must be exactly 40, the width at least 1 (and not negative as a 32-bit
/// signed value), and the doubled height even, positive, and in signed
/// range.
pub open spec fn bmp_size_ok(data: Seq<u8>) -> bool {
    &&& data.len() >= 12
    &&& le32_at(data, 0) == 40
    &&& 1 <= le32_at(data, 4) <= 0x7FFF_FFFF
    &&& le32_at(data, 8) % 2 == 0
    &&& 2 <= le32_at(data, 8) <= 0x7FFF_FFFF
}

/// Whether a full bitmap decodes: valid header, supported depth, a pixel
/// count the implementation can address, and enough bytes for the color
/// table, the pixel rows, and the mask rows.
pub open spec fn bmp_ok(data: Seq<u8>) -> bool {
    &&& data.len() >= 40
    &&& bmp_size_ok(data)
    &&& bmp_depth_of(data) is Some
    &&& bmp_width(data) * bmp_height(data) <= 0xFFFF_FFFF
    &&& 4 * (bmp_width(data) * bmp_height(data)) <= usize::MAX
    &&& data.len() >= bmp_total_size(bmp_width(data), bmp_height(data), bmp_depth_of(data)->Some_0)
}

// ---------------------------------------------------------------------------
// Decoding
// ---------------------------------------------------------------------------
/// Red component of color-table entry `k` (entries are stored B, G, R, 0).
pub open spec fn pal_red(data: Seq<u8>, k: int) -> u8 {
    data[40 + 4 * k + 2]
}

/// Green component of color-table entry `k`.
pub open spec fn pal_green(data: Seq<u8>, k: int) -> u8 {
    data[40 + 4 * k + 1]
}

/// Blue component of color-table entry `k`.
pub open spec fn pal_blue(data: Seq<u8>, k: int) -> u8 {
    data[40 + 4 * k]
}

/// The divisor that brings bit `k` of a byte (most significant bit first)
/// into the lowest position.
pub open spec fn msb_weight(k: int) -> u8 {
    if k == 0 {
        128
    } else if k == 1 {
        64
    } else if k == 2 {
        32
    } else if k == 3 {
        16
    } else if k == 4 {
        8
    } else if k == 5 {
        4
    } else if k == 6 {
        2
    } else {
        1
    }
}

/// Bit `k` (most significant first) of byte `b`, as 0 or 1.
pub open spec fn bit_at(b: u8, k: int) -> int {
    (b / msb_weight(k)) as int % 2
}

/// The color-table index stored for pixel `(x, y)` at a palettized depth.
/// Rows are stored bottom-up; `y` counts from the top.
pub open spec fn bmp_color_index(data: Seq<u8>, w: int, h: int, depth: BmpDepth, x: int, y: int) -> int {
    let off = bmp_rows_off(depth) + (h - 1 - y) * row_size(w, depth.spec_bits_per_pixel() as int);
    match depth {
        BmpDepth::One => bit_at(data[off + x / 8], x % 8),
        BmpDepth::Four => if x % 2 == 0 {
            data[off + x / 2] as int / 16
        } else {
            data[off + x / 2] as int % 16
        },
        _ => data[off + x] as int,
    }
}

/// The mask bit stored for pixel `(x, y)`: 1 forces the pixel transparent.
pub open spec fn bmp_mask_bit(data: Seq<u8>, w: int, h: int, depth: BmpDepth, x: int, y: int) -> int {
    let moff = bmp_rows_off(depth) + h * row_size(w, depth.spec_bits_per_pixel() as int) + (h - 1
        - y) * mask_row_size(w);
    bit_at(data[moff + x / 8], x % 8)
}

/// A 5-bit channel of a packed 5-5-5 pixel scaled to 0..=255.
pub open spec fn scale5(c: int) -> u8 {
    ((c * 255 + 15) / 31) as u8
}

/// Byte `c` (R, G, B, A for `c` = 0, 1, 2, 3) of decoded pixel `(x, y)`.
pub open spec fn bmp_px_byte(data: Seq<u8>, w: int, h: int, depth: BmpDepth, x: int, y: int, c: int) -> u8 {
    let off = bmp_rows_off(depth) + (h - 1 - y) * row_size(w, depth.spec_bits_per_pixel() as int);
    let masked_alpha: u8 = if bmp_mask_bit(data, w, h, depth, x, y) == 1 {
        0
    } else {
        255
    };
    match depth {
        BmpDepth::One | BmpDepth::Four | BmpDepth::Eight => {
            let k = bmp_color_index(data, w, h, depth, x, y);
            if c == 0 {
                pal_red(data, k)
            } else if c == 1 {
                pal_green(data, k)
            } else if c == 2 {
                pal_blue(data, k)
            } else {
                masked_alpha
            }
        },
        BmpDepth::Sixteen => {
            let v = le16_at(data, off + 2 * x) as int;
            if c == 0 {
                scale5(v / 1024 % 32)
            } else if c == 1 {
                scale5(v / 32 % 32)
            } else if c == 2 {
                scale5(v % 32)
            } else {
                masked_alpha
            }
        },
        BmpDepth::TwentyFour => {
            if c == 0 {
                data[off + 3 * x + 2]
            } else if c == 1 {
                data[off + 3 * x + 1]
            } else if c == 2 {
                data[off + 3 * x]
            } else {
                masked_alpha
            }
        },
        BmpDepth::ThirtyTwo => {
            if c == 0 {
                data[off + 4 * x + 2]
            } else if c == 1 {
                data[off + 4 * x + 1]
            } else if c == 2 {
                data[off + 4 * x]
            } else {
                data[off + 4 * x + 3]
            }
        },
    }
}

/// The full decoded RGBA sequence of a valid bitmap.
pub open spec fn bmp_decoded_rgba(data: Seq<u8>, w: int, h: int, depth: BmpDepth) -> Seq<u8> {
    Seq::new(
        (4 * (w * h)) as nat,
        |i: int| bmp_px_byte(data, w, h, depth, (i / 4) % w, (i / 4) / w, i % 4),
    )
}

// ---------------------------------------------------------------------------
// Encoding
// ---------------------------------------------------------------------------
/// The depth the encoder picks: 32 is forced by alpha values strictly
/// between 0 and 255; otherwise the distinct-color count decides, except
/// that below 512 pixels a 256-entry color table costs more than it saves.
pub open spec fn spec_select_depth(rgba: Seq<u8>) -> BmpDepth {
    if crate::stats::spec_has_nonbinary_alpha(rgba) {
        BmpDepth::ThirtyTwo
    } else {
        let n = crate::stats::spec_colors(rgba).len();
        if n <= 2 {
            BmpDepth::One
        } else if n <= 16 {
            BmpDepth::Four
        } else if n <= 256 {
            if num_px(rgba) < 512 {
                BmpDepth::TwentyFour
            } else {
                BmpDepth::Eight
            }
        } else {
            BmpDepth::TwentyFour
        }
    }
}

/// The one strictly ascending sequence holding exactly the elements of `s`.
pub open spec fn sorted_seq_of(s: Set<u32>) -> Seq<u32> {
    choose|q: Seq<u32>| crate::stats::sorted_strict(q) && q.to_set() == s
}

/// The color table the encoder writes: the distinct colors in ascending
/// packed order at the palettized depths, nothing otherwise.
pub open spec fn spec_bmp_palette(rgba: Seq<u8>) -> Seq<u32> {
    match spec_select_depth(rgba) {
        BmpDepth::One | BmpDepth::Four | BmpDepth::Eight => sorted_seq_of(
            crate::stats::spec_colors(rgba),
        ),
        _ => Seq::empty(),
    }
}

/// Red component of a packed color.
pub open spec fn unpack_r(c: u32) -> u8 {
    ((c / 0x1_0000) % 0x100) as u8
}

/// Green component of a packed color.
pub open spec fn unpack_g(c: u32) -> u8 {
    ((c / 0x100) % 0x100) as u8
}

/// Blue component of a packed color.
pub open spec fn unpack_b(c: u32) -> u8 {
    (c % 0x100) as u8
}

/// The 40-byte header the encoder writes; the height field holds double the
/// logical height, counting the pixel rows and the mask rows together.
pub open spec fn bmp_header_bytes(w: u32, h: u32, bpp: u16) -> Seq<u8> {
    u32_bytes(40) + u32_bytes(w) + u32_bytes((2 * h) as u32) + u16_bytes(1) + u16_bytes(bpp)
        + u32_bytes(0) + u32_bytes(0) + u32_bytes(0) + u32_bytes(0) + u32_bytes(0) + u32_bytes(0)
}

/// The color-table block: 4 bytes (B, G, R, 0) per palette entry, zero
/// filled up to the fixed table size of the depth.
pub open spec fn pal_block(pal: Seq<u32>, ncol: int) -> Seq<u8> {
    Seq::new(
        (4 * ncol) as nat,
        |i: int|
            {
                let k = i / 4;
                let c = i % 4;
                if k < pal.len() {
                    if c == 0 {
                        unpack_b(pal[k])
                    } else if c == 1 {
                        unpack_g(pal[k])
                    } else if c == 2 {
                        unpack_r(pal[k])
                    } else {
                        0u8
                    }
                } else {
                    0u8
                }
            },
    )
}

/// The index the encoder stores for pixel `p`: the position of the pixel's
/// packed color in the color table.
pub open spec fn enc_index(rgba: Seq<u8>, pal: Seq<u32>, p: int) -> int {
    pal.index_of(px_color(rgba, p))
}

/// The palette index stored for pixel `(x, y)`, with 0 beyond the right
/// edge of the image (such slack bits pad the last byte of a row).
pub open spec fn enc_bit_idx(rgba: Seq<u8>, w: int, pal: Seq<u32>, x: int, y: int) -> int {
    if x < w {
        enc_index(rgba, pal, y * w + x)
    } else {
        0
    }
}

/// The mask bit the encoder stores for pixel `(x, y)`: set exactly when the
/// pixel's alpha is 0, and 0 beyond the right edge of the image.
pub open spec fn enc_mask_bit(rgba: Seq<u8>, w: int, x: int, y: int) -> int {
    if x < w {
        if px_alpha(rgba, y * w + x) == 0 {
            1
        } else {
            0
        }
    } else {
        0
    }
}

/// Byte `j` of a depth-1 row: the indices of eight pixels, most significant
/// bit first.
pub open spec fn enc1_byte(rgba: Seq<u8>, w: int, pal: Seq<u32>, y: int, j: int) -> int {
    128 * enc_bit_idx(rgba, w, pal, 8 * j, y) + 64 * enc_bit_idx(rgba, w, pal, 8 * j + 1, y) + 32
        * enc_bit_idx(rgba, w, pal, 8 * j + 2, y) + 16 * enc_bit_idx(rgba, w, pal, 8 * j + 3, y)
        + 8 * enc_bit_idx(rgba, w, pal, 8 * j + 4, y) + 4 * enc_bit_idx(rgba, w, pal, 8 * j + 5, y)
        + 2 * enc_bit_idx(rgba, w, pal, 8 * j + 6, y) + enc_bit_idx(rgba, w, pal, 8 * j + 7, y)
}

/// Byte `j` of a mask row: eight mask bits, most significant bit first.
pub open spec fn mask1_byte(rgba: Seq<u8>, w: int, y: int, j: int) -> int {
    128 * enc_mask_bit(rgba, w, 8 * j, y) + 64 * enc_mask_bit(rgba, w, 8 * j + 1, y) + 32
        * enc_mask_bit(rgba, w, 8 * j + 2, y) + 16 * enc_mask_bit(rgba, w, 8 * j + 3, y) + 8
        * enc_mask_bit(rgba, w, 8 * j + 4, y) + 4 * enc_mask_bit(rgba, w, 8 * j + 5, y) + 2
        * enc_mask_bit(rgba, w, 8 * j + 6, y) + enc_mask_bit(rgba, w, 8 * j + 7, y)
}

/// Byte `j` of the pixel-data part of stored row `r` (bottom-up).
pub open spec fn enc_color_byte(
    rgba: Seq<u8>,
    w: int,
    h: int,
    depth: BmpDepth,
    pal: Seq<u32>,
    r: int,
    j: int,
) -> u8 {
    let y = h - 1 - r;
    if j >= row_data_size(w, depth.spec_bits_per_pixel() as int) {
        0u8
    } else {
        match depth {
            BmpDepth::One => enc1_byte(rgba, w, pal, y, j) as u8,
            BmpDepth::Four => (16 * enc_bit_idx(rgba, w, pal, 2 * j, y) + enc_bit_idx(
                rgba,
                w,
                pal,
                2 * j + 1,
                y,
            )) as u8,
            BmpDepth::Eight => enc_index(rgba, pal, y * w + j) as u8,
            BmpDepth::Sixteen => 0u8,
            BmpDepth::TwentyFour => {
                let x = j / 3;
                let c = j % 3;
                if c == 0 {
                    rgba[4 * (y * w + x) + 2]
                } else if c == 1 {
                    rgba[4 * (y * w + x) + 1]
                } else {
                    rgba[4 * (y * w + x)]
                }
            },
            BmpDepth::ThirtyTwo => {
                let x = j / 4;
                let c = j % 4;
                if c == 0 {
                    rgba[4 * (y * w + x) + 2]
                } else if c == 1 {
                    rgba[4 * (y * w + x) + 1]
                } else if c == 2 {
                    rgba[4 * (y * w + x)]
                } else {
                    rgba[4 * (y * w + x) + 3]
                }
            },
        }
    }
}

/// Byte `j` of stored mask row `r` (bottom-up).
pub open spec fn enc_mask_byte(rgba: Seq<u8>, w: int, h: int, r: int, j: int) -> u8 {
    let y = h - 1 - r;
    if j >= row_data_size(w, 1) {
        0u8
    } else {
        mask1_byte(rgba, w, y, j) as u8
    }
}

/// The pixel-data plane: `h` stored rows, bottom row first.
pub open spec fn enc_color_plane(rgba: Seq<u8>, w: int, h: int, depth: BmpDepth, pal: Seq<u32>) -> Seq<u8> {
    let rs = row_size(w, depth.spec_bits_per_pixel() as int);
    Seq::new((h * rs) as nat, |i: int| enc_color_byte(rgba, w, h, depth, pal, i / rs, i % rs))
}

/// The mask rows of an image: `h` stored rows, bottom row first.
pub open spec fn mask_plane_seq(rgba: Seq<u8>, w: int, h: int) -> Seq<u8> {
    let ms = mask_row_size(w);
    Seq::new((h * ms) as nat, |i: int| enc_mask_byte(rgba, w, h, i / ms, i % ms))
}

/// The mask plane: `h` stored rows, bottom row first; absent at depth 32.
pub open spec fn enc_mask_plane(rgba: Seq<u8>, w: int, h: int, depth: BmpDepth) -> Seq<u8> {
    if depth is ThirtyTwo {
        Seq::empty()
    } else {
        mask_plane_seq(rgba, w, h)
    }
}

/// The bytes the encoder produces for an image at a given depth and color
/// table.
pub open spec fn bmp_encoded(w: u32, h: u32, depth: BmpDepth, pal: Seq<u32>, rgba: Seq<u8>) -> Seq<u8> {
    bmp_header_bytes(w, h, depth.spec_bits_per_pixel()) + pal_block(
        pal,
        depth.spec_num_colors() as int,
    ) + enc_color_plane(rgba, w as int, h as int, depth, pal) + enc_mask_plane(
        rgba,
        w as int,
        h as int,
        depth,
    )
}

// ---------------------------------------------------------------------------
// Shared arithmetic facts and executable helpers
// ---------------------------------------------------------------------------
/// Recovers a row number and a byte offset from a flat plane position.
pub proof fn lemma_row_index(r: int, j: int, rs: int)
    requires
        0 <= r,
        0 <= j < rs,
    ensures
        (r * rs + j) / rs == r,
        (r * rs + j) % rs == j,
{
    vstd::arithmetic::div_mod::lemma_fundamental_div_mod_converse(r * rs + j, rs, r, j);
}

/// A flat position inside row `r` of `h` rows lies inside the whole plane.
pub proof fn lemma_row_bound(r: int, j: int, rs: int, h: int)
    requires
        0 <= j < rs,
        0 <= r < h,
    ensures
        0 <= r * rs + j < h * rs,
        r * rs + rs <= h * rs,
    decreases h,
{
    assert(r * rs + j < h * rs && r * rs + rs <= h * rs) by (nonlinear_arith)
        requires
            0 <= j < rs,
            0 <= r < h,
    ;
    assert(0 <= r * rs) by (nonlinear_arith)
        requires
            0 <= r,
            0 < rs,
    ;
}

/// Row sizes are positive, cover the row's data, and stay within four bytes
/// per pixel at every depth the encoder produces.
pub proof fn lemma_row_size_bounds(w: int, bpp: int)
    requires
        w >= 1,
        bpp == 1 || bpp == 4 || bpp == 8 || bpp == 16 || bpp == 24 || bpp == 32,
    ensures
        0 < row_data_size(w, bpp),
        row_data_size(w, bpp) <= row_size(w, bpp),
        row_size(w, bpp) <= row_data_size(w, bpp) + 3,
        row_size(w, bpp) % 4 == 0,
        row_size(w, bpp) <= 4 * w,
        8 * row_data_size(w, bpp) <= w * bpp + 7,
        w * bpp <= 8 * row_data_size(w, bpp),
        bpp == 8 ==> row_data_size(w, bpp) == w,
        bpp == 16 ==> row_data_size(w, bpp) == 2 * w,
        bpp == 24 ==> row_data_size(w, bpp) == 3 * w,
        bpp == 32 ==> row_data_size(w, bpp) == 4 * w,
{
    let rd = row_data_size(w, bpp);
    if bpp == 8 {
        vstd::arithmetic::div_mod::lemma_fundamental_div_mod_converse(w * 8 + 7, 8, w, 7);
    }
    if bpp == 16 {
        vstd::arithmetic::div_mod::lemma_fundamental_div_mod_converse(w * 16 + 7, 8, 2 * w, 7);
    }
    if bpp == 24 {
        vstd::arithmetic::div_mod::lemma_fundamental_div_mod_converse(w * 24 + 7, 8, 3 * w, 7);
    }
    if bpp == 32 {
        vstd::arithmetic::div_mod::lemma_fundamental_div_mod_converse(w * 32 + 7, 8, 4 * w, 7);
    }
    assert(0 < rd && 8 * rd <= w * bpp + 7 && w * bpp <= 8 * rd) by (nonlinear_arith)
        requires
            w >= 1,
            1 <= bpp,
            rd == (w * bpp + 7) / 8,
    ;
    assert(rd <= padded4(rd) <= rd + 3 && padded4(rd) % 4 == 0) by (nonlinear_arith)
        requires
            rd >= 0,
            padded4(rd) == ((rd + 3) / 4) * 4,
    ;
    assert(row_size(w, bpp) <= 4 * w) by (nonlinear_arith)
        requires
            w >= 1,
            bpp == 1 || bpp == 4 || bpp == 8 || bpp == 16 || bpp == 24 || bpp == 32,
            rd == (w * bpp + 7) / 8,
            rd <= padded4(rd) <= rd + 3,
            row_size(w, bpp) == padded4(rd),
    ;
}

/// Looks a packed color up in a strictly ascending color table.
fn palette_index(pal: &Vec<u32>, color: u32) -> (r: usize)
    requires
        crate::stats::sorted_strict(pal@),
        pal@.to_set().contains(color),
    ensures
        r < pal@.len(),
        pal@[r as int] == color,
        r as int == pal@.index_of(color),
{
    let mut i: usize = 0;
    let ghost w = choose|k: int| 0 <= k < pal@.len() && pal@[k] == color;
    while i < pal.len() && pal[i] != color
        invariant
            0 <= i <= pal@.len(),
            crate::stats::sorted_strict(pal@),
            0 <= w < pal@.len() && pal@[w] == color,
            forall|k: int| 0 <= k < i ==> pal@[k] != color,
        decreases pal@.len() - i,
    {
        i = i + 1;
    }
    proof {
        assert(i < pal@.len());
        let c = pal@.index_of(color);
        assert(pal@[c] == color) by {
            assert(0 <= w < pal@.len() && pal@[w] == color);
        }
        assert(c == i) by {
            if c < i {
                assert(pal@[c] != color);
            }
            if c > i as int {
                assert(pal@[i as int] < pal@[c]);
            }
        }
    }
    i
}

impl crate::image::IconImage {
    /// Decodes just enough of a bitmap header to learn its size: the
    /// header-length field must be 40, the width positive, and the doubled
    /// height field even and positive.
    pub(crate) fn read_bmp_size(data: &[u8]) -> (r: Result<(u32, u32), crate::IcoError>)
        ensures
            match r {
                Ok(wh) => {
                    &&& bmp_size_ok(data@)
                    &&& wh.0 as int == bmp_width(data@)
                    &&& wh.1 as int == bmp_height(data@)
                },
                Err(e) => e == crate::IcoError::MalformedInput && !bmp_size_ok(data@),
            },
    {
        if data.len() < 12 {
            return Err(crate::IcoError::MalformedInput);
        }
        let hdr = crate::bytes::get_u32(data, 0);
        if hdr != 40 {
            return Err(crate::IcoError::MalformedInput);
        }
        let w = crate::bytes::get_u32(data, 4);
        if w < 1 || w > 0x7FFF_FFFF {
            return Err(crate::IcoError::MalformedInput);
        }
        let h2 = crate::bytes::get_u32(data, 8);
        if h2 % 2 != 0 || h2 < 2 || h2 > 0x7FFF_FFFF {
            return Err(crate::IcoError::MalformedInput);
        }
        Ok((w, h2 / 2))
    }
}

// ---------------------------------------------------------------------------
// Executable encoding
// ---------------------------------------------------------------------------
/// Dimensions the encoder handles: exactly 4 bytes per pixel, a width that
/// fits the signed 32-bit header field, and a height whose double does.
pub open spec fn enc_dims(rgba: Seq<u8>, w: int, h: int) -> bool {
    &&& rgba.len() == 4 * (w * h)
    &&& 1 <= w <= 0x7FFF_FFFF
    &&& 1 <= h <= 0x3FFF_FFFF
}

/// A usable color table: strictly ascending and holding every pixel's color.
pub open spec fn enc_pal_ctx(rgba: Seq<u8>, w: int, h: int, pal: Seq<u32>) -> bool {
    &&& crate::stats::sorted_strict(pal)
    &&& pal.len() <= 256
    &&& forall|p: int| 0 <= p < w * h ==> pal.to_set().contains(#[trigger] px_color(rgba, p))
}

/// Extends a plane prefix by one row whose bytes agree with the plane.
pub proof fn lemma_plane_row(plane: Seq<u8>, row: Seq<u8>, rs: int, h: int, r: int)
    requires
        0 < rs,
        0 <= r < h,
        plane.len() == h * rs,
        row.len() == rs,
        forall|j: int| 0 <= j < rs ==> row[j] == plane[r * rs + j],
    ensures
        plane.take((r + 1) * rs) == plane.take(r * rs) + row,
{
    lemma_row_bound(r, rs - 1, rs, h);
    assert((r + 1) * rs == r * rs + rs) by (nonlinear_arith);
    assert(plane.take((r + 1) * rs) =~= plane.take(r * rs) + row);
}

/// The palette index stored for pixel `(x, y)`, or 0 beyond the right edge.
fn bit_idx_at(rgba: &[u8], width: u32, height: u32, pal: &Vec<u32>, x: usize, y: u32) -> (r: u8)
    requires
        enc_dims(rgba@, width as int, height as int),
        enc_pal_ctx(rgba@, width as int, height as int, pal@),
        y < height,
    ensures
        r as int == enc_bit_idx(rgba@, width as int, pal@, x as int, y as int),
        x < width as int ==> (r as int) < pal@.len(),
        x as int >= width as int ==> r == 0,
{
    let len = rgba.len();
    if x < width as usize {
        let ghost wi = width as int;
        let ghost hi = height as int;
        proof {
            assert(0 <= (y as int) * wi && (y as int) * wi + (x as int) < wi * hi)
                by (nonlinear_arith)
                requires
                    0 <= (y as int) < hi,
                    0 <= (x as int) < wi,
            ;
        }
        let p: usize = (y as usize) * (width as usize) + x;
        let red = rgba[4 * p];
        let green = rgba[4 * p + 1];
        let blue = rgba[4 * p + 2];
        let packed: u32 = (red as u32) * 0x1_0000 + (green as u32) * 0x100 + (blue as u32);
        proof {
            assert(packed == px_color(rgba@, p as int));
            assert(pal@.to_set().contains(px_color(rgba@, p as int)));
        }
        let idx = palette_index(pal, packed);
        idx as u8
    } else {
        0
    }
}

/// The mask bit stored for pixel `(x, y)`: 1 exactly when the pixel's alpha
/// is 0, and 0 beyond the right edge.
fn mask_bit_at(rgba: &[u8], width: u32, height: u32, x: usize, y: u32) -> (r: u8)
    requires
        enc_dims(rgba@, width as int, height as int),
        y < height,
    ensures
        r as int == enc_mask_bit(rgba@, width as int, x as int, y as int),
        r <= 1,
{
    let len = rgba.len();
    if x < width as usize {
        let ghost wi = width as int;
        let ghost hi = height as int;
        proof {
            assert(0 <= (y as int) * wi && (y as int) * wi + (x as int) < wi * hi)
                by (nonlinear_arith)
                requires
                    0 <= (y as int) < hi,
                    0 <= (x as int) < wi,
            ;
        }
        let p: usize = (y as usize) * (width as usize) + x;
        let alpha = rgba[4 * p + 3];
        proof {
            assert(alpha == px_alpha(rgba@, p as int));
        }
        if alpha == 0 {
            1
        } else {
            0
        }
    } else {
        0
    }
}

/// Appends the depth-1 pixel plane: bottom-up rows of packed palette bits.
#[verifier::loop_isolation(false)]
fn enc_plane_one(
    out: &mut Vec<u8>,
    rgba: &[u8],
    width: u32,
    height: u32,
    pal: &Vec<u32>,
    rds: usize,
    rs: usize,
)
    requires
        enc_dims(rgba@, width as int, height as int),
        enc_pal_ctx(rgba@, width as int, height as int, pal@),
        pal@.len() <= 2,
        rds as int == row_data_size(width as int, 1),
        rs as int == row_size(width as int, 1),
    ensures
        final(out)@ == old(out)@ + enc_color_plane(
            rgba@,
            width as int,
            height as int,
            BmpDepth::One,
            pal@,
        ),
{
    let ghost g = rgba@;
    let ghost wi = width as int;
    let ghost hi = height as int;
    let ghost plane = enc_color_plane(g, wi, hi, BmpDepth::One, pal@);
    proof {
        lemma_row_size_bounds(wi, 1);
        assert(out@ =~= out@ + plane.take(0));
    }
    let mut r: u32 = 0;
    while r < height
        invariant
            r <= height,
            out@ == old(out)@ + plane.take(r as int * (rs as int)),
        decreases height - r,
    {
        let y: u32 = height - 1 - r;
        let ghost row = Seq::new(
            rs as nat,
            |j: int| enc_color_byte(g, wi, hi, BmpDepth::One, pal@, r as int, j),
        );
        proof {
            assert(out@ =~= old(out)@ + plane.take(r as int * (rs as int)) + row.take(0));
        }
        let mut j: usize = 0;
        while j < rds
            invariant
                j <= rds,
                out@ == old(out)@ + plane.take(r as int * (rs as int)) + row.take(j as int),
            decreases rds - j,
        {
            let x0 = 8 * j;
            let b0 = bit_idx_at(rgba, width, height, pal, x0, y);
            let b1 = bit_idx_at(rgba, width, height, pal, x0 + 1, y);
            let b2 = bit_idx_at(rgba, width, height, pal, x0 + 2, y);
            let b3 = bit_idx_at(rgba, width, height, pal, x0 + 3, y);
            let b4 = bit_idx_at(rgba, width, height, pal, x0 + 4, y);
            let b5 = bit_idx_at(rgba, width, height, pal, x0 + 5, y);
            let b6 = bit_idx_at(rgba, width, height, pal, x0 + 6, y);
            let b7 = bit_idx_at(rgba, width, height, pal, x0 + 7, y);
            let byte: u8 = 128 * b0 + 64 * b1 + 32 * b2 + 16 * b3 + 8 * b4 + 4 * b5 + 2 * b6 + b7;
            out.push(byte);
            proof {
                assert(byte as int == enc1_byte(g, wi, pal@, y as int, j as int));
                assert(row[j as int] == byte);
                assert(out@ =~= old(out)@ + plane.take(r as int * (rs as int)) + row.take(
                    j as int + 1,
                ));
            }
            j = j + 1;
        }
        while j < rs
            invariant
                rds <= j <= rs,
                out@ == old(out)@ + plane.take(r as int * (rs as int)) + row.take(j as int),
            decreases rs - j,
        {
            out.push(0u8);
            proof {
                assert(row[j as int] == 0);
                assert(out@ =~= old(out)@ + plane.take(r as int * (rs as int)) + row.take(
                    j as int + 1,
                ));
            }
            j = j + 1;
        }
        proof {
            assert(row.take(rs as int) =~= row);
            assert forall|j2: int| 0 <= j2 < rs as int implies row[j2] == plane[r as int * (
            rs as int) + j2] by {
                lemma_row_index(r as int, j2, rs as int);
                lemma_row_bound(r as int, j2, rs as int, hi);
            }
            lemma_plane_row(plane, row, rs as int, hi, r as int);
            assert(out@ =~= old(out)@ + plane.take((r as int + 1) * (rs as int)));
        }
        r = r + 1;
    }
    proof {
        assert(plane.take(hi * (rs as int)) =~= plane);
    }
}

/// Appends the depth-4 pixel plane: bottom-up rows of packed nibbles.
#[verifier::loop_isolation(false)]
fn enc_plane_four(
    out: &mut Vec<u8>,
    rgba: &[u8],
    width: u32,
    height: u32,
    pal: &Vec<u32>,
    rds: usize,
    rs: usize,
)
    requires
        enc_dims(rgba@, width as int, height as int),
        enc_pal_ctx(rgba@, width as int, height as int, pal@),
        pal@.len() <= 16,
        rds as int == row_data_size(width as int, 4),
        rs as int == row_size(width as int, 4),
    ensures
        final(out)@ == old(out)@ + enc_color_plane(
            rgba@,
            width as int,
            height as int,
            BmpDepth::Four,
            pal@,
        ),
{
    let ghost g = rgba@;
    let ghost wi = width as int;
    let ghost hi = height as int;
    let ghost plane = enc_color_plane(g, wi, hi, BmpDepth::Four, pal@);
    proof {
        lemma_row_size_bounds(wi, 4);
        assert(out@ =~= out@ + plane.take(0));
    }
    let mut r: u32 = 0;
    while r < height
        invariant
            r <= height,
            out@ == old(out)@ + plane.take(r as int * (rs as int)),
        decreases height - r,
    {
        let y: u32 = height - 1 - r;
        let ghost row = Seq::new(
            rs as nat,
            |j: int| enc_color_byte(g, wi, hi, BmpDepth::Four, pal@, r as int, j),
        );
        proof {
            assert(out@ =~= old(out)@ + plane.take(r as int * (rs as int)) + row.take(0));
        }
        let mut j: usize = 0;
        while j < rds
            invariant
                j <= rds,
                out@ == old(out)@ + plane.take(r as int * (rs as int)) + row.take(j as int),
            decreases rds - j,
        {
            let x0 = 2 * j;
            let hi_n = bit_idx_at(rgba, width, height, pal, x0, y);
            let lo_n = bit_idx_at(rgba, width, height, pal, x0 + 1, y);
            let byte: u8 = 16 * hi_n + lo_n;
            out.push(byte);
            proof {
                assert(row[j as int] == byte);
                assert(out@ =~= old(out)@ + plane.take(r as int * (rs as int)) + row.take(
                    j as int + 1,
                ));
            }
            j = j + 1;
        }
        while j < rs
            invariant
                rds <= j <= rs,
                out@ == old(out)@ + plane.take(r as int * (rs as int)) + row.take(j as int),
            decreases rs - j,
        {
            out.push(0u8);
            proof {
                assert(row[j as int] == 0);
                assert(out@ =~= old(out)@ + plane.take(r as int * (rs as int)) + row.take(
                    j as int + 1,
                ));
            }
            j = j + 1;
        }
        proof {
            assert(row.take(rs as int) =~= row);
            assert forall|j2: int| 0 <= j2 < rs as int implies row[j2] == plane[r as int * (
            rs as int) + j2] by {
                lemma_row_index(r as int, j2, rs as int);
                lemma_row_bound(r as int, j2, rs as int, hi);
            }
            lemma_plane_row(plane, row, rs as int, hi, r as int);
            assert(out@ =~= old(out)@ + plane.take((r as int + 1) * (rs as int)));
        }
        r = r + 1;
    }
    proof {
        assert(plane.take(hi * (rs as int)) =~= plane);
    }
}

/// Appends the depth-8 pixel plane: bottom-up rows of palette indices.
#[verifier::loop_isolation(false)]
fn enc_plane_eight(
    out: &mut Vec<u8>,
    rgba: &[u8],
    width: u32,
    height: u32,
    pal: &Vec<u32>,
    rds: usize,
    rs: usize,
)
    requires
        enc_dims(rgba@, width as int, height as int),
        enc_pal_ctx(rgba@, width as int, height as int, pal@),
        rds as int == row_data_size(width as int, 8),
        rs as int == row_size(width as int, 8),
    ensures
        final(out)@ == old(out)@ + enc_color_plane(
            rgba@,
            width as int,
            height as int,
            BmpDepth::Eight,
            pal@,
        ),
{
    let ghost g = rgba@;
    let ghost wi = width as int;
    let ghost hi = height as int;
    let ghost plane = enc_color_plane(g, wi, hi, BmpDepth::Eight, pal@);
    proof {
        lemma_row_size_bounds(wi, 8);
        assert(out@ =~= out@ + plane.take(0));
    }
    let mut r: u32 = 0;
    while r < height
        invariant
            r <= height,
            out@ == old(out)@ + plane.take(r as int * (rs as int)),
        decreases height - r,
    {
        let y: u32 = height - 1 - r;
        let ghost row = Seq::new(
            rs as nat,
            |j: int| enc_color_byte(g, wi, hi, BmpDepth::Eight, pal@, r as int, j),
        );
        proof {
            assert(out@ =~= old(out)@ + plane.take(r as int * (rs as int)) + row.take(0));
        }
        let mut j: usize = 0;
        while j < rds
            invariant
                j <= rds,
                out@ == old(out)@ + plane.take(r as int * (rs as int)) + row.take(j as int),
            decreases rds - j,
        {
            let byte = bit_idx_at(rgba, width, height, pal, j, y);
            out.push(byte);
            proof {
                assert(row[j as int] == byte);
                assert(out@ =~= old(out)@ + plane.take(r as int * (rs as int)) + row.take(
                    j as int + 1,
                ));
            }
            j = j + 1;
        }
        while j < rs
            invariant
                rds <= j <= rs,
                out@ == old(out)@ + plane.take(r as int * (rs as int)) + row.take(j as int),
            decreases rs - j,
        {
            out.push(0u8);
            proof {
                assert(row[j as int] == 0);
                assert(out@ =~= old(out)@ + plane.take(r as int * (rs as int)) + row.take(
                    j as int + 1,
                ));
            }
            j = j + 1;
        }
        proof {
            assert(row.take(rs as int) =~= row);
            assert forall|j2: int| 0 <= j2 < rs as int implies row[j2] == plane[r as int * (
            rs as int) + j2] by {
                lemma_row_index(r as int, j2, rs as int);
                lemma_row_bound(r as int, j2, rs as int, hi);
            }
            lemma_plane_row(plane, row, rs as int, hi, r as int);
            assert(out@ =~= old(out)@ + plane.take((r as int + 1) * (rs as int)));
        }
        r = r + 1;
    }
    proof {
        assert(plane.take(hi * (rs as int)) =~= plane);
    }
}

/// Appends the mask plane: bottom-up rows of packed transparency bits.
#[verifier::loop_isolation(false)]
fn enc_plane_mask(out: &mut Vec<u8>, rgba: &[u8], width: u32, height: u32, rds: usize, rs: usize)
    requires
        enc_dims(rgba@, width as int, height as int),
        rds as int == row_data_size(width as int, 1),
        rs as int == mask_row_size(width as int),
    ensures
        final(out)@ == old(out)@ + mask_plane_seq(rgba@, width as int, height as int),
{
    let ghost g = rgba@;
    let ghost wi = width as int;
    let ghost hi = height as int;
    let ghost plane = mask_plane_seq(g, wi, hi);
    proof {
        lemma_row_size_bounds(wi, 1);
        assert(out@ =~= out@ + plane.take(0));
    }
    let mut r: u32 = 0;
    while r < height
        invariant
            r <= height,
            out@ == old(out)@ + plane.take(r as int * (rs as int)),
        decreases height - r,
    {
        let y: u32 = height - 1 - r;
        let ghost row = Seq::new(rs as nat, |j: int| enc_mask_byte(g, wi, hi, r as int, j));
        proof {
            assert(out@ =~= old(out)@ + plane.take(r as int * (rs as int)) + row.take(0));
        }
        let mut j: usize = 0;
        while j < rds
            invariant
                j <= rds,
                out@ == old(out)@ + plane.take(r as int * (rs as int)) + row.take(j as int),
            decreases rds - j,
        {
            let x0 = 8 * j;
            let b0 = mask_bit_at(rgba, width, height, x0, y);
            let b1 = mask_bit_at(rgba, width, height, x0 + 1, y);
            let b2 = mask_bit_at(rgba, width, height, x0 + 2, y);
            let b3 = mask_bit_at(rgba, width, height, x0 + 3, y);
            let b4 = mask_bit_at(rgba, width, height, x0 + 4, y);
            let b5 = mask_bit_at(rgba, width, height, x0 + 5, y);
            let b6 = mask_bit_at(rgba, width, height, x0 + 6, y);
            let b7 = mask_bit_at(rgba, width, height, x0 + 7, y);
            let byte: u8 = 128 * b0 + 64 * b1 + 32 * b2 + 16 * b3 + 8 * b4 + 4 * b5 + 2 * b6 + b7;
            out.push(byte);
            proof {
                assert(byte as int == mask1_byte(g, wi, y as int, j as int));
                assert(row[j as int] == byte);
                assert(out@ =~= old(out)@ + plane.take(r as int * (rs as int)) + row.take(
                    j as int + 1,
                ));
            }
            j = j + 1;
        }
        while j < rs
            invariant
                rds <= j <= rs,
                out@ == old(out)@ + plane.take(r as int * (rs as int)) + row.take(j as int),
            decreases rs - j,
        {
            out.push(0u8);
            proof {
                assert(row[j as int] == 0);
                assert(out@ =~= old(out)@ + plane.take(r as int * (rs as int)) + row.take(
                    j as int + 1,
                ));
            }
            j = j + 1;
        }
        proof {
            assert(row.take(rs as int) =~= row);
            assert forall|j2: int| 0 <= j2 < rs as int implies row[j2] == plane[r as int * (
            rs as int) + j2] by {
                lemma_row_index(r as int, j2, rs as int);
                lemma_row_bound(r as int, j2, rs as int, hi);
            }
            lemma_plane_row(plane, row, rs as int, hi, r as int);
            assert(out@ =~= old(out)@ + plane.take((r as int + 1) * (rs as int)));
        }
        r = r + 1;
    }
    proof {
        assert(plane.take(hi * (rs as int)) =~= plane);
    }
}

/// Appends the depth-24 pixel plane: bottom-up rows of B, G, R bytes.
#[verifier::loop_isolation(false)]
fn enc_plane_rgb(out: &mut Vec<u8>, rgba: &[u8], width: u32, height: u32, rds: usize, rs: usize)
    requires
        enc_dims(rgba@, width as int, height as int),
        rds as int == row_data_size(width as int, 24),
        rs as int == row_size(width as int, 24),
    ensures
        final(out)@ == old(out)@ + enc_color_plane(
            rgba@,
            width as int,
            height as int,
            BmpDepth::TwentyFour,
            Seq::empty(),
        ),
{
    let ghost g = rgba@;
    let ghost wi = width as int;
    let ghost hi = height as int;
    let ghost plane = enc_color_plane(g, wi, hi, BmpDepth::TwentyFour, Seq::empty());
    let len = rgba.len();
    proof {
        lemma_row_size_bounds(wi, 24);
        assert(out@ =~= out@ + plane.take(0));
    }
    let mut r: u32 = 0;
    while r < height
        invariant
            r <= height,
            out@ == old(out)@ + plane.take(r as int * (rs as int)),
        decreases height - r,
    {
        let y: u32 = height - 1 - r;
        let ghost row = Seq::new(
            rs as nat,
            |j: int| enc_color_byte(g, wi, hi, BmpDepth::TwentyFour, Seq::empty(), r as int, j),
        );
        proof {
            assert(out@ =~= old(out)@ + plane.take(r as int * (rs as int)) + row.take(0));
        }
        let mut x: u32 = 0;
        while x < width
            invariant
                x <= width,
                out@ == old(out)@ + plane.take(r as int * (rs as int)) + row.take(
                    3 * (x as int),
                ),
            decreases width - x,
        {
            proof {
                assert(0 <= (y as int) * wi && (y as int) * wi + (x as int) < wi * hi)
                    by (nonlinear_arith)
                    requires
                        0 <= (y as int) < hi,
                        0 <= (x as int) < wi,
                ;
            }
            let p: usize = (y as usize) * (width as usize) + (x as usize);
            let red = rgba[4 * p];
            let green = rgba[4 * p + 1];
            let blue = rgba[4 * p + 2];
            out.push(blue);
            out.push(green);
            out.push(red);
            proof {
                let jb = 3 * (x as int);
                vstd::arithmetic::div_mod::lemma_fundamental_div_mod_converse(jb, 3, x as int, 0);
                vstd::arithmetic::div_mod::lemma_fundamental_div_mod_converse(
                    jb + 1,
                    3,
                    x as int,
                    1,
                );
                vstd::arithmetic::div_mod::lemma_fundamental_div_mod_converse(
                    jb + 2,
                    3,
                    x as int,
                    2,
                );
                assert(row[jb] == blue && row[jb + 1] == green && row[jb + 2] == red);
                assert(out@ =~= old(out)@ + plane.take(r as int * (rs as int)) + row.take(jb + 3));
            }
            x = x + 1;
        }
        let mut j: usize = 3 * (width as usize);
        while j < rs
            invariant
                rds <= j <= rs,
                out@ == old(out)@ + plane.take(r as int * (rs as int)) + row.take(j as int),
            decreases rs - j,
        {
            out.push(0u8);
            proof {
                assert(row[j as int] == 0);
                assert(out@ =~= old(out)@ + plane.take(r as int * (rs as int)) + row.take(
                    j as int + 1,
                ));
            }
            j = j + 1;
        }
        proof {
            assert(row.take(rs as int) =~= row);
            assert forall|j2: int| 0 <= j2 < rs as int implies row[j2] == plane[r as int * (
            rs as int) + j2] by {
                lemma_row_index(r as int, j2, rs as int);
                lemma_row_bound(r as int, j2, rs as int, hi);
            }
            lemma_plane_row(plane, row, rs as int, hi, r as int);
            assert(out@ =~= old(out)@ + plane.take((r as int + 1) * (rs as int)));
        }
        r = r + 1;
    }
    proof {
        assert(plane.take(hi * (rs as int)) =~= plane);
    }
}

/// Appends the depth-32 pixel plane: bottom-up rows of B, G, R, A bytes.
#[verifier::loop_isolation(false)]
fn enc_plane_rgba(out: &mut Vec<u8>, rgba: &[u8], width: u32, height: u32, rds: usize, rs: usize)
    requires
        enc_dims(rgba@, width as int, height as int),
        rds as int == row_data_size(width as int, 32),
        rs as int == row_size(width as int, 32),
    ensures
        final(out)@ == old(out)@ + enc_color_plane(
            rgba@,
            width as int,
            height as int,
            BmpDepth::ThirtyTwo,
            Seq::empty(),
        ),
{
    let ghost g = rgba@;
    let ghost wi = width as int;
    let ghost hi = height as int;
    let ghost plane = enc_color_plane(g, wi, hi, BmpDepth::ThirtyTwo, Seq::empty());
    let len = rgba.len();
    proof {
        lemma_row_size_bounds(wi, 32);
        assert(out@ =~= out@ + plane.take(0));
    }
    let mut r: u32 = 0;
    while r < height
        invariant
            r <= height,
            out@ == old(out)@ + plane.take(r as int * (rs as int)),
        decreases height - r,
    {
        let y: u32 = height - 1 - r;
        let ghost row = Seq::new(
            rs as nat,
            |j: int| enc_color_byte(g, wi, hi, BmpDepth::ThirtyTwo, Seq::empty(), r as int, j),
        );
        proof {
            assert(out@ =~= old(out)@ + plane.take(r as int * (rs as int)) + row.take(0));
        }
        let mut x: u32 = 0;
        while x < width
            invariant
                x <= width,
                out@ == old(out)@ + plane.take(r as int * (rs as int)) + row.take(
                    4 * (x as int),
                ),
            decreases width - x,
        {
            proof {
                assert(0 <= (y as int) * wi && (y as int) * wi + (x as int) < wi * hi)
                    by (nonlinear_arith)
                    requires
                        0 <= (y as int) < hi,
                        0 <= (x as int) < wi,
                ;
            }
            let p: usize = (y as usize) * (width as usize) + (x as usize);
            let red = rgba[4 * p];
            let green = rgba[4 * p + 1];
            let blue = rgba[4 * p + 2];
            let alpha = rgba[4 * p + 3];
            out.push(blue);
            out.push(green);
            out.push(red);
            out.push(alpha);
            proof {
                let jb = 4 * (x as int);
                vstd::arithmetic::div_mod::lemma_fundamental_div_mod_converse(jb, 4, x as int, 0);
                vstd::arithmetic::div_mod::lemma_fundamental_div_mod_converse(
                    jb + 1,
                    4,
                    x as int,
                    1,
                );
                vstd::arithmetic::div_mod::lemma_fundamental_div_mod_converse(
                    jb + 2,
                    4,
                    x as int,
                    2,
                );
                vstd::arithmetic::div_mod::lemma_fundamental_div_mod_converse(
                    jb + 3,
                    4,
                    x as int,
                    3,
                );
                assert(row[jb] == blue && row[jb + 1] == green && row[jb + 2] == red && row[jb + 3]
                    == alpha);
                assert(out@ =~= old(out)@ + plane.take(r as int * (rs as int)) + row.take(jb + 4));
            }
            x = x + 1;
        }
        proof {
            assert(rds == rs);
            assert(row.take(rs as int) =~= row);
            assert forall|j2: int| 0 <= j2 < rs as int implies row[j2] == plane[r as int * (
            rs as int) + j2] by {
                lemma_row_index(r as int, j2, rs as int);
                lemma_row_bound(r as int, j2, rs as int, hi);
            }
            lemma_plane_row(plane, row, rs as int, hi, r as int);
            assert(out@ =~= old(out)@ + plane.take((r as int + 1) * (rs as int)));
        }
        r = r + 1;
    }
    proof {
        assert(plane.take(hi * (rs as int)) =~= plane);
    }
}

/// Appends the color table: one B, G, R, 0 group per palette entry, zero
/// filled up to `ncol` entries.
#[verifier::loop_isolation(false)]
fn enc_pal_block(out: &mut Vec<u8>, pal: &Vec<u32>, ncol: usize)
    requires
        pal@.len() <= ncol <= 256,
    ensures
        final(out)@ == old(out)@ + pal_block(pal@, ncol as int),
{
    let ghost block = pal_block(pal@, ncol as int);
    proof {
        assert(out@ =~= out@ + block.take(0));
    }
    let mut k: usize = 0;
    while k < pal.len()
        invariant
            k <= pal@.len(),
            out@ == old(out)@ + block.take(4 * (k as int)),
        decreases pal@.len() - k,
    {
        let c = pal[k];
        out.push((c % 0x100) as u8);
        out.push(((c / 0x100) % 0x100) as u8);
        out.push(((c / 0x1_0000) % 0x100) as u8);
        out.push(0u8);
        proof {
            let kb = 4 * (k as int);
            vstd::arithmetic::div_mod::lemma_fundamental_div_mod_converse(kb, 4, k as int, 0);
            vstd::arithmetic::div_mod::lemma_fundamental_div_mod_converse(kb + 1, 4, k as int, 1);
            vstd::arithmetic::div_mod::lemma_fundamental_div_mod_converse(kb + 2, 4, k as int, 2);
            vstd::arithmetic::div_mod::lemma_fundamental_div_mod_converse(kb + 3, 4, k as int, 3);
            assert(block[kb] == unpack_b(pal@[k as int]));
            assert(block[kb + 1] == unpack_g(pal@[k as int]));
            assert(block[kb + 2] == unpack_r(pal@[k as int]));
            assert(block[kb + 3] == 0);
            assert(out@ =~= old(out)@ + block.take(kb + 4));
        }
        k = k + 1;
    }
    while k < ncol
        invariant
            pal@.len() <= k <= ncol,
            out@ == old(out)@ + block.take(4 * (k as int)),
        decreases ncol - k,
    {
        let ghost kb = 4 * (k as int);
        out.push(0u8);
        out.push(0u8);
        out.push(0u8);
        out.push(0u8);
        proof {
            vstd::arithmetic::div_mod::lemma_fundamental_div_mod_converse(kb, 4, k as int, 0);
            vstd::arithmetic::div_mod::lemma_fundamental_div_mod_converse(kb + 1, 4, k as int, 1);
            vstd::arithmetic::div_mod::lemma_fundamental_div_mod_converse(kb + 2, 4, k as int, 2);
            vstd::arithmetic::div_mod::lemma_fundamental_div_mod_converse(kb + 3, 4, k as int, 3);
            assert(block[kb] == 0 && block[kb + 1] == 0 && block[kb + 2] == 0 && block[kb + 3]
                == 0);
            assert(out@ =~= old(out)@ + block.take(kb + 4));
        }
        k = k + 1;
    }
    proof {
        assert(block.take(4 * (ncol as int)) =~= block);
    }
}

impl crate::image::IconImage {
    /// Encodes the raster as a legacy bitmap and returns the color-table
    /// size as stored in a directory record (256 wraps to 0), the chosen
    /// bits-per-pixel, and the encoded bytes.
    pub(crate) fn write_bmp_internal(&self, stats: &crate::stats::ImageStats) -> (r: (
        u8,
        u16,
        Vec<u8>,
    ))
        requires
            stats.describes(self@.rgba),
            self@.width <= 0x7FFF_FFFF,
            self@.height <= 0x3FFF_FFFF,
        ensures
            ({
                let depth = spec_select_depth(self@.rgba);
                &&& r.1 == depth.spec_bits_per_pixel()
                &&& r.0 as int == (depth.spec_num_colors() as int) % 256
                &&& r.2@ == bmp_encoded(
                    self@.width,
                    self@.height,
                    depth,
                    spec_bmp_palette(self@.rgba),
                    self@.rgba,
                )
            }),
    {
        proof {
            use_type_invariant(self);
        }
        let width = self.width();
        let height = self.height();
        let rgba = self.rgba_data();
        let glen = rgba.len();
        let ghost g = self@.rgba;
        let ghost wi = width as int;
        let ghost hi = height as int;
        proof {
            assert(g.len() == 4 * (wi * hi)) by {
                vstd::arithmetic::mul::lemma_mul_is_associative(4, wi, hi);
            }
            vstd::arithmetic::div_mod::lemma_div_multiples_vanish(wi * hi, 4);
            assert(num_px(g) == wi * hi);
            assert forall|p: int| 0 <= p < wi * hi implies crate::stats::spec_colors(g).contains(
                #[trigger] px_color(g, p),
            ) by {
                crate::stats::lemma_colors_upto_contains(g, num_px(g), p);
            }
        }
        let ghost depth_s = spec_select_depth(g);
        let px64: u64 = (width as u64) * (height as u64);
        let empty_pal: Vec<u32> = Vec::new();
        let (depth, pal): (BmpDepth, &Vec<u32>) = if stats.has_nonbinary_alpha {
            (BmpDepth::ThirtyTwo, &empty_pal)
        } else {
            match &stats.colors {
                Some(v) => {
                    proof {
                        crate::stats::lemma_sorted_strict_no_duplicates(v@);
                        v@.unique_seq_to_set();
                    }
                    if v.len() <= 2 {
                        (BmpDepth::One, v)
                    } else if v.len() <= 16 {
                        (BmpDepth::Four, v)
                    } else if px64 < 512 {
                        (BmpDepth::TwentyFour, &empty_pal)
                    } else {
                        (BmpDepth::Eight, v)
                    }
                },
                None => (BmpDepth::TwentyFour, &empty_pal),
            }
        };
        proof {
            assert(depth == depth_s);
            match depth {
                BmpDepth::One | BmpDepth::Four | BmpDepth::Eight => {
                    let q = sorted_seq_of(crate::stats::spec_colors(g));
                    assert(crate::stats::sorted_strict(pal@) && pal@.to_set()
                        == crate::stats::spec_colors(g));
                    assert(crate::stats::sorted_strict(q) && q.to_set()
                        == crate::stats::spec_colors(g));
                    crate::stats::lemma_sorted_strict_equal(q, pal@);
                    assert(pal@ == spec_bmp_palette(g));
                },
                _ => {
                    assert(pal@ =~= spec_bmp_palette(g));
                },
            }
        }
        let bpp: u16 = depth.bits_per_pixel();
        let ncol: usize = depth.num_colors();
        proof {
            assert((width as int) * (bpp as int) <= 0xFFFF_FFFF * 64) by (nonlinear_arith)
                requires
                    width <= 0xFFFF_FFFF,
                    bpp <= 64,
            ;
        }
        let rds64: u64 = ((width as u64) * (bpp as u64) + 7) / 8;
        let rs64: u64 = ((rds64 + 3) / 4) * 4;
        let mrds64: u64 = ((width as u64) + 7) / 8;
        let mrs64: u64 = ((mrds64 + 3) / 4) * 4;
        proof {
            lemma_row_size_bounds(wi, bpp as int);
            lemma_row_size_bounds(wi, 1);
            assert(4 * wi <= usize::MAX) by (nonlinear_arith)
                requires
                    g.len() == 4 * (wi * hi),
                    1 <= hi,
                    1 <= wi,
                    g.len() <= usize::MAX,
            ;
            assert(rds64 as int == row_data_size(wi, bpp as int));
            assert(rs64 as int == row_size(wi, bpp as int));
            assert(mrds64 as int == row_data_size(wi, 1));
            assert(mrs64 as int == mask_row_size(wi));
        }
        let rds: usize = rds64 as usize;
        let rs: usize = rs64 as usize;
        let mrds: usize = mrds64 as usize;
        let mrs: usize = mrs64 as usize;
        let mut data: Vec<u8> = Vec::new();
        crate::bytes::put_u32(&mut data, 40);
        crate::bytes::put_u32(&mut data, width);
        crate::bytes::put_u32(&mut data, 2 * height);
        crate::bytes::put_u16(&mut data, 1);
        crate::bytes::put_u16(&mut data, bpp);
        crate::bytes::put_u32(&mut data, 0);
        crate::bytes::put_u32(&mut data, 0);
        crate::bytes::put_u32(&mut data, 0);
        crate::bytes::put_u32(&mut data, 0);
        crate::bytes::put_u32(&mut data, 0);
        crate::bytes::put_u32(&mut data, 0);
        let ghost hdr = bmp_header_bytes(width, height, depth.spec_bits_per_pixel());
        proof {
            assert(data@ =~= hdr);
        }
        enc_pal_block(&mut data, pal, ncol);
        match depth {
            BmpDepth::One => enc_plane_one(&mut data, rgba, width, height, pal, rds, rs),
            BmpDepth::Four => enc_plane_four(&mut data, rgba, width, height, pal, rds, rs),
            BmpDepth::Eight => enc_plane_eight(&mut data, rgba, width, height, pal, rds, rs),
            BmpDepth::Sixteen => {
                proof {
                    assert(false);
                }
            },
            BmpDepth::TwentyFour => enc_plane_rgb(&mut data, rgba, width, height, rds, rs),
            BmpDepth::ThirtyTwo => enc_plane_rgba(&mut data, rgba, width, height, rds, rs),
        }
        if !matches!(depth, BmpDepth::ThirtyTwo) {
            enc_plane_mask(&mut data, rgba, width, height, mrds, mrs);
        }
        proof {
            assert(pal@ == spec_bmp_palette(g));
            assert(data@ =~= bmp_encoded(width, height, depth, spec_bmp_palette(g), g));
        }
        let nb: u8 = (ncol % 256) as u8;
        (nb, bpp, data)
    }
}

/// The divisor that brings bit `k` of a byte into the lowest position.
fn msb_weight_at(k: usize) -> (r: u8)
    requires
        k < 8,
    ensures
        r == msb_weight(k as int),
{
    match k {
        0 => 128,
        1 => 64,
        2 => 32,
        3 => 16,
        4 => 8,
        5 => 4,
        6 => 2,
        _ => 1,
    }
}

/// Decodes one pixel of a valid bitmap: the stored color bytes, plus the
/// alpha that the mask plane (or, at depth 32, the pixel itself) gives.
#[verifier::loop_isolation(false)]
#[verifier::rlimit(60)]
fn dec_px_at(
    data: &[u8],
    width: u32,
    height: u32,
    depth: BmpDepth,
    rows_off: usize,
    rs: usize,
    mrs: usize,
    mask_off: usize,
    x: u32,
    y: u32,
) -> (r: (u8, u8, u8, u8))
    requires
        bmp_ok(data@),
        bmp_depth_of(data@) == Some(depth),
        width as int == bmp_width(data@),
        height as int == bmp_height(data@),
        rows_off as int == bmp_rows_off(depth),
        rs as int == row_size(width as int, depth.spec_bits_per_pixel() as int),
        mrs as int == mask_row_size(width as int),
        mask_off as int == bmp_rows_off(depth) + (height as int) * (rs as int),
        x < width,
        y < height,
    ensures
        r.0 == bmp_px_byte(data@, width as int, height as int, depth, x as int, y as int, 0),
        r.1 == bmp_px_byte(data@, width as int, height as int, depth, x as int, y as int, 1),
        r.2 == bmp_px_byte(data@, width as int, height as int, depth, x as int, y as int, 2),
        r.3 == bmp_px_byte(data@, width as int, height as int, depth, x as int, y as int, 3),
{
    let len = data.len();
    let ghost wi = width as int;
    let ghost hi = height as int;
    let ghost bppi = depth.spec_bits_per_pixel() as int;
    let r_i: usize = ((height - 1) - y) as usize;
    proof {
        lemma_row_size_bounds(wi, bppi);
        lemma_row_size_bounds(wi, 1);
        assert((r_i as int) * (rs as int) + (rs as int) <= hi * (rs as int) && 0 <= (r_i as int) * (
        rs as int)) by (nonlinear_arith)
            requires
                0 <= (r_i as int) < hi,
                0 < rs as int,
        ;
        assert((r_i as int) * (mrs as int) + (mrs as int) <= hi * (mrs as int) && 0 <= (
        r_i as int) * (mrs as int)) by (nonlinear_arith)
            requires
                0 <= (r_i as int) < hi,
                0 < mrs as int,
        ;
        assert((x as int) / 8 < row_data_size(wi, 1)) by (nonlinear_arith)
            requires
                0 <= (x as int) < wi,
                wi <= 8 * row_data_size(wi, 1),
        ;
        if depth is One {
            assert((x as int) / 8 < row_data_size(wi, 1));
        }
        if depth is Four {
            assert((x as int) / 2 < row_data_size(wi, 4)) by (nonlinear_arith)
                requires
                    0 <= (x as int) < wi,
                    4 * wi <= 8 * row_data_size(wi, 4),
            ;
        }
    }
    let rowbase: usize = rows_off + r_i * rs;
    let (rv, gv, bv): (u8, u8, u8) = match depth {
        BmpDepth::One => {
            let byte = data[rowbase + (x as usize) / 8];
            let wt = msb_weight_at((x as usize) % 8);
            let idx: usize = ((byte / wt) % 2) as usize;
            proof {
                assert(idx as int == bmp_color_index(data@, wi, hi, depth, x as int, y as int));
            }
            (data[40 + 4 * idx + 2], data[40 + 4 * idx + 1], data[40 + 4 * idx])
        },
        BmpDepth::Four => {
            let byte = data[rowbase + (x as usize) / 2];
            let idx: usize = if x % 2 == 0 {
                (byte / 16) as usize
            } else {
                (byte % 16) as usize
            };
            proof {
                assert(idx as int == bmp_color_index(data@, wi, hi, depth, x as int, y as int));
            }
            (data[40 + 4 * idx + 2], data[40 + 4 * idx + 1], data[40 + 4 * idx])
        },
        BmpDepth::Eight => {
            let idx: usize = data[rowbase + (x as usize)] as usize;
            proof {
                assert(idx as int == bmp_color_index(data@, wi, hi, depth, x as int, y as int));
            }
            (data[40 + 4 * idx + 2], data[40 + 4 * idx + 1], data[40 + 4 * idx])
        },
        BmpDepth::Sixteen => {
            let v = crate::bytes::get_u16(data, rowbase + 2 * (x as usize));
            let r5: u16 = (v / 1024) % 32;
            let g5: u16 = (v / 32) % 32;
            let b5: u16 = v % 32;
            (
                (((r5 as u32) * 255 + 15) / 31) as u8,
                (((g5 as u32) * 255 + 15) / 31) as u8,
                (((b5 as u32) * 255 + 15) / 31) as u8,
            )
        },
        BmpDepth::TwentyFour => {
            let base = rowbase + 3 * (x as usize);
            (data[base + 2], data[base + 1], data[base])
        },
        BmpDepth::ThirtyTwo => {
            let base = rowbase + 4 * (x as usize);
            (data[base + 2], data[base + 1], data[base])
        },
    };
    let av: u8 = if matches!(depth, BmpDepth::ThirtyTwo) {
        data[rowbase + 4 * (x as usize) + 3]
    } else {
        let mbyte = data[mask_off + r_i * mrs + (x as usize) / 8];
        let wt = msb_weight_at((x as usize) % 8);
        if (mbyte / wt) % 2 == 1 {
            0
        } else {
            255
        }
    };
    (rv, gv, bv, av)
}

impl crate::image::IconImage {
    /// Decodes a legacy bitmap: header, color table, bottom-up pixel rows,
    /// and, at every depth except 32, the 1-bit mask plane that forces
    /// pixels transparent.
    #[verifier::loop_isolation(false)]
    #[verifier::rlimit(60)]
    pub(crate) fn read_bmp(data: &[u8]) -> (r: Result<Self, crate::IcoError>)
        ensures
            match r {
                Ok(img) => bmp_ok(data@) && {
                    let w = bmp_width(data@);
                    let h = bmp_height(data@);
                    let depth = bmp_depth_of(data@)->Some_0;
                    &&& img@.width as int == w
                    &&& img@.height as int == h
                    &&& img@.hotspot is None
                    &&& img@.rgba == bmp_decoded_rgba(data@, w, h, depth)
                },
                Err(e) => e == crate::IcoError::MalformedInput && !bmp_ok(data@),
            },
    {
        let len = data.len();
        if len < 40 {
            return Err(crate::IcoError::MalformedInput);
        }
        let (width, height) = match Self::read_bmp_size(data) {
            Ok(wh) => wh,
            Err(e) => {
                return Err(e);
            },
        };
        let bpp_raw = crate::bytes::get_u16(data, 14);
        let depth = match BmpDepth::from_bits_per_pixel(bpp_raw) {
            Some(depth) => depth,
            None => {
                return Err(crate::IcoError::MalformedInput);
            },
        };
        let ghost wi = width as int;
        let ghost hi = height as int;
        proof {
            assert(wi * hi <= 0xFFFF_FFFF * 0xFFFF_FFFF && wi * 64 <= 0xFFFF_FFFF * 64)
                by (nonlinear_arith)
                requires
                    0 <= wi <= 0xFFFF_FFFF,
                    0 <= hi <= 0xFFFF_FFFF,
            ;
        }
        let px64: u64 = (width as u64) * (height as u64);
        if px64 > 0xFFFF_FFFF {
            return Err(crate::IcoError::MalformedInput);
        }
        if 4 * px64 > usize::MAX as u64 {
            return Err(crate::IcoError::MalformedInput);
        }
        let bpp: u16 = depth.bits_per_pixel();
        let ncol: usize = depth.num_colors();
        proof {
            assert((width as int) * (bpp as int) <= 0xFFFF_FFFF * 64) by (nonlinear_arith)
                requires
                    width <= 0xFFFF_FFFF,
                    bpp <= 64,
            ;
        }
        let rds64: u64 = ((width as u64) * (bpp as u64) + 7) / 8;
        let rs64: u64 = ((rds64 + 3) / 4) * 4;
        let mrds64: u64 = ((width as u64) + 7) / 8;
        let mrs64: u64 = ((mrds64 + 3) / 4) * 4;
        proof {
            lemma_row_size_bounds(wi, bpp as int);
            lemma_row_size_bounds(wi, 1);
            assert(rds64 as int == row_data_size(wi, bpp as int));
            assert(rs64 as int == row_size(wi, bpp as int));
            assert(mrds64 as int == row_data_size(wi, 1));
            assert(mrs64 as int == mask_row_size(wi));
            assert((hi * (rs64 as int)) <= 4 * (wi * hi) && (hi * (mrs64 as int)) <= 4 * (wi * hi))
                by (nonlinear_arith)
                requires
                    rs64 as int <= 4 * wi,
                    mrs64 as int <= 4 * wi,
                    0 < hi,
                    0 < wi,
            ;
        }
        let h64: u64 = height as u64;
        let needed64: u64 = 40 + 4 * (ncol as u64) + h64 * rs64 + if matches!(
            depth,
            BmpDepth::ThirtyTwo,
        ) {
            0
        } else {
            h64 * mrs64
        };
        if needed64 > len as u64 {
            return Err(crate::IcoError::MalformedInput);
        }
        proof {
            assert(needed64 as int == bmp_total_size(wi, hi, depth));
            assert(bmp_ok(data@));
            assert(4 * wi <= 4 * (wi * hi)) by (nonlinear_arith)
                requires
                    1 <= hi,
                    1 <= wi,
            ;
        }
        let rows_off: usize = 40 + 4 * ncol;
        let rs: usize = rs64 as usize;
        let mrs: usize = mrs64 as usize;
        let mask_off: usize = rows_off + (height as usize) * rs;
        let ghost dec = bmp_decoded_rgba(data@, wi, hi, depth);
        let mut rgba: Vec<u8> = Vec::new();
        proof {
            assert(rgba@ =~= dec.take(0));
        }
        let mut y: u32 = 0;
        while y < height
            invariant
                y <= height,
                rgba@ == dec.take(4 * ((y as int) * wi)),
            decreases height - y,
        {
            let mut x: u32 = 0;
            proof {
                assert(0 <= (y as int) * wi && (y as int + 1) * wi <= wi * hi) by (nonlinear_arith)
                    requires
                        0 <= (y as int) < hi,
                        0 < wi,
                ;
            }
            while x < width
                invariant
                    x <= width,
                    rgba@ == dec.take(4 * ((y as int) * wi + (x as int))),
                decreases width - x,
            {
                let ghost p = (y as int) * wi + (x as int);
                proof {
                    vstd::arithmetic::div_mod::lemma_fundamental_div_mod_converse(4 * p, 4, p, 0);
                    vstd::arithmetic::div_mod::lemma_fundamental_div_mod_converse(
                        4 * p + 1,
                        4,
                        p,
                        1,
                    );
                    vstd::arithmetic::div_mod::lemma_fundamental_div_mod_converse(
                        4 * p + 2,
                        4,
                        p,
                        2,
                    );
                    vstd::arithmetic::div_mod::lemma_fundamental_div_mod_converse(
                        4 * p + 3,
                        4,
                        p,
                        3,
                    );
                    vstd::arithmetic::div_mod::lemma_fundamental_div_mod_converse(
                        p,
                        wi,
                        y as int,
                        x as int,
                    );
                    assert(p < wi * hi && 4 * p + 4 <= 4 * (wi * hi)) by (nonlinear_arith)
                        requires
                            0 <= (y as int) < hi,
                            0 <= (x as int) < wi,
                            p == (y as int) * wi + (x as int),
                    ;
                }
                let px = dec_px_at(data, width, height, depth, rows_off, rs, mrs, mask_off, x, y);
                rgba.push(px.0);
                rgba.push(px.1);
                rgba.push(px.2);
                rgba.push(px.3);
                proof {
                    assert(px.0 == dec[4 * p] && px.1 == dec[4 * p + 1] && px.2 == dec[4 * p + 2]
                        && px.3 == dec[4 * p + 3]);
                    assert(rgba@ =~= dec.take(4 * p + 4));
                }
                x = x + 1;
            }
            proof {
                assert((y as int + 1) * wi == (y as int) * wi + wi) by (nonlinear_arith);
            }
            y = y + 1;
        }
        proof {
            assert(hi * wi == wi * hi) by (nonlinear_arith);
            assert(rgba@ =~= dec);
            assert(rgba@.len() == 4 * (wi * hi));
            assert(4 * wi * hi == 4 * (wi * hi)) by (nonlinear_arith);
        }
        Ok(Self::from_rgba_data(width, height, rgba))
    }
}


// ---------------------------------------------------------------------------
// The encode/decode round trip
// ---------------------------------------------------------------------------
/// Unpacking a packed color gives back its three channels.
proof fn lemma_unpack_pack(r: u8, g: u8, b: u8)
    ensures
        unpack_r((r * 0x1_0000 + g * 0x100 + b) as u32) == r,
        unpack_g((r * 0x1_0000 + g * 0x100 + b) as u32) == g,
        unpack_b((r * 0x1_0000 + g * 0x100 + b) as u32) == b,
{
    let c = (r * 0x1_0000 + g * 0x100 + b) as u32;
    vstd::arithmetic::div_mod::lemma_fundamental_div_mod_converse(
        c as int,
        0x1_0000,
        r as int,
        g as int * 0x100 + b as int,
    );
    vstd::arithmetic::div_mod::lemma_fundamental_div_mod_converse(
        c as int,
        0x100,
        r as int * 0x100 + g as int,
        b as int,
    );
    vstd::arithmetic::div_mod::lemma_fundamental_div_mod_converse(
        r as int * 0x100 + g as int,
        0x100,
        r as int,
        g as int,
    );
}

/// A value that occurs in a sequence has a valid first-found index.
proof fn lemma_index_of_valid(pal: Seq<u32>, c: u32)
    requires
        pal.to_set().contains(c),
    ensures
        0 <= pal.index_of(c) < pal.len(),
        pal[pal.index_of(c)] == c,
{
    let w = choose|k: int| 0 <= k < pal.len() && pal[k] == c;
    assert(0 <= w < pal.len() && pal[w] == c);
}

/// Extracting bit `k` of a byte built from eight bits gives bit `k` back.
proof fn lemma_extract_bit(
    b0: int,
    b1: int,
    b2: int,
    b3: int,
    b4: int,
    b5: int,
    b6: int,
    b7: int,
    k: int,
)
    requires
        0 <= b0 <= 1,
        0 <= b1 <= 1,
        0 <= b2 <= 1,
        0 <= b3 <= 1,
        0 <= b4 <= 1,
        0 <= b5 <= 1,
        0 <= b6 <= 1,
        0 <= b7 <= 1,
        0 <= k < 8,
    ensures
        ({
            let v = (128 * b0 + 64 * b1 + 32 * b2 + 16 * b3 + 8 * b4 + 4 * b5 + 2 * b6 + b7) as u8;
            bit_at(v, k) == if k == 0 {
                b0
            } else if k == 1 {
                b1
            } else if k == 2 {
                b2
            } else if k == 3 {
                b3
            } else if k == 4 {
                b4
            } else if k == 5 {
                b5
            } else if k == 6 {
                b6
            } else {
                b7
            }
        }),
{
    let vi = 128 * b0 + 64 * b1 + 32 * b2 + 16 * b3 + 8 * b4 + 4 * b5 + 2 * b6 + b7;
    let v = vi as u8;
    assert(v == vi);
    if k == 0 {
        vstd::arithmetic::div_mod::lemma_fundamental_div_mod_converse(vi, 128, b0, vi - 128 * b0);
        assert(bit_at(v, 0) == b0 % 2);
    } else if k == 1 {
        vstd::arithmetic::div_mod::lemma_fundamental_div_mod_converse(
            vi,
            64,
            2 * b0 + b1,
            vi - 64 * (2 * b0 + b1),
        );
        vstd::arithmetic::div_mod::lemma_fundamental_div_mod_converse(2 * b0 + b1, 2, b0, b1);
    } else if k == 2 {
        vstd::arithmetic::div_mod::lemma_fundamental_div_mod_converse(
            vi,
            32,
            4 * b0 + 2 * b1 + b2,
            vi - 32 * (4 * b0 + 2 * b1 + b2),
        );
        vstd::arithmetic::div_mod::lemma_fundamental_div_mod_converse(
            4 * b0 + 2 * b1 + b2,
            2,
            2 * b0 + b1,
            b2,
        );
    } else if k == 3 {
        vstd::arithmetic::div_mod::lemma_fundamental_div_mod_converse(
            vi,
            16,
            8 * b0 + 4 * b1 + 2 * b2 + b3,
            vi - 16 * (8 * b0 + 4 * b1 + 2 * b2 + b3),
        );
        vstd::arithmetic::div_mod::lemma_fundamental_div_mod_converse(
            8 * b0 + 4 * b1 + 2 * b2 + b3,
            2,
            4 * b0 + 2 * b1 + b2,
            b3,
        );
    } else if k == 4 {
        vstd::arithmetic::div_mod::lemma_fundamental_div_mod_converse(
            vi,
            8,
            16 * b0 + 8 * b1 + 4 * b2 + 2 * b3 + b4,
            vi - 8 * (16 * b0 + 8 * b1 + 4 * b2 + 2 * b3 + b4),
        );
        vstd::arithmetic::div_mod::lemma_fundamental_div_mod_converse(
            16 * b0 + 8 * b1 + 4 * b2 + 2 * b3 + b4,
            2,
            8 * b0 + 4 * b1 + 2 * b2 + b3,
            b4,
        );
    } else if k == 5 {
        vstd::arithmetic::div_mod::lemma_fundamental_div_mod_converse(
            vi,
            4,
            32 * b0 + 16 * b1 + 8 * b2 + 4 * b3 + 2 * b4 + b5,
            vi - 4 * (32 * b0 + 16 * b1 + 8 * b2 + 4 * b3 + 2 * b4 + b5),
        );
        vstd::arithmetic::div_mod::lemma_fundamental_div_mod_converse(
            32 * b0 + 16 * b1 + 8 * b2 + 4 * b3 + 2 * b4 + b5,
            2,
            16 * b0 + 8 * b1 + 4 * b2 + 2 * b3 + b4,
            b5,
        );
    } else if k == 6 {
        vstd::arithmetic::div_mod::lemma_fundamental_div_mod_converse(
            vi,
            2,
            64 * b0 + 32 * b1 + 16 * b2 + 8 * b3 + 4 * b4 + 2 * b5 + b6,
            b7,
        );
        vstd::arithmetic::div_mod::lemma_fundamental_div_mod_converse(
            64 * b0 + 32 * b1 + 16 * b2 + 8 * b3 + 4 * b4 + 2 * b5 + b6,
            2,
            32 * b0 + 16 * b1 + 8 * b2 + 4 * b3 + 2 * b4 + b5,
            b6,
        );
    } else {
        vstd::arithmetic::div_mod::lemma_fundamental_div_mod_converse(
            vi,
            2,
            64 * b0 + 32 * b1 + 16 * b2 + 8 * b3 + 4 * b4 + 2 * b5 + b6,
            b7,
        );
        assert(msb_weight(7) == 1);
        assert(vi / 1 == vi);
    }
}

/// How the encoder's output splits into header, color table, pixel plane,
/// and mask plane.
pub(crate) proof fn lemma_enc_layout(w: u32, h: u32, depth: BmpDepth, pal: Seq<u32>, rgba: Seq<u8>)
    requires
        1 <= w,
        1 <= h,
    ensures
        ({
            let data = bmp_encoded(w, h, depth, pal, rgba);
            let wi = w as int;
            let hi = h as int;
            let rs = row_size(wi, depth.spec_bits_per_pixel() as int);
            let ms = mask_row_size(wi);
            let ncol = depth.spec_num_colors() as int;
            let rows_off = bmp_rows_off(depth);
            &&& data.len() == bmp_total_size(wi, hi, depth)
            &&& data.subrange(0, 40) == bmp_header_bytes(w, h, depth.spec_bits_per_pixel())
            &&& data.subrange(40, rows_off) == pal_block(pal, ncol)
            &&& data.subrange(rows_off, rows_off + hi * rs) == enc_color_plane(
                rgba,
                wi,
                hi,
                depth,
                pal,
            )
            &&& !(depth is ThirtyTwo) ==> data.subrange(
                rows_off + hi * rs,
                bmp_total_size(wi, hi, depth),
            ) == mask_plane_seq(rgba, wi, hi)
        }),
{
    let data = bmp_encoded(w, h, depth, pal, rgba);
    let wi = w as int;
    let hi = h as int;
    let bpp = depth.spec_bits_per_pixel() as int;
    let rs = row_size(wi, bpp);
    let ms = mask_row_size(wi);
    let ncol = depth.spec_num_colors() as int;
    let rows_off = bmp_rows_off(depth);
    let hdr = bmp_header_bytes(w, h, depth.spec_bits_per_pixel());
    let pb = pal_block(pal, ncol);
    let cp = enc_color_plane(rgba, wi, hi, depth, pal);
    let mp = enc_mask_plane(rgba, wi, hi, depth);
    lemma_row_size_bounds(wi, bpp);
    lemma_row_size_bounds(wi, 1);
    assert(hdr.len() == 40);
    assert(pb.len() == 4 * ncol);
    assert(cp.len() == hi * rs) by {
        assert(0 <= hi * rs) by (nonlinear_arith)
            requires
                0 < hi,
                0 < rs,
        ;
    }
    assert(mp.len() == if depth is ThirtyTwo {
        0int
    } else {
        hi * ms
    }) by {
        assert(0 <= hi * ms) by (nonlinear_arith)
            requires
                0 < hi,
                0 < ms,
        ;
    }
    assert(data.len() == bmp_total_size(wi, hi, depth));
    assert(data.subrange(0, 40) =~= hdr);
    assert(data.subrange(40, rows_off) =~= pb);
    assert(data.subrange(rows_off, rows_off + hi * rs) =~= cp);
    if !(depth is ThirtyTwo) {
        assert(data.subrange(rows_off + hi * rs, bmp_total_size(wi, hi, depth)) =~= mp);
    }
}

/// Reads one pixel-plane byte of the encoder's output.
proof fn lemma_color_plane_byte_at(
    w: u32,
    h: u32,
    depth: BmpDepth,
    pal: Seq<u32>,
    rgba: Seq<u8>,
    r: int,
    j: int,
)
    requires
        1 <= w,
        1 <= h,
        0 <= r < h as int,
        0 <= j < row_size(w as int, depth.spec_bits_per_pixel() as int),
    ensures
        bmp_encoded(w, h, depth, pal, rgba)[bmp_rows_off(depth) + r * row_size(
            w as int,
            depth.spec_bits_per_pixel() as int,
        ) + j] == enc_color_byte(rgba, w as int, h as int, depth, pal, r, j),
{
    let wi = w as int;
    let hi = h as int;
    let rs = row_size(wi, depth.spec_bits_per_pixel() as int);
    let data = bmp_encoded(w, h, depth, pal, rgba);
    let cp = enc_color_plane(rgba, wi, hi, depth, pal);
    let rows_off = bmp_rows_off(depth);
    lemma_enc_layout(w, h, depth, pal, rgba);
    lemma_row_size_bounds(wi, depth.spec_bits_per_pixel() as int);
    lemma_row_bound(r, j, rs, hi);
    lemma_row_index(r, j, rs);
    assert(data[rows_off + r * rs + j] == data.subrange(rows_off, rows_off + hi * rs)[r * rs + j]);
    assert(cp[r * rs + j] == enc_color_byte(rgba, wi, hi, depth, pal, r, j));
}

/// Reads one mask-plane byte of the encoder's output.
proof fn lemma_mask_plane_byte_at(
    w: u32,
    h: u32,
    depth: BmpDepth,
    pal: Seq<u32>,
    rgba: Seq<u8>,
    r: int,
    j: int,
)
    requires
        1 <= w,
        1 <= h,
        !(depth is ThirtyTwo),
        0 <= r < h as int,
        0 <= j < mask_row_size(w as int),
    ensures
        bmp_encoded(w, h, depth, pal, rgba)[bmp_rows_off(depth) + (h as int) * row_size(
            w as int,
            depth.spec_bits_per_pixel() as int,
        ) + r * mask_row_size(w as int) + j] == enc_mask_byte(rgba, w as int, h as int, r, j),
{
    let wi = w as int;
    let hi = h as int;
    let rs = row_size(wi, depth.spec_bits_per_pixel() as int);
    let ms = mask_row_size(wi);
    let data = bmp_encoded(w, h, depth, pal, rgba);
    let mp = mask_plane_seq(rgba, wi, hi);
    let rows_off = bmp_rows_off(depth);
    let moff = rows_off + hi * rs;
    lemma_enc_layout(w, h, depth, pal, rgba);
    lemma_row_size_bounds(wi, depth.spec_bits_per_pixel() as int);
    lemma_row_size_bounds(wi, 1);
    lemma_row_bound(r, j, ms, hi);
    lemma_row_index(r, j, ms);
    assert(data[moff + r * ms + j] == data.subrange(moff, bmp_total_size(wi, hi, depth))[r * ms
        + j]);
    assert(mp[r * ms + j] == enc_mask_byte(rgba, wi, hi, r, j));
}

/// Without alpha values strictly between 0 and 255, every alpha is 0 or 255.
proof fn lemma_px_binary_alpha(rgba: Seq<u8>, p: int)
    requires
        !crate::stats::spec_has_nonbinary_alpha(rgba),
        0 <= p < num_px(rgba),
    ensures
        px_alpha(rgba, p) == 0 || px_alpha(rgba, p) == 255,
{
    if px_alpha(rgba, p) != 0 && px_alpha(rgba, p) != 255 {
        assert(crate::stats::spec_has_nonbinary_alpha(rgba));
    }
}

/// Decoding the mask plane of the encoder's output restores each pixel's
/// alpha, provided every alpha was 0 or 255.
proof fn lemma_mask_alpha_at(w: u32, h: u32, depth: BmpDepth, pal: Seq<u32>, rgba: Seq<u8>, x: int, y: int)
    requires
        enc_dims(rgba, w as int, h as int),
        !(depth is ThirtyTwo),
        !crate::stats::spec_has_nonbinary_alpha(rgba),
        0 <= x < w as int,
        0 <= y < h as int,
    ensures
        ({
            let data = bmp_encoded(w, h, depth, pal, rgba);
            let p = y * (w as int) + x;
            let a: u8 = if bmp_mask_bit(data, w as int, h as int, depth, x, y) == 1 {
                0u8
            } else {
                255u8
            };
            a == rgba[4 * p + 3]
        }),
{
    let wi = w as int;
    let hi = h as int;
    let data = bmp_encoded(w, h, depth, pal, rgba);
    let p = y * wi + x;
    let r = hi - 1 - y;
    let j = x / 8;
    let k = x % 8;
    lemma_row_size_bounds(wi, 1);
    assert(8 * (x / 8) + x % 8 == x);
    assert(j < row_data_size(wi, 1));
    lemma_mask_plane_byte_at(w, h, depth, pal, rgba, r, j);
    let byte = enc_mask_byte(rgba, wi, hi, r, j);
    let t0 = enc_mask_bit(rgba, wi, 8 * j, y);
    let t1 = enc_mask_bit(rgba, wi, 8 * j + 1, y);
    let t2 = enc_mask_bit(rgba, wi, 8 * j + 2, y);
    let t3 = enc_mask_bit(rgba, wi, 8 * j + 3, y);
    let t4 = enc_mask_bit(rgba, wi, 8 * j + 4, y);
    let t5 = enc_mask_bit(rgba, wi, 8 * j + 5, y);
    let t6 = enc_mask_bit(rgba, wi, 8 * j + 6, y);
    let t7 = enc_mask_bit(rgba, wi, 8 * j + 7, y);
    assert(byte as int == mask1_byte(rgba, wi, y, j));
    lemma_extract_bit(t0, t1, t2, t3, t4, t5, t6, t7, k);
    assert(bit_at(byte, k) == enc_mask_bit(rgba, wi, x, y));
    assert(bmp_mask_bit(data, wi, hi, depth, x, y) == enc_mask_bit(rgba, wi, x, y));
    assert(0 <= p < num_px(rgba)) by {
        assert(p < wi * hi && 0 <= y * wi) by (nonlinear_arith)
            requires
                0 <= y < hi,
                0 <= x < wi,
                p == y * wi + x,
        ;
        vstd::arithmetic::div_mod::lemma_div_multiples_vanish(wi * hi, 4);
    }
    lemma_px_binary_alpha(rgba, p);
}

/// At a palettized depth, decoding the stored bits of a pixel of the
/// encoder's output gives the index of that pixel's color in the table.
proof fn lemma_pal_index_at(w: u32, h: u32, depth: BmpDepth, pal: Seq<u32>, rgba: Seq<u8>, x: int, y: int)
    requires
        enc_dims(rgba, w as int, h as int),
        depth is One || depth is Four || depth is Eight,
        crate::stats::sorted_strict(pal),
        pal.to_set() == crate::stats::spec_colors(rgba),
        pal.len() <= depth.spec_num_colors(),
        0 <= x < w as int,
        0 <= y < h as int,
    ensures
        ({
            let data = bmp_encoded(w, h, depth, pal, rgba);
            let p = y * (w as int) + x;
            let idx = bmp_color_index(data, w as int, h as int, depth, x, y);
            &&& idx == enc_index(rgba, pal, p)
            &&& 0 <= idx < pal.len()
            &&& pal[idx] == px_color(rgba, p)
        }),
{
    let wi = w as int;
    let hi = h as int;
    let bpp = depth.spec_bits_per_pixel() as int;
    let data = bmp_encoded(w, h, depth, pal, rgba);
    let p = y * wi + x;
    let r = hi - 1 - y;
    lemma_row_size_bounds(wi, bpp);
    assert(0 <= p < num_px(rgba) && p < wi * hi) by {
        assert(p < wi * hi && 0 <= y * wi) by (nonlinear_arith)
            requires
                0 <= y < hi,
                0 <= x < wi,
                p == y * wi + x,
        ;
        vstd::arithmetic::div_mod::lemma_div_multiples_vanish(wi * hi, 4);
    }
    assert forall|q: int| 0 <= q < num_px(rgba) implies #[trigger] pal.to_set().contains(
        px_color(rgba, q),
    ) by {
        crate::stats::lemma_colors_upto_contains(rgba, num_px(rgba), q);
    }
    lemma_index_of_valid(pal, px_color(rgba, p));
    assert forall|q: int| 0 <= q < num_px(rgba) implies 0 <= #[trigger] enc_index(rgba, pal, q)
        < pal.len() by {
        lemma_index_of_valid(pal, px_color(rgba, q));
    }
    assert(pal.len() >= 1) by {
        assert(pal.to_set().contains(px_color(rgba, p)));
        assert(pal.contains(px_color(rgba, p)));
    }
    assert forall|x2: int| 0 <= x2 implies 0 <= #[trigger] enc_bit_idx(rgba, wi, pal, x2, y)
        <= pal.len() - 1 by {
        if x2 < wi {
            let q = y * wi + x2;
            assert(0 <= q < wi * hi) by (nonlinear_arith)
                requires
                    0 <= y < hi,
                    0 <= x2 < wi,
                    q == y * wi + x2,
            ;
            assert(0 <= q < num_px(rgba));
            assert(0 <= enc_index(rgba, pal, q) < pal.len());
        }
    }
    if depth is One {
        let j = x / 8;
        let k = x % 8;
        assert(8 * (x / 8) + x % 8 == x);
        assert(j < row_data_size(wi, 1));
        lemma_color_plane_byte_at(w, h, depth, pal, rgba, r, j);
        let byte = enc_color_byte(rgba, wi, hi, depth, pal, r, j);
        let t0 = enc_bit_idx(rgba, wi, pal, 8 * j, y);
        let t1 = enc_bit_idx(rgba, wi, pal, 8 * j + 1, y);
        let t2 = enc_bit_idx(rgba, wi, pal, 8 * j + 2, y);
        let t3 = enc_bit_idx(rgba, wi, pal, 8 * j + 3, y);
        let t4 = enc_bit_idx(rgba, wi, pal, 8 * j + 4, y);
        let t5 = enc_bit_idx(rgba, wi, pal, 8 * j + 5, y);
        let t6 = enc_bit_idx(rgba, wi, pal, 8 * j + 6, y);
        let t7 = enc_bit_idx(rgba, wi, pal, 8 * j + 7, y);
        assert(byte as int == enc1_byte(rgba, wi, pal, y, j));
        lemma_extract_bit(t0, t1, t2, t3, t4, t5, t6, t7, k);
        assert(bit_at(byte, k) == enc_bit_idx(rgba, wi, pal, x, y));
    } else if depth is Four {
        let j = x / 2;
        assert(2 * (x / 2) + x % 2 == x);
        assert(j < row_data_size(wi, 4)) by (nonlinear_arith)
            requires
                0 <= x < wi,
                4 * wi <= 8 * row_data_size(wi, 4),
                j == x / 2,
                2 * (x / 2) + x % 2 == x,
                0 <= x % 2 < 2,
        ;
        lemma_color_plane_byte_at(w, h, depth, pal, rgba, r, j);
        let byte = enc_color_byte(rgba, wi, hi, depth, pal, r, j);
        let hi4 = enc_bit_idx(rgba, wi, pal, 2 * j, y);
        let lo4 = enc_bit_idx(rgba, wi, pal, 2 * j + 1, y);
        assert(byte as int == 16 * hi4 + lo4);
        vstd::arithmetic::div_mod::lemma_fundamental_div_mod_converse(16 * hi4 + lo4, 16, hi4, lo4);
        if x % 2 == 0 {
            assert(2 * j == x);
            assert(byte as int / 16 == hi4);
        } else {
            assert(2 * j + 1 == x);
            assert(byte as int % 16 == lo4);
        }
    } else {
        let j = x;
        lemma_color_plane_byte_at(w, h, depth, pal, rgba, r, j);
        let byte = enc_color_byte(rgba, wi, hi, depth, pal, r, j);
        assert(byte as int == enc_index(rgba, pal, y * wi + j));
    }
}

/// Decoding any one byte of any pixel of the encoder's output gives back
/// the corresponding byte of the raster.
proof fn lemma_px_round_trip(w: u32, h: u32, rgba: Seq<u8>, pal: Seq<u32>, x: int, y: int, c: int)
    requires
        enc_dims(rgba, w as int, h as int),
        ({
            let depth = spec_select_depth(rgba);
            match depth {
                BmpDepth::One | BmpDepth::Four | BmpDepth::Eight => {
                    &&& crate::stats::sorted_strict(pal)
                    &&& pal.to_set() == crate::stats::spec_colors(rgba)
                    &&& pal.len() <= depth.spec_num_colors()
                },
                _ => pal == Seq::<u32>::empty(),
            }
        }),
        0 <= x < w as int,
        0 <= y < h as int,
        0 <= c < 4,
    ensures
        ({
            let depth = spec_select_depth(rgba);
            bmp_px_byte(bmp_encoded(w, h, depth, pal, rgba), w as int, h as int, depth, x, y, c)
                == rgba[4 * (y * (w as int) + x) + c]
        }),
{
    let wi = w as int;
    let hi = h as int;
    let depth = spec_select_depth(rgba);
    let data = bmp_encoded(w, h, depth, pal, rgba);
    let p = y * wi + x;
    let r = hi - 1 - y;
    assert(0 <= p && p < wi * hi && 4 * p + 3 < 4 * (wi * hi)) by (nonlinear_arith)
        requires
            0 <= y < hi,
            0 <= x < wi,
            p == y * wi + x,
    ;
    lemma_row_size_bounds(wi, depth.spec_bits_per_pixel() as int);
    match depth {
        BmpDepth::One | BmpDepth::Four | BmpDepth::Eight => {
            lemma_pal_index_at(w, h, depth, pal, rgba, x, y);
            let idx = bmp_color_index(data, wi, hi, depth, x, y);
            if c == 3 {
                lemma_mask_alpha_at(w, h, depth, pal, rgba, x, y);
            } else {
                lemma_enc_layout(w, h, depth, pal, rgba);
                let ncol = depth.spec_num_colors() as int;
                let cc = 2 - c;
                lemma_row_index(idx, cc, 4);
                assert(data[40 + (4 * idx + cc)] == pal_block(pal, ncol)[4 * idx + cc]);
                assert(px_color(rgba, p) == (rgba[4 * p] * 0x1_0000 + rgba[4 * p + 1] * 0x100
                    + rgba[4 * p + 2]) as u32);
                lemma_unpack_pack(rgba[4 * p], rgba[4 * p + 1], rgba[4 * p + 2]);
            }
        },
        BmpDepth::TwentyFour => {
            if c == 3 {
                lemma_mask_alpha_at(w, h, depth, pal, rgba, x, y);
            } else {
                let cc = 2 - c;
                let j = 3 * x + cc;
                assert(j < row_data_size(wi, 24));
                lemma_color_plane_byte_at(w, h, depth, pal, rgba, r, j);
                vstd::arithmetic::div_mod::lemma_fundamental_div_mod_converse(j, 3, x, cc);
            }
        },
        BmpDepth::ThirtyTwo => {
            let cc: int = if c == 0 {
                2
            } else if c == 1 {
                1
            } else if c == 2 {
                0
            } else {
                3
            };
            let j = 4 * x + cc;
            assert(j < row_data_size(wi, 32));
            lemma_color_plane_byte_at(w, h, depth, pal, rgba, r, j);
            vstd::arithmetic::div_mod::lemma_fundamental_div_mod_converse(j, 4, x, cc);
        },
        BmpDepth::Sixteen => {
            assert(false);
        },
    }
}

/// The round trip of the legacy bitmap codec: encoding a raster at the
/// automatically selected depth, with its ascending color table where that
/// depth has one, yields bytes that parse back to the same width, height,
/// and byte-exact RGBA data.
pub proof fn lemma_bmp_round_trip(w: u32, h: u32, rgba: Seq<u8>, pal: Seq<u32>)
    requires
        enc_dims(rgba, w as int, h as int),
        (w as int) * (h as int) <= 0xFFFF_FFFF,
        4 * ((w as int) * (h as int)) <= usize::MAX,
        ({
            let depth = spec_select_depth(rgba);
            match depth {
                BmpDepth::One | BmpDepth::Four | BmpDepth::Eight => {
                    &&& crate::stats::sorted_strict(pal)
                    &&& pal.to_set() == crate::stats::spec_colors(rgba)
                },
                _ => pal == Seq::<u32>::empty(),
            }
        }),
    ensures
        ({
            let depth = spec_select_depth(rgba);
            let data = bmp_encoded(w, h, depth, pal, rgba);
            &&& bmp_ok(data)
            &&& bmp_width(data) == w as int
            &&& bmp_height(data) == h as int
            &&& bmp_depth_of(data) == Some(depth)
            &&& bmp_decoded_rgba(data, w as int, h as int, depth) == rgba
        }),
{
    let wi = w as int;
    let hi = h as int;
    let depth = spec_select_depth(rgba);
    let bpp = depth.spec_bits_per_pixel();
    let data = bmp_encoded(w, h, depth, pal, rgba);
    let hdr = bmp_header_bytes(w, h, bpp);
    lemma_enc_layout(w, h, depth, pal, rgba);
    lemma_row_size_bounds(wi, bpp as int);
    lemma_row_size_bounds(wi, 1);
    assert(0 < hi * row_size(wi, bpp as int) && 0 < hi * mask_row_size(wi)) by (nonlinear_arith)
        requires
            0 < hi,
            0 < row_size(wi, bpp as int),
            0 < mask_row_size(wi),
    ;
    // the color-table cap of the selected depth
    match depth {
        BmpDepth::One | BmpDepth::Four | BmpDepth::Eight => {
            crate::stats::lemma_sorted_strict_no_duplicates(pal);
            pal.unique_seq_to_set();
            assert(pal.len() <= depth.spec_num_colors());
        },
        _ => {},
    }
    // header fields parse back
    assert(u32_bytes(40).len() == 4 && u32_bytes(w).len() == 4 && u32_bytes(
        (2 * h) as u32,
    ).len() == 4 && u16_bytes(1).len() == 2 && u16_bytes(bpp).len() == 2 && u32_bytes(0).len()
        == 4);
    assert(forall|i: int| 0 <= i < 40 ==> data[i] == hdr[i]) by {
        assert(forall|i: int| 0 <= i < 40 ==> data.subrange(0, 40)[i] == data[i]);
    }
    assert(data.subrange(0, 4) =~= u32_bytes(40));
    lemma_u32_bytes_round_trip(40, data, 0);
    assert(data.subrange(4, 8) =~= u32_bytes(w));
    lemma_u32_bytes_round_trip(w, data, 4);
    assert(data.subrange(8, 12) =~= u32_bytes((2 * h) as u32));
    lemma_u32_bytes_round_trip((2 * h) as u32, data, 8);
    assert(data.subrange(14, 16) =~= u16_bytes(bpp));
    lemma_u16_bytes_round_trip(bpp, data, 14);
    lemma_bmp_depth_round_trip(depth);
    assert(bmp_depth_of(data) == Some(depth));
    assert(bmp_width(data) == wi);
    assert(le32_at(data, 8) == 2 * hi);
    assert(bmp_height(data) == hi);
    assert(bmp_ok(data));
    // every decoded byte matches
    let dec = bmp_decoded_rgba(data, wi, hi, depth);
    assert forall|i: int| 0 <= i < 4 * (wi * hi) implies dec[i] == rgba[i] by {
        let p = i / 4;
        let c = i % 4;
        vstd::arithmetic::div_mod::lemma_fundamental_div_mod(i, 4);
        assert(0 <= p < wi * hi) by (nonlinear_arith)
            requires
                0 <= i < 4 * (wi * hi),
                i == 4 * p + c,
                0 <= c < 4,
        ;
        let x = p % wi;
        let y = p / wi;
        vstd::arithmetic::div_mod::lemma_fundamental_div_mod(p, wi);
        assert(0 <= y < hi) by (nonlinear_arith)
            requires
                0 <= p < wi * hi,
                0 < wi,
                p == wi * y + x,
                0 <= x < wi,
        ;
        lemma_px_round_trip(w, h, rgba, pal, x, y, c);
        assert(y * wi + x == p) by (nonlinear_arith)
            requires
                p == wi * y + x,
        ;
        assert(rgba[4 * p + c] == rgba[i]);
    }
    assert(dec =~= rgba);
}

} // verus!
