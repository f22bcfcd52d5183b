//! A library for encoding and decoding ICO image files (and their CUR
//! cursor-file siblings): a directory of small raster images, each stored
//! either as a legacy bitmap or as an embedded PNG.

use vstd::prelude::*;

mod bmp;
mod bmpdepth;
mod bytes;
mod icondir;
mod image;
mod pngio;
mod restype;
mod stats;

pub use crate::bmp::{
    bmp_decoded_rgba, bmp_encoded, bmp_height, bmp_ok, bmp_size_ok, bmp_width,
    lemma_bmp_round_trip, spec_bmp_palette, spec_select_depth,
};
pub use crate::bmpdepth::{lemma_bmp_depth_round_trip, BmpDepth};
pub use crate::bytes::{le16_at, le32_at, u16_bytes, u32_bytes};
pub use crate::icondir::{
    dir_count, dir_parse_ok, lemma_dir_round_trip, lemma_entry_bmp_round_trip,
    lemma_file_bmp_round_trip, spec_bmp_entry, spec_decode_size, spec_dir_bytes,
    spec_dir_file_size, spec_entry_decode, spec_entry_hotspot, spec_png_entry, spec_read_entry,
    spec_use_png, DirView, EntryView, IconDir, IconDirEntry,
};
pub use crate::image::{normalize_png, png_acceptable, rgb_channels, IconImage, ImageView};
pub use crate::pngio::{is_png_data, png_bytes_rgb, png_bytes_rgba, png_info_of, png_parse};
pub use crate::restype::{lemma_resource_type_round_trip, ResourceType};
pub use crate::stats::{spec_colors, spec_has_alpha, spec_has_nonbinary_alpha, sorted_strict};

verus! {

/// The two ways an operation of this library can fail.
#[derive(Clone, Copy, Debug, PartialEq, Eq, Structural)]
pub enum IcoError {
    /// A structural violation in untrusted input bytes: bad reserved fields,
    /// an unsupported resource type or bit depth, a header mismatch, or
    /// truncated data.
    MalformedInput,
    /// A caller contract violation: too many entries on write, or a request
    /// the encoder cannot satisfy.
    InvalidUsage,
}

} // verus!
