//! The container: an ordered collection of entries sharing one resource
//! type, each entry holding one encoded image and its directory record.

use crate::bmp::{
    bmp_decoded_rgba, bmp_depth_of, bmp_encoded, bmp_height, bmp_ok, bmp_size_ok, bmp_width,
    enc_dims, lemma_bmp_round_trip, lemma_enc_layout, sorted_seq_of, spec_bmp_palette,
    spec_select_depth,
};
use crate::bmpdepth::BmpDepth;
use crate::image::{normalize_png, png_acceptable, rgb_channels, IconImage, ImageView};
use crate::pngio::{is_png_data, png_bytes_rgb, png_bytes_rgba, png_info_of, png_parse};
use crate::restype::ResourceType;
use crate::stats::{spec_has_alpha, spec_has_nonbinary_alpha};
use crate::bytes::{get_u16, get_u32, le16_at, le32_at, put_u16, put_u32, u16_bytes, u32_bytes};
use crate::IcoError;
use vstd::prelude::*;

verus! {

/// One entry in an ICO or CUR file; a single icon or cursor.
#[derive(Debug)]
pub struct IconDirEntry {
    restype: ResourceType,
    width: u32,
    height: u32,
    num_colors: u8,
    color_planes: u16,
    bits_per_pixel: u16,
    data: Vec<u8>,
}

/// The mathematical content of an [`IconDirEntry`].  For a cursor entry the
/// `color_planes` and `bits_per_pixel` fields hold the hotspot coordinates
/// instead.
pub struct EntryView {
    /// Whether the entry is an icon or a cursor.
    pub restype: ResourceType,
    /// Width in pixels.
    pub width: u32,
    /// Height in pixels.
    pub height: u32,
    /// The stored color-table size byte (0 both for "no table" and for 256).
    pub num_colors: u8,
    /// Color planes for an icon; hotspot x for a cursor.
    pub color_planes: u16,
    /// Bits per pixel for an icon; hotspot y for a cursor.
    pub bits_per_pixel: u16,
    /// The raw encoded image bytes.
    pub data: Seq<u8>,
}

impl EntryView {
    /// Well-formedness: nonzero dimensions.
    pub open spec fn wf(self) -> bool {
        &&& self.width >= 1
        &&& self.height >= 1
    }
}

impl View for IconDirEntry {
    type V = EntryView;

    closed spec fn view(&self) -> EntryView {
        EntryView {
            restype: self.restype,
            width: self.width,
            height: self.height,
            num_colors: self.num_colors,
            color_planes: self.color_planes,
            bits_per_pixel: self.bits_per_pixel,
            data: self.data@,
        }
    }
}

impl Clone for IconDirEntry {
    /// Returns a copy of the entry.
    fn clone(&self) -> (r: Self)
        ensures
            r@ == self@,
    {
        proof {
            use_type_invariant(self);
        }
        let data = self.data.clone();
        proof {
            assert(data@ =~= self.data@);
        }
        IconDirEntry {
            restype: self.restype,
            width: self.width,
            height: self.height,
            num_colors: self.num_colors,
            color_planes: self.color_planes,
            bits_per_pixel: self.bits_per_pixel,
            data,
        }
    }
}

/// The hotspot an entry reports: its two directory fields for a cursor,
/// nothing for an icon.
pub open spec fn spec_entry_hotspot(e: EntryView) -> Option<(u16, u16)> {
    if e.restype is Cursor {
        Some((e.color_planes, e.bits_per_pixel))
    } else {
        None
    }
}

/// What decoding an entry yields: the raster its data holds, with the
/// cursor hotspot attached, or nothing when the data is malformed or its
/// dimensions disagree with the entry's.
pub open spec fn spec_entry_decode(e: EntryView) -> Option<ImageView> {
    if is_png_data(e.data) {
        if png_acceptable(png_parse(e.data)) {
            let t = png_parse(e.data)->Some_0;
            if t.0 == e.width && t.1 == e.height {
                Some(
                    ImageView {
                        width: t.0,
                        height: t.1,
                        hotspot: spec_entry_hotspot(e),
                        rgba: normalize_png(t.3, t.4),
                    },
                )
            } else {
                None
            }
        } else {
            None
        }
    } else {
        if bmp_ok(e.data) && bmp_width(e.data) == e.width as int && bmp_height(e.data)
            == e.height as int {
            Some(
                ImageView {
                    width: e.width,
                    height: e.height,
                    hotspot: spec_entry_hotspot(e),
                    rgba: bmp_decoded_rgba(
                        e.data,
                        e.width as int,
                        e.height as int,
                        bmp_depth_of(e.data)->Some_0,
                    ),
                },
            )
        } else {
            None
        }
    }
}

/// The entry the bitmap encoder produces for an image.
pub open spec fn spec_bmp_entry(img: ImageView) -> EntryView {
    let depth = spec_select_depth(img.rgba);
    EntryView {
        restype: if img.hotspot is Some {
            ResourceType::Cursor
        } else {
            ResourceType::Icon
        },
        width: img.width,
        height: img.height,
        num_colors: ((depth.spec_num_colors() as int) % 256) as u8,
        color_planes: match img.hotspot {
            Some(hs) => hs.0,
            None => 1,
        },
        bits_per_pixel: match img.hotspot {
            Some(hs) => hs.1,
            None => depth.spec_bits_per_pixel(),
        },
        data: bmp_encoded(img.width, img.height, depth, spec_bmp_palette(img.rgba), img.rgba),
    }
}

/// The entry the PNG encoder produces for an image, or nothing when the
/// external encoder rejects the request.
pub open spec fn spec_png_entry(img: ImageView) -> Option<EntryView> {
    let has = spec_has_alpha(img.rgba);
    let bytes = if has {
        png_bytes_rgba(img.width, img.height, img.rgba)
    } else {
        png_bytes_rgb(img.width, img.height, rgb_channels(img.rgba))
    };
    match bytes {
        Some(d) => Some(
            EntryView {
                restype: if img.hotspot is Some {
                    ResourceType::Cursor
                } else {
                    ResourceType::Icon
                },
                width: img.width,
                height: img.height,
                num_colors: 0,
                color_planes: match img.hotspot {
                    Some(hs) => hs.0,
                    None => 0,
                },
                bits_per_pixel: match img.hotspot {
                    Some(hs) => hs.1,
                    None => if has {
                        32u16
                    } else {
                        24u16
                    },
                },
                data: d,
            },
        ),
        None => None,
    }
}

/// Whether the automatic encoder picks PNG for an image: images with alpha
/// values strictly between 0 and 255 need it, and large images compress
/// better with it.
pub open spec fn spec_use_png(img: ImageView) -> bool {
    spec_has_nonbinary_alpha(img.rgba) || (img.width as int) * (img.height as int) > 4096
}

impl IconDirEntry {
    #[verifier::type_invariant]
    pub(crate) open spec fn type_inv(self) -> bool {
        self@.wf()
    }

    /// Returns the type of resource stored in this entry, either an icon or
    /// a cursor.
    pub fn resource_type(&self) -> (r: ResourceType)
        ensures
            r == self@.restype,
    {
        self.restype
    }

    /// Returns the width of the image, in pixels.
    pub fn width(&self) -> (r: u32)
        ensures
            r == self@.width,
            self@.wf(),
    {
        proof {
            use_type_invariant(self);
        }
        self.width
    }

    /// Returns the height of the image, in pixels.
    pub fn height(&self) -> (r: u32)
        ensures
            r == self@.height,
            self@.wf(),
    {
        proof {
            use_type_invariant(self);
        }
        self.height
    }

    /// Returns the bits-per-pixel (color depth) of the image, and always 0
    /// for a cursor entry, whose directory record stores the hotspot in
    /// place of this field.
    pub fn bits_per_pixel(&self) -> (r: u16)
        ensures
            r == if self@.restype is Cursor {
                0u16
            } else {
                self@.bits_per_pixel
            },
    {
        if matches!(self.restype, ResourceType::Cursor) {
            0
        } else {
            self.bits_per_pixel
        }
    }

    /// Returns the coordinates of the cursor hotspot (pixels right from the
    /// left edge of the image, and pixels down from the top edge) for a
    /// cursor entry, and always `None` for an icon entry.
    pub fn cursor_hotspot(&self) -> (r: Option<(u16, u16)>)
        ensures
            r == spec_entry_hotspot(self@),
    {
        if matches!(self.restype, ResourceType::Cursor) {
            Some((self.color_planes, self.bits_per_pixel))
        } else {
            None
        }
    }

    /// Returns true if the image is encoded as a PNG, or false if it is
    /// encoded as a legacy bitmap.
    pub fn is_png(&self) -> (r: bool)
        ensures
            r == is_png_data(self@.data),
    {
        self.data.len() >= 4 && self.data[0] == 0x89 && self.data[1] == 0x50 && self.data[2]
            == 0x4e && self.data[3] == 0x47
    }

    /// Returns the raw, encoded image data.
    pub fn data(&self) -> (r: &[u8])
        ensures
            r@ == self@.data,
    {
        self.data.as_slice()
    }

    /// Decodes just enough of the raw image data to determine its size:
    /// the PNG stream header or the bitmap header, whichever the payload
    /// carries.
    pub fn decode_size(&self) -> (r: Result<(u32, u32), IcoError>)
        ensures
            match r {
                Ok(wh) => spec_decode_size(self@.data) == Some(wh),
                Err(e) => e == IcoError::MalformedInput && spec_decode_size(self@.data) is None,
            },
    {
        decode_size_bytes(&self.data)
    }

    /// Decodes this entry into an image.  Returns an error if the data is
    /// malformed, cannot be decoded, or disagrees with the entry about its
    /// own dimensions.
    pub fn decode(&self) -> (r: Result<IconImage, IcoError>)
        ensures
            match r {
                Ok(img) => spec_entry_decode(self@) == Some(img@),
                Err(e) => e == IcoError::MalformedInput && spec_entry_decode(self@) is None,
            },
    {
        let mut image = if self.is_png() {
            match IconImage::read_png(self.data.as_slice()) {
                Ok(image) => image,
                Err(e) => {
                    return Err(e);
                },
            }
        } else {
            match IconImage::read_bmp(self.data.as_slice()) {
                Ok(image) => image,
                Err(e) => {
                    return Err(e);
                },
            }
        };
        if image.width() != self.width() || image.height() != self.height() {
            return Err(IcoError::MalformedInput);
        }
        image.set_cursor_hotspot(self.cursor_hotspot());
        Ok(image)
    }

    /// Encodes an image in a new entry, choosing PNG for images with alpha
    /// values strictly between 0 and 255 and for images over 4096 pixels,
    /// and the legacy bitmap sub-format otherwise.
    pub fn encode(image: &IconImage) -> (r: Result<IconDirEntry, IcoError>)
        ensures
            if spec_use_png(image@) {
                match r {
                    Ok(e) => spec_png_entry(image@) == Some(e@),
                    Err(e) => e == IcoError::InvalidUsage && spec_png_entry(image@) is None,
                }
            } else {
                r is Ok && spec_bmp_entry(image@) == r->Ok_0@
            },
    {
        proof {
            use_type_invariant(image);
        }
        let stats = image.compute_stats();
        proof {
            assert((image@.width as int) * (image@.height as int) <= 0xFFFF_FFFF * 0xFFFF_FFFF)
                by (nonlinear_arith)
                requires
                    0 <= image@.width <= 0xFFFF_FFFF,
                    0 <= image@.height <= 0xFFFF_FFFF,
            ;
        }
        let use_png = stats.has_nonbinary_alpha || (image.width() as u64) * (image.height()
            as u64) > 64 * 64;
        if use_png {
            IconDirEntry::encode_as_png_internal(image, &stats)
        } else {
            proof {
                assert((image@.width as int) * (image@.height as int) <= 4096);
                assert(image@.width <= 4096 && image@.height <= 4096) by (nonlinear_arith)
                    requires
                        (image@.width as int) * (image@.height as int) <= 4096,
                        image@.width >= 1,
                        image@.height >= 1,
                ;
            }
            IconDirEntry::encode_as_bmp_internal(image, &stats)
        }
    }

    /// Encodes an image as a legacy bitmap in a new entry, at the depth the
    /// image's alpha values and distinct colors call for.
    pub fn encode_as_bmp(image: &IconImage) -> (r: Result<IconDirEntry, IcoError>)
        requires
            image@.width <= 0x7FFF_FFFF,
            image@.height <= 0x3FFF_FFFF,
        ensures
            r is Ok && spec_bmp_entry(image@) == r->Ok_0@,
    {
        let stats = image.compute_stats();
        IconDirEntry::encode_as_bmp_internal(image, &stats)
    }

    fn encode_as_bmp_internal(image: &IconImage, stats: &crate::stats::ImageStats) -> (r: Result<
        IconDirEntry,
        IcoError,
    >)
        requires
            stats.describes(image@.rgba),
            image@.width <= 0x7FFF_FFFF,
            image@.height <= 0x3FFF_FFFF,
        ensures
            r is Ok && spec_bmp_entry(image@) == r->Ok_0@,
    {
        proof {
            use_type_invariant(image);
        }
        let (num_colors, bpp, data) = image.write_bmp_internal(stats);
        let (color_planes, bits_per_pixel) = match image.cursor_hotspot() {
            Some(hs) => hs,
            None => (1, bpp),
        };
        let restype = if image.cursor_hotspot().is_some() {
            ResourceType::Cursor
        } else {
            ResourceType::Icon
        };
        let entry = IconDirEntry {
            restype,
            width: image.width(),
            height: image.height(),
            num_colors,
            color_planes,
            bits_per_pixel,
            data,
        };
        Ok(entry)
    }

    /// Encodes an image as a PNG in a new entry: with an alpha channel when
    /// any pixel is not fully opaque, without one otherwise.
    pub fn encode_as_png(image: &IconImage) -> (r: Result<IconDirEntry, IcoError>)
        ensures
            match r {
                Ok(e) => spec_png_entry(image@) == Some(e@),
                Err(e) => e == IcoError::InvalidUsage && spec_png_entry(image@) is None,
            },
    {
        let stats = image.compute_stats();
        IconDirEntry::encode_as_png_internal(image, &stats)
    }

    fn encode_as_png_internal(image: &IconImage, stats: &crate::stats::ImageStats) -> (r: Result<
        IconDirEntry,
        IcoError,
    >)
        requires
            stats.describes(image@.rgba),
        ensures
            match r {
                Ok(e) => spec_png_entry(image@) == Some(e@),
                Err(e) => e == IcoError::InvalidUsage && spec_png_entry(image@) is None,
            },
    {
        proof {
            use_type_invariant(image);
        }
        let (bpp, data) = match image.write_png_internal(stats) {
            Ok(t) => t,
            Err(e) => {
                return Err(e);
            },
        };
        let (color_planes, bits_per_pixel) = match image.cursor_hotspot() {
            Some(hs) => hs,
            None => (0, bpp),
        };
        let restype = if image.cursor_hotspot().is_some() {
            ResourceType::Cursor
        } else {
            ResourceType::Icon
        };
        let entry = IconDirEntry {
            restype,
            width: image.width(),
            height: image.height(),
            num_colors: 0,
            color_planes,
            bits_per_pixel,
            data,
        };
        Ok(entry)
    }
}

/// What the size peek of an entry's payload yields: the dimensions read
/// from the PNG stream header or the bitmap header, or nothing when even
/// that much cannot be parsed.
pub open spec fn spec_decode_size(data: Seq<u8>) -> Option<(u32, u32)> {
    if is_png_data(data) {
        match png_info_of(data) {
            Some(t) => if t.0 >= 1 && t.1 >= 1 && t.2 == 8 {
                Some((t.0, t.1))
            } else {
                None
            },
            None => None,
        }
    } else {
        if bmp_size_ok(data) {
            Some((bmp_width(data) as u32, bmp_height(data) as u32))
        } else {
            None
        }
    }
}

/// Reads just the size fields of an encoded image: the PNG stream header
/// when the bytes carry the PNG signature, the bitmap header otherwise.
fn decode_size_bytes(data: &Vec<u8>) -> (r: Result<(u32, u32), IcoError>)
    ensures
        match r {
            Ok(wh) => spec_decode_size(data@) == Some(wh),
            Err(e) => e == IcoError::MalformedInput && spec_decode_size(data@) is None,
        },
{
    let png = data.len() >= 4 && data[0] == 0x89 && data[1] == 0x50 && data[2] == 0x4e && data[3]
        == 0x47;
    if png {
        match crate::pngio::png_read_info(data.as_slice()) {
            Some((w, h, depth)) => {
                if w >= 1 && h >= 1 && depth == 8 {
                    Ok((w, h))
                } else {
                    Err(IcoError::MalformedInput)
                }
            },
            None => Err(IcoError::MalformedInput),
        }
    } else {
        IconImage::read_bmp_size(data.as_slice())
    }
}

/// A collection of images; the contents of a single ICO or CUR file.
#[derive(Debug)]
pub struct IconDir {
    restype: ResourceType,
    entries: Vec<IconDirEntry>,
}

/// The mathematical content of an [`IconDir`].
pub struct DirView {
    /// Whether the directory holds icons or cursors.
    pub restype: ResourceType,
    /// The entries, in order.
    pub entries: Seq<EntryView>,
}

impl DirView {
    /// Well-formedness: every entry is well formed and shares the
    /// directory's resource type.
    pub open spec fn wf(self) -> bool {
        forall|i: int|
            0 <= i < self.entries.len() ==> (#[trigger] self.entries[i]).wf()
                && self.entries[i].restype == self.restype
    }
}

impl View for IconDir {
    type V = DirView;

    closed spec fn view(&self) -> DirView {
        DirView {
            restype: self.restype,
            entries: Seq::new(self.entries@.len(), |i: int| self.entries@[i]@),
        }
    }
}

impl Clone for IconDir {
    /// Returns a copy of the collection.
    fn clone(&self) -> (r: Self)
        ensures
            r@ == self@,
    {
        proof {
            use_type_invariant(self);
        }
        let mut entries: Vec<IconDirEntry> = Vec::new();
        let mut k: usize = 0;
        while k < self.entries.len()
            invariant
                k <= self.entries@.len(),
                entries@.len() == k,
                forall|i: int| 0 <= i < k ==> (#[trigger] entries@[i])@ == self@.entries[i],
            decreases self.entries@.len() - k,
        {
            proof {
                use_type_invariant(self);
            }
            entries.push(self.entries[k].clone());
            k = k + 1;
        }
        let r = IconDir { restype: self.restype, entries };
        proof {
            use_type_invariant(self);
            assert(r@.entries =~= self@.entries);
        }
        r
    }
}

impl IconDir {
    #[verifier::type_invariant]
    pub(crate) open spec fn type_inv(self) -> bool {
        self@.wf()
    }

    /// Creates a new, empty collection of icons/cursors.
    pub fn new(resource_type: ResourceType) -> (r: IconDir)
        ensures
            r@ == (DirView { restype: resource_type, entries: Seq::<EntryView>::empty() }),
    {
        let r = IconDir { restype: resource_type, entries: Vec::new() };
        proof {
            assert(r@.entries =~= Seq::<EntryView>::empty());
        }
        r
    }

    /// Returns the type of resource stored in this collection, either icons
    /// or cursors.
    pub fn resource_type(&self) -> (r: ResourceType)
        ensures
            r == self@.restype,
    {
        self.restype
    }

    /// Returns the entries in this collection.
    pub fn entries(&self) -> (r: &[IconDirEntry])
        ensures
            r@.len() == self@.entries.len(),
            forall|i: int| 0 <= i < r@.len() ==> (#[trigger] r@[i])@ == self@.entries[i],
            self@.wf(),
    {
        proof {
            use_type_invariant(self);
        }
        self.entries.as_slice()
    }

    /// Adds an entry to the collection; the entry's resource type must
    /// match the collection's.
    pub fn add_entry(&mut self, entry: IconDirEntry)
        requires
            entry@.restype == old(self)@.restype,
        ensures
            final(self)@.restype == old(self)@.restype,
            final(self)@.entries == old(self)@.entries.push(entry@),
    {
        proof {
            use_type_invariant(&*self);
            use_type_invariant(&entry);
        }
        let ghost pre = self@.entries;
        let ghost ev = entry@;
        let mut moved: Vec<IconDirEntry> = Vec::new();
        core::mem::swap(&mut self.entries, &mut moved);
        proof {
            assert(self@.entries =~= Seq::<EntryView>::empty());
        }
        moved.push(entry);
        proof {
            assert forall|i: int|
                0 <= i < moved@.len() implies (#[trigger] moved@[i])@.wf() && moved@[i]@.restype
                == self@.restype by {
                if i < moved@.len() - 1 {
                    assert(moved@[i]@ == pre[i]);
                } else {
                    assert(moved@[i]@ == ev);
                }
            }
        }
        core::mem::swap(&mut self.entries, &mut moved);
        proof {
            assert(self@.entries =~= pre.push(ev));
        }
    }

    /// Adds an entry to the collection if its resource type matches the
    /// collection's, and reports an invalid-usage error otherwise, leaving
    /// the collection unchanged.
    pub fn try_add_entry(&mut self, entry: IconDirEntry) -> (r: Result<(), IcoError>)
        ensures
            final(self)@.restype == old(self)@.restype,
            if entry@.restype == old(self)@.restype {
                r is Ok && final(self)@.entries == old(self)@.entries.push(entry@)
            } else {
                r == Err::<(), IcoError>(IcoError::InvalidUsage) && final(self)@ == old(self)@
            },
    {
        let matches_type = {
            let a = self.resource_type();
            let b = entry.resource_type();
            match (a, b) {
                (ResourceType::Icon, ResourceType::Icon) => true,
                (ResourceType::Cursor, ResourceType::Cursor) => true,
                _ => false,
            }
        };
        if matches_type {
            self.add_entry(entry);
            Ok(())
        } else {
            Err(IcoError::InvalidUsage)
        }
    }
}

// ---------------------------------------------------------------------------
// The container file format
// ---------------------------------------------------------------------------
/// The entry count stored in a directory header.
pub open spec fn dir_count(data: Seq<u8>) -> int {
    le16_at(data, 4) as int
}

/// Offset of directory record `k`: records follow the 6-byte header, 16
/// bytes each.
pub open spec fn rec_off(k: int) -> int {
    6 + 16 * k
}

/// The payload size field of record `k`.
pub open spec fn rec_size(data: Seq<u8>, k: int) -> int {
    le32_at(data, rec_off(k) + 8) as int
}

/// The absolute payload offset field of record `k`.
pub open spec fn rec_offset(data: Seq<u8>, k: int) -> int {
    le32_at(data, rec_off(k) + 12) as int
}

/// Whether a byte stream parses as a directory: a zero reserved field, a
/// known resource type, all records present with zero reserved bytes, and
/// every payload span inside the stream.
pub open spec fn dir_parse_ok(data: Seq<u8>) -> bool {
    &&& data.len() >= 6
    &&& le16_at(data, 0) == 0
    &&& ResourceType::spec_from_number(le16_at(data, 2)) is Some
    &&& data.len() >= 6 + 16 * dir_count(data)
    &&& forall|k: int| 0 <= k < dir_count(data) ==> data[#[trigger] rec_off(k) + 3] == 0
    &&& forall|k: int|
        0 <= k < dir_count(data) ==> #[trigger] rec_offset(data, k) + rec_size(data, k)
            <= data.len()
}

/// The payload bytes of record `k`.
pub open spec fn rec_payload(data: Seq<u8>, k: int) -> Seq<u8> {
    data.subrange(rec_offset(data, k), rec_offset(data, k) + rec_size(data, k))
}

/// The width the directory alone gives entry `k`: one byte, with 0 standing
/// for 256, since the field cannot hold 256 itself.
pub open spec fn rec_width0(data: Seq<u8>, k: int) -> u32 {
    if data[rec_off(k)] == 0 {
        256
    } else {
        data[rec_off(k)] as u32
    }
}

/// The height the directory alone gives entry `k`, with the same sentinel.
pub open spec fn rec_height0(data: Seq<u8>, k: int) -> u32 {
    if data[rec_off(k) + 1] == 0 {
        256
    } else {
        data[rec_off(k) + 1] as u32
    }
}

/// The entry that reading a directory yields for record `k`: the record's
/// fields and payload, with the width and height refined from the payload's
/// own header where that peek succeeds.
pub open spec fn spec_read_entry(data: Seq<u8>, k: int) -> EntryView {
    let payload = rec_payload(data, k);
    let wh = match spec_decode_size(payload) {
        Some(wh) => wh,
        None => (rec_width0(data, k), rec_height0(data, k)),
    };
    EntryView {
        restype: ResourceType::spec_from_number(le16_at(data, 2))->Some_0,
        width: wh.0,
        height: wh.1,
        num_colors: data[rec_off(k) + 2],
        color_planes: le16_at(data, rec_off(k) + 4),
        bits_per_pixel: le16_at(data, rec_off(k) + 6),
        data: payload,
    }
}

/// Total bytes of the payloads of the first `k` entries.
pub open spec fn payloads_len_prefix(entries: Seq<EntryView>, k: int) -> int
    decreases k,
{
    if k <= 0 {
        0
    } else {
        payloads_len_prefix(entries, k - 1) + entries[k - 1].data.len()
    }
}

/// Payload prefix sums grow with the entry count.
pub proof fn lemma_payloads_prefix_mono(entries: Seq<EntryView>, i: int, j: int)
    requires
        0 <= i <= j,
    ensures
        payloads_len_prefix(entries, i) <= payloads_len_prefix(entries, j),
    decreases j,
{
    if i < j {
        lemma_payloads_prefix_mono(entries, i, j - 1);
    }
}

/// A size byte written for a directory record: 0 stands in for any size of
/// 256 or more.
pub open spec fn clamp_byte(v: u32) -> u8 {
    if v > 255 {
        0
    } else {
        v as u8
    }
}

/// The 16 bytes of one directory record, given its payload's offset.
pub open spec fn spec_record_bytes(e: EntryView, offset: int) -> Seq<u8> {
    seq![clamp_byte(e.width), clamp_byte(e.height), e.num_colors, 0u8] + u16_bytes(e.color_planes)
        + u16_bytes(e.bits_per_pixel) + u32_bytes(e.data.len() as u32) + u32_bytes(offset as u32)
}

/// The records of the first `k` entries, with payload offsets laid out
/// sequentially from `base`.
pub open spec fn spec_records(entries: Seq<EntryView>, base: int, k: int) -> Seq<u8>
    decreases k,
{
    if k <= 0 {
        Seq::empty()
    } else {
        spec_records(entries, base, k - 1) + spec_record_bytes(
            entries[k - 1],
            base + payloads_len_prefix(entries, k - 1),
        )
    }
}

/// The payloads of the first `k` entries, concatenated in entry order.
pub open spec fn spec_payloads(entries: Seq<EntryView>, k: int) -> Seq<u8>
    decreases k,
{
    if k <= 0 {
        Seq::empty()
    } else {
        spec_payloads(entries, k - 1) + entries[k - 1].data
    }
}

/// The bytes that writing a directory produces: the 6-byte header, the 16-
/// byte records, then the payloads.
pub open spec fn spec_dir_bytes(dv: DirView) -> Seq<u8> {
    let n = dv.entries.len() as int;
    u16_bytes(0) + u16_bytes(dv.restype.spec_number()) + u16_bytes(n as u16) + spec_records(
        dv.entries,
        6 + 16 * n,
        n,
    ) + spec_payloads(dv.entries, n)
}

/// The size of the file that writing a directory produces.
pub open spec fn spec_dir_file_size(dv: DirView) -> int {
    6 + 16 * dv.entries.len() + payloads_len_prefix(dv.entries, dv.entries.len() as int)
}

impl IconDir {
    /// Reads an ICO or CUR file from its bytes: the header, the directory
    /// records, and each record's payload, refining each entry's width and
    /// height from the payload's own header where that peek succeeds (the
    /// one-byte directory fields cannot express sizes above 256).
    #[verifier::loop_isolation(false)]
    pub fn read(data: &[u8]) -> (r: Result<IconDir, IcoError>)
        ensures
            match r {
                Ok(dir) => {
                    &&& dir_parse_ok(data@)
                    &&& dir@.restype == ResourceType::spec_from_number(le16_at(data@, 2))->Some_0
                    &&& dir@.entries.len() == dir_count(data@)
                    &&& forall|k: int|
                        0 <= k < dir_count(data@) ==> dir@.entries[k] == spec_read_entry(data@, k)
                },
                Err(e) => e == IcoError::MalformedInput && !dir_parse_ok(data@),
            },
    {
        let len = data.len();
        if len < 6 {
            return Err(IcoError::MalformedInput);
        }
        let reserved = get_u16(data, 0);
        if reserved != 0 {
            return Err(IcoError::MalformedInput);
        }
        let restype = match ResourceType::from_number(get_u16(data, 2)) {
            Some(restype) => restype,
            None => {
                return Err(IcoError::MalformedInput);
            },
        };
        let n = get_u16(data, 4) as usize;
        if len < 6 + 16 * n {
            return Err(IcoError::MalformedInput);
        }
        let mut entries: Vec<IconDirEntry> = Vec::new();
        let mut k: usize = 0;
        while k < n
            invariant
                k <= n,
                entries@.len() == k,
                forall|i: int| 0 <= i < k ==> (#[trigger] entries@[i])@ == spec_read_entry(
                    data@,
                    i,
                ),
                forall|i: int| 0 <= i < k ==> data@[#[trigger] rec_off(i) + 3] == 0,
                forall|i: int|
                    0 <= i < k ==> #[trigger] rec_offset(data@, i) + rec_size(data@, i)
                        <= data@.len(),
            decreases n - k,
        {
            let off = 6 + 16 * k;
            if data[off + 3] != 0 {
                proof {
                    assert(!dir_parse_ok(data@)) by {
                        if dir_parse_ok(data@) {
                            assert(data@[rec_off(k as int) + 3] == 0);
                        }
                    }
                }
                return Err(IcoError::MalformedInput);
            }
            let w0: u32 = if data[off] == 0 {
                256
            } else {
                data[off] as u32
            };
            let h0: u32 = if data[off + 1] == 0 {
                256
            } else {
                data[off + 1] as u32
            };
            let num_colors = data[off + 2];
            let color_planes = get_u16(data, off + 4);
            let bits_per_pixel = get_u16(data, off + 6);
            let size = get_u32(data, off + 8);
            let offset = get_u32(data, off + 12);
            if (offset as u64) + (size as u64) > len as u64 {
                proof {
                    assert(!dir_parse_ok(data@)) by {
                        if dir_parse_ok(data@) {
                            assert(rec_offset(data@, k as int) + rec_size(data@, k as int)
                                <= data@.len());
                        }
                    }
                }
                return Err(IcoError::MalformedInput);
            }
            let payload: Vec<u8> = vstd::slice::slice_to_vec(
                &data[offset as usize..offset as usize + size as usize],
            );
            proof {
                assert(payload@ == rec_payload(data@, k as int));
            }
            let (width, height) = match decode_size_bytes(&payload) {
                Ok(wh) => wh,
                Err(_) => (w0, h0),
            };
            let entry = IconDirEntry {
                restype,
                width,
                height,
                num_colors,
                color_planes,
                bits_per_pixel,
                data: payload,
            };
            entries.push(entry);
            proof {
                assert(entries@[k as int]@ == spec_read_entry(data@, k as int));
            }
            k = k + 1;
        }
        let dir = IconDir { restype, entries };
        proof {
            assert(dir@.entries.len() == n);
            assert(forall|i: int|
                0 <= i < n ==> dir@.entries[i] == (#[trigger] entries@[i])@);
        }
        Ok(dir)
    }

    /// Writes the directory as the bytes of an ICO or CUR file: the 6-byte
    /// header, one 16-byte record per entry with sequential payload offsets,
    /// then the payloads in entry order.  Fails with an invalid-usage error
    /// if the directory holds more than 65535 entries.  The file must fit
    /// the records' 32-bit size and offset fields, which is what the
    /// precondition asks.
    #[verifier::loop_isolation(false)]
    #[verifier::rlimit(80)]
    pub fn write(&self) -> (r: Result<Vec<u8>, IcoError>)
        requires
            spec_dir_file_size(self@) <= 0xFFFF_FFFF,
        ensures
            if self@.entries.len() > 65535 {
                r == Err::<Vec<u8>, IcoError>(IcoError::InvalidUsage)
            } else {
                r is Ok && r->Ok_0@ == spec_dir_bytes(self@)
            },
    {
        let n = self.entries.len();
        if n > 65535 {
            return Err(IcoError::InvalidUsage);
        }
        let ghost ev = self@.entries;
        let ghost base = 6 + 16 * (n as int);
        let mut out: Vec<u8> = Vec::new();
        put_u16(&mut out, 0);
        put_u16(&mut out, self.restype.number());
        put_u16(&mut out, n as u16);
        let ghost hdr = u16_bytes(0) + u16_bytes(self@.restype.spec_number()) + u16_bytes(
            n as u16,
        );
        proof {
            assert(out@ =~= hdr);
            assert(out@ =~= hdr + spec_records(ev, base, 0));
        }
        let mut offset: u32 = 6 + 16 * (n as u32);
        let mut k: usize = 0;
        while k < n
            invariant
                k <= n,
                offset as int == base + payloads_len_prefix(ev, k as int),
                out@ == hdr + spec_records(ev, base, k as int),
            decreases n - k,
        {
            proof {
                lemma_payloads_prefix_mono(ev, k as int + 1, n as int);
            }
            let e = &self.entries[k];
            proof {
                use_type_invariant(e);
                assert(e@ == ev[k as int]);
            }
            let ghost pre_rec = out@;
            let ghost rec = spec_record_bytes(ev[k as int], offset as int);
            let wbyte: u8 = if e.width > 255 {
                0
            } else {
                e.width as u8
            };
            let hbyte: u8 = if e.height > 255 {
                0
            } else {
                e.height as u8
            };
            out.push(wbyte);
            out.push(hbyte);
            out.push(e.num_colors);
            out.push(0);
            proof {
                assert(out@ =~= pre_rec + seq![
                    clamp_byte(ev[k as int].width),
                    clamp_byte(ev[k as int].height),
                    ev[k as int].num_colors,
                    0u8,
                ]);
            }
            put_u16(&mut out, e.color_planes);
            put_u16(&mut out, e.bits_per_pixel);
            let size: u32 = e.data.len() as u32;
            put_u32(&mut out, size);
            put_u32(&mut out, offset);
            proof {
                assert(out@ =~= pre_rec + rec);
                assert(spec_records(ev, base, k as int + 1) == spec_records(ev, base, k as int)
                    + rec);
                assert(out@ =~= hdr + spec_records(ev, base, k as int + 1));
            }
            offset = offset + size;
            k = k + 1;
        }
        proof {
            lemma_payloads_prefix_mono(ev, 0, n as int);
            assert(out@ =~= hdr + spec_records(ev, base, n as int) + spec_payloads(ev, 0));
        }
        let mut k2: usize = 0;
        while k2 < n
            invariant
                k2 <= n,
                out@ == hdr + spec_records(ev, base, n as int) + spec_payloads(ev, k2 as int),
            decreases n - k2,
        {
            let e = &self.entries[k2];
            out.extend_from_slice(e.data.as_slice());
            proof {
                assert(e@ == ev[k2 as int]);
                assert(out@ =~= hdr + spec_records(ev, base, n as int) + spec_payloads(
                    ev,
                    k2 as int + 1,
                ));
            }
            k2 = k2 + 1;
        }
        proof {
            assert(out@ =~= spec_dir_bytes(self@));
        }
        Ok(out)
    }
}

/// Law: the legacy bitmap path round-trips.  An entry produced by the
/// bitmap encoder for a well-formed raster decodes back to that very
/// raster: the same width and height, byte-exact RGBA data, and the
/// hotspot carried through the entry.  The bounds keep the image inside
/// what the 32-bit header fields and the machine's addresses can express;
/// `pal` witnesses the encoder's color table (the distinct colors in
/// ascending packed order) at the palettized depths, and is empty at the
/// direct-color depths.
#[verifier::rlimit(80)]
pub proof fn lemma_entry_bmp_round_trip(img: ImageView, pal: Seq<u32>)
    requires
        img.wf(),
        img.width <= 0x7FFF_FFFF,
        img.height <= 0x3FFF_FFFF,
        (img.width as int) * (img.height as int) <= 0xFFFF_FFFF,
        4 * ((img.width as int) * (img.height as int)) <= usize::MAX,
        ({
            let depth = spec_select_depth(img.rgba);
            match depth {
                BmpDepth::One | BmpDepth::Four | BmpDepth::Eight => {
                    &&& crate::stats::sorted_strict(pal)
                    &&& pal.to_set() == crate::stats::spec_colors(img.rgba)
                },
                _ => pal == Seq::<u32>::empty(),
            }
        }),
    ensures
        spec_entry_hotspot(spec_bmp_entry(img)) == img.hotspot,
        spec_entry_decode(spec_bmp_entry(img)) == Some(img),
        !is_png_data(spec_bmp_entry(img).data),
        spec_decode_size(spec_bmp_entry(img).data) == Some((img.width, img.height)),
{
    let w = img.width;
    let h = img.height;
    let rgba = img.rgba;
    let depth = spec_select_depth(rgba);
    let entry = spec_bmp_entry(img);
    assert(enc_dims(rgba, w as int, h as int)) by {
        vstd::arithmetic::mul::lemma_mul_is_associative(4, w as int, h as int);
    }
    // the encoder's color table is exactly the witness
    match depth {
        BmpDepth::One | BmpDepth::Four | BmpDepth::Eight => {
            let q = sorted_seq_of(crate::stats::spec_colors(rgba));
            assert(crate::stats::sorted_strict(pal) && pal.to_set() == crate::stats::spec_colors(
                rgba,
            ));
            assert(crate::stats::sorted_strict(q) && q.to_set() == crate::stats::spec_colors(
                rgba,
            ));
            crate::stats::lemma_sorted_strict_equal(q, pal);
        },
        _ => {
            assert(spec_bmp_palette(rgba) =~= pal);
        },
    }
    assert(spec_bmp_palette(rgba) == pal);
    lemma_bmp_round_trip(w, h, rgba, pal);
    // the encoding does not carry the PNG signature: its first byte is the
    // header-length field's low byte, 40
    lemma_enc_layout(w, h, depth, pal, rgba);
    let data = entry.data;
    assert(!is_png_data(data)) by {
        assert(data.subrange(0, 40)[0] == data[0]);
        assert(data[0] == 40);
    }
    assert(spec_entry_decode(entry) == Some(img)) by {
        assert(bmp_ok(data) && bmp_width(data) == w as int && bmp_height(data) == h as int);
        let dec = spec_entry_decode(entry)->Some_0;
        assert(dec.rgba == img.rgba);
        assert(dec.hotspot == spec_entry_hotspot(entry));
        assert(spec_entry_hotspot(entry) == img.hotspot);
    }
    assert(spec_decode_size(data) == Some((img.width, img.height))) by {
        assert(bmp_size_ok(data));
        assert(bmp_width(data) == w as int && bmp_height(data) == h as int);
    }
}

/// Law: the whole bitmap-path round trip of the container.  Encoding a
/// well-formed raster as a bitmap entry, writing a one-entry directory,
/// reading the bytes back, and decoding the recovered entry yields the very
/// raster that went in: the same width and height, byte-exact RGBA data,
/// and the hotspot carried through for cursors.
pub proof fn lemma_file_bmp_round_trip(img: ImageView, pal: Seq<u32>)
    requires
        img.wf(),
        img.width <= 0x7FFF_FFFF,
        img.height <= 0x3FFF_FFFF,
        (img.width as int) * (img.height as int) <= 0xFFFF_FFFF,
        4 * ((img.width as int) * (img.height as int)) <= usize::MAX,
        ({
            let depth = spec_select_depth(img.rgba);
            match depth {
                BmpDepth::One | BmpDepth::Four | BmpDepth::Eight => {
                    &&& crate::stats::sorted_strict(pal)
                    &&& pal.to_set() == crate::stats::spec_colors(img.rgba)
                },
                _ => pal == Seq::<u32>::empty(),
            }
        }),
        22 + spec_bmp_entry(img).data.len() <= 0xFFFF_FFFF,
    ensures
        ({
            let entry = spec_bmp_entry(img);
            let dv = DirView { restype: entry.restype, entries: seq![entry] };
            let bytes = spec_dir_bytes(dv);
            &&& dir_parse_ok(bytes)
            &&& ResourceType::spec_from_number(le16_at(bytes, 2)) == Some(entry.restype)
            &&& dir_count(bytes) == 1
            &&& spec_read_entry(bytes, 0) == entry
            &&& spec_entry_decode(entry) == Some(img)
        }),
{
    lemma_entry_bmp_round_trip(img, pal);
    let entry = spec_bmp_entry(img);
    let dv = DirView { restype: entry.restype, entries: seq![entry] };
    assert(dv.wf()) by {
        assert(dv.entries[0] == entry);
    }
    assert(spec_dir_file_size(dv) <= 0xFFFF_FFFF) by {
        assert(payloads_len_prefix(dv.entries, 1) == entry.data.len());
    }
    assert(forall|k: int|
        0 <= k < dv.entries.len() ==> spec_decode_size((#[trigger] dv.entries[k]).data) == Some(
            (dv.entries[k].width, dv.entries[k].height),
        )) by {
        assert(dv.entries[0] == entry);
    }
    lemma_dir_round_trip(dv);
}

/// The records block of `k` entries holds 16 bytes per entry.
proof fn lemma_records_len(entries: Seq<EntryView>, base: int, k: int)
    requires
        0 <= k,
    ensures
        spec_records(entries, base, k).len() == 16 * k,
    decreases k,
{
    if k > 0 {
        lemma_records_len(entries, base, k - 1);
    }
}

/// The payloads block of `k` entries is as long as their sizes sum.
proof fn lemma_payloads_len(entries: Seq<EntryView>, k: int)
    requires
        0 <= k,
    ensures
        spec_payloads(entries, k).len() == payloads_len_prefix(entries, k),
        payloads_len_prefix(entries, k) >= 0,
    decreases k,
{
    if k > 0 {
        lemma_payloads_len(entries, k - 1);
    }
}

/// Record `k` of the records block reads back as the record written for
/// entry `k`, at its sequential payload offset.
proof fn lemma_records_index(entries: Seq<EntryView>, base: int, n: int, k: int)
    requires
        0 <= k < n,
    ensures
        spec_records(entries, base, n).subrange(16 * k, 16 * k + 16) == spec_record_bytes(
            entries[k],
            base + payloads_len_prefix(entries, k),
        ),
    decreases n,
{
    lemma_records_len(entries, base, n);
    lemma_records_len(entries, base, n - 1);
    if k == n - 1 {
        assert(spec_records(entries, base, n).subrange(16 * k, 16 * k + 16)
            =~= spec_record_bytes(entries[k], base + payloads_len_prefix(entries, k)));
    } else {
        lemma_records_index(entries, base, n - 1, k);
        assert(spec_records(entries, base, n).subrange(16 * k, 16 * k + 16) =~= spec_records(
            entries,
            base,
            n - 1,
        ).subrange(16 * k, 16 * k + 16));
    }
}

/// Payload `k` of the payloads block reads back as entry `k`'s data.
proof fn lemma_payloads_index(entries: Seq<EntryView>, n: int, k: int)
    requires
        0 <= k < n,
    ensures
        spec_payloads(entries, n).subrange(
            payloads_len_prefix(entries, k),
            payloads_len_prefix(entries, k) + entries[k].data.len(),
        ) == entries[k].data,
    decreases n,
{
    lemma_payloads_len(entries, n);
    lemma_payloads_len(entries, n - 1);
    lemma_payloads_len(entries, k);
    if k == n - 1 {
        assert(spec_payloads(entries, n).subrange(
            payloads_len_prefix(entries, k),
            payloads_len_prefix(entries, k) + entries[k].data.len(),
        ) =~= entries[k].data);
    } else {
        lemma_payloads_index(entries, n - 1, k);
        lemma_payloads_prefix_mono(entries, k + 1, n - 1);
        assert(spec_payloads(entries, n).subrange(
            payloads_len_prefix(entries, k),
            payloads_len_prefix(entries, k) + entries[k].data.len(),
        ) =~= spec_payloads(entries, n - 1).subrange(
            payloads_len_prefix(entries, k),
            payloads_len_prefix(entries, k) + entries[k].data.len(),
        ));
    }
}

/// Reading back record `k` of a written directory recovers the record's
/// fields and its exact payload bytes.
#[verifier::rlimit(60)]
proof fn lemma_read_record(dv: DirView, k: int)
    requires
        dv.entries.len() <= 65535,
        spec_dir_file_size(dv) <= 0xFFFF_FFFF,
        0 <= k < dv.entries.len(),
    ensures
        ({
            let bytes = spec_dir_bytes(dv);
            let e = dv.entries[k];
            &&& bytes[rec_off(k) + 3] == 0
            &&& rec_size(bytes, k) == e.data.len()
            &&& rec_offset(bytes, k) == 6 + 16 * dv.entries.len() + payloads_len_prefix(
                dv.entries,
                k,
            )
            &&& rec_offset(bytes, k) + rec_size(bytes, k) <= bytes.len()
            &&& rec_payload(bytes, k) == e.data
            &&& bytes[rec_off(k)] == clamp_byte(e.width)
            &&& bytes[rec_off(k) + 1] == clamp_byte(e.height)
            &&& bytes[rec_off(k) + 2] == e.num_colors
            &&& le16_at(bytes, rec_off(k) + 4) == e.color_planes
            &&& le16_at(bytes, rec_off(k) + 6) == e.bits_per_pixel
        }),
{
    let n = dv.entries.len() as int;
    let base = 6 + 16 * n;
    let ev = dv.entries;
    let e = ev[k];
    let bytes = spec_dir_bytes(dv);
    let hdr = u16_bytes(0) + u16_bytes(dv.restype.spec_number()) + u16_bytes(n as u16);
    let records = spec_records(ev, base, n);
    let payloads = spec_payloads(ev, n);
    lemma_records_len(ev, base, n);
    lemma_payloads_len(ev, n);
    lemma_payloads_len(ev, k);
    lemma_payloads_prefix_mono(ev, 0, k);
    lemma_payloads_prefix_mono(ev, k + 1, n);
    assert(hdr.len() == 6);
    assert(bytes.len() == base + payloads_len_prefix(ev, n));
    lemma_records_index(ev, base, n, k);
    let prefix = payloads_len_prefix(ev, k);
    let rec = spec_record_bytes(e, base + prefix);
    assert forall|j: int| 0 <= j < 16 implies bytes[rec_off(k) + j] == rec[j] by {
        assert(bytes[6 + 16 * k + j] == records[16 * k + j]);
        assert(records.subrange(16 * k, 16 * k + 16)[j] == records[16 * k + j]);
    }
    assert(rec[3] == 0);
    assert(rec[0] == clamp_byte(e.width) && rec[1] == clamp_byte(e.height) && rec[2]
        == e.num_colors);
    assert(bytes.subrange(rec_off(k) + 4, rec_off(k) + 6) =~= u16_bytes(e.color_planes)) by {
        assert(bytes[rec_off(k) + 4] == rec[4] && rec[4] == u16_bytes(e.color_planes)[0]);
        assert(bytes[rec_off(k) + 5] == rec[5] && rec[5] == u16_bytes(e.color_planes)[1]);
    }
    crate::bytes::lemma_u16_bytes_round_trip(e.color_planes, bytes, rec_off(k) + 4);
    assert(bytes.subrange(rec_off(k) + 6, rec_off(k) + 8) =~= u16_bytes(e.bits_per_pixel)) by {
        assert(bytes[rec_off(k) + 6] == rec[6] && rec[6] == u16_bytes(e.bits_per_pixel)[0]);
        assert(bytes[rec_off(k) + 7] == rec[7] && rec[7] == u16_bytes(e.bits_per_pixel)[1]);
    }
    crate::bytes::lemma_u16_bytes_round_trip(e.bits_per_pixel, bytes, rec_off(k) + 6);
    assert(e.data.len() <= 0xFFFF_FFFF);
    assert(bytes.subrange(rec_off(k) + 8, rec_off(k) + 12) =~= u32_bytes(e.data.len() as u32))
        by {
        assert(bytes[rec_off(k) + 8] == rec[8] && rec[8] == u32_bytes(e.data.len() as u32)[0]);
        assert(bytes[rec_off(k) + 9] == rec[9] && rec[9] == u32_bytes(e.data.len() as u32)[1]);
        assert(bytes[rec_off(k) + 10] == rec[10] && rec[10] == u32_bytes(e.data.len() as u32)[2]);
        assert(bytes[rec_off(k) + 11] == rec[11] && rec[11] == u32_bytes(e.data.len() as u32)[3]);
    }
    crate::bytes::lemma_u32_bytes_round_trip(e.data.len() as u32, bytes, rec_off(k) + 8);
    assert(base + prefix <= 0xFFFF_FFFF);
    assert(bytes.subrange(rec_off(k) + 12, rec_off(k) + 16) =~= u32_bytes((base + prefix) as u32))
        by {
        assert(bytes[rec_off(k) + 12] == rec[12] && rec[12] == u32_bytes((base + prefix) as u32)[0]);
        assert(bytes[rec_off(k) + 13] == rec[13] && rec[13] == u32_bytes((base + prefix) as u32)[1]);
        assert(bytes[rec_off(k) + 14] == rec[14] && rec[14] == u32_bytes((base + prefix) as u32)[2]);
        assert(bytes[rec_off(k) + 15] == rec[15] && rec[15] == u32_bytes((base + prefix) as u32)[3]);
    }
    crate::bytes::lemma_u32_bytes_round_trip((base + prefix) as u32, bytes, rec_off(k) + 12);
    assert(rec_offset(bytes, k) == base + prefix);
    assert(rec_size(bytes, k) == e.data.len());
    lemma_payloads_index(ev, n, k);
    assert(rec_payload(bytes, k) =~= e.data) by {
        assert forall|i: int| 0 <= i < e.data.len() implies bytes[base + prefix + i] == e.data[i] by {
            assert(bytes[base + (prefix + i)] == payloads[prefix + i]);
            assert(payloads.subrange(prefix, prefix + e.data.len())[i] == payloads[prefix + i]);
        }
    }
}

/// Law: writing a directory and reading the bytes back recovers it.  The
/// hypothesis on each entry says its payload's own header agrees with the
/// entry about its size, which holds of every entry the encoders produce;
/// the reader re-derives the sizes from the payloads because the one-byte
/// record fields cannot express them all.
pub proof fn lemma_dir_round_trip(dv: DirView)
    requires
        dv.wf(),
        dv.entries.len() <= 65535,
        spec_dir_file_size(dv) <= 0xFFFF_FFFF,
        forall|k: int|
            0 <= k < dv.entries.len() ==> spec_decode_size((#[trigger] dv.entries[k]).data)
                == Some((dv.entries[k].width, dv.entries[k].height)),
    ensures
        ({
            let bytes = spec_dir_bytes(dv);
            &&& dir_parse_ok(bytes)
            &&& ResourceType::spec_from_number(le16_at(bytes, 2)) == Some(dv.restype)
            &&& dir_count(bytes) == dv.entries.len()
            &&& forall|k: int|
                0 <= k < dv.entries.len() ==> spec_read_entry(bytes, k) == dv.entries[k]
        }),
{
    let n = dv.entries.len() as int;
    let base = 6 + 16 * n;
    let ev = dv.entries;
    let bytes = spec_dir_bytes(dv);
    let hdr = u16_bytes(0) + u16_bytes(dv.restype.spec_number()) + u16_bytes(n as u16);
    lemma_records_len(ev, base, n);
    lemma_payloads_len(ev, n);
    assert(hdr.len() == 6);
    assert(bytes.len() == base + payloads_len_prefix(ev, n));
    assert(bytes.subrange(0, 2) =~= u16_bytes(0));
    crate::bytes::lemma_u16_bytes_round_trip(0, bytes, 0);
    assert(bytes.subrange(2, 4) =~= u16_bytes(dv.restype.spec_number()));
    crate::bytes::lemma_u16_bytes_round_trip(dv.restype.spec_number(), bytes, 2);
    crate::restype::lemma_resource_type_round_trip(dv.restype);
    assert(bytes.subrange(4, 6) =~= u16_bytes(n as u16));
    crate::bytes::lemma_u16_bytes_round_trip(n as u16, bytes, 4);
    assert(dir_count(bytes) == n);
    assert forall|k: int| 0 <= k < n implies bytes[#[trigger] rec_off(k) + 3] == 0 by {
        lemma_read_record(dv, k);
    }
    assert forall|k: int|
        0 <= k < n implies #[trigger] rec_offset(bytes, k) + rec_size(bytes, k)
        <= bytes.len() by {
        lemma_read_record(dv, k);
    }
    assert(dir_parse_ok(bytes));
    assert forall|k: int| 0 <= k < n implies spec_read_entry(bytes, k) == dv.entries[k] by {
        lemma_read_record(dv, k);
        let e = dv.entries[k];
        assert(rec_payload(bytes, k) == e.data);
        assert(spec_decode_size(e.data) == Some((e.width, e.height)));
        assert(spec_read_entry(bytes, k).restype == e.restype);
        assert(spec_read_entry(bytes, k).width == e.width);
        assert(spec_read_entry(bytes, k).height == e.height);
        assert(spec_read_entry(bytes, k).num_colors == e.num_colors);
        assert(spec_read_entry(bytes, k).color_planes == e.color_planes);
        assert(spec_read_entry(bytes, k).bits_per_pixel == e.bits_per_pixel);
        assert(spec_read_entry(bytes, k).data == e.data);
    }
}

} // verus!
