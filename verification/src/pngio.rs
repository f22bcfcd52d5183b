//! The bridge to the external PNG codec.  The bitstream mechanics are the
//! codec's own; this module only names what its calls return, so that the
//! color-model normalization around them can be verified.

use vstd::prelude::*;

verus! {

/// Whether a byte buffer begins with the fixed four-byte PNG signature that
/// tells an embedded PNG apart from a legacy bitmap.
pub open spec fn is_png_data(data: Seq<u8>) -> bool {
    &&& data.len() >= 4
    &&& data[0] == 0x89
    &&& data[1] == 0x50
    &&& data[2] == 0x4e
    &&& data[3] == 0x47
}

/// What reading just the stream header of a PNG yields: width, height, and
/// bit depth, or nothing if the header is malformed.
pub uninterp spec fn png_info_of(data: Seq<u8>) -> Option<(u32, u32, u8)>;

/// What decoding a PNG yields: width, height, bit depth, color-type code
/// (0 grayscale, 2 RGB, 3 indexed, 4 grayscale+alpha, 6 RGBA), and the
/// packed samples, or nothing if the data cannot be decoded.
pub uninterp spec fn png_parse(data: Seq<u8>) -> Option<(u32, u32, u8, u8, Seq<u8>)>;

/// What encoding 8-bit RGBA samples as a PNG yields, or nothing if the
/// encoder rejects the request.
pub uninterp spec fn png_bytes_rgba(width: u32, height: u32, pixels: Seq<u8>) -> Option<Seq<u8>>;

/// What encoding 8-bit RGB samples as a PNG yields, or nothing if the
/// encoder rejects the request.
pub uninterp spec fn png_bytes_rgb(width: u32, height: u32, pixels: Seq<u8>) -> Option<Seq<u8>>;

/// Relies on png::Decoder::read_info: reads the stream header and reports
/// the image's width, height, and bit depth.
#[verifier::external_body]
pub(crate) fn png_read_info(data: &[u8]) -> (r: Option<(u32, u32, u8)>)
    ensures
        r == png_info_of(data@),
{
    match png::Decoder::new(data).read_info() {
        Ok(reader) => {
            let info = reader.info();
            Some((info.width, info.height, info.bit_depth as u8))
        },
        Err(_) => None,
    }
}

/// Relies on png::Reader::next_frame: decodes the first frame into packed
/// samples, reported with the image's dimensions, bit depth, and color type.
#[verifier::external_body]
pub(crate) fn png_decode(data: &[u8]) -> (r: Option<(u32, u32, u8, u8, Vec<u8>)>)
    ensures
        r is Some <==> png_parse(data@) is Some,
        r is Some ==> png_parse(data@)->Some_0 == (
            r->Some_0.0,
            r->Some_0.1,
            r->Some_0.2,
            r->Some_0.3,
            r->Some_0.4@,
        ),
{
    let decoder = png::Decoder::new(data);
    let mut reader = match decoder.read_info() {
        Ok(reader) => reader,
        Err(_) => return None,
    };
    let mut buf = vec![0u8; reader.output_buffer_size()];
    if reader.next_frame(&mut buf).is_err() {
        return None;
    }
    let info = reader.info();
    Some((info.width, info.height, info.bit_depth as u8, info.color_type as u8, buf))
}

/// Relies on png::Encoder with ColorType::Rgba at 8 bits per channel; every
/// PNG the encoder writes starts with the fixed PNG signature.
#[verifier::external_body]
pub(crate) fn png_encode_rgba(width: u32, height: u32, pixels: &Vec<u8>) -> (r: Option<Vec<u8>>)
    ensures
        r is Some <==> png_bytes_rgba(width, height, pixels@) is Some,
        r is Some ==> r->Some_0@ == png_bytes_rgba(width, height, pixels@)->Some_0,
        r is Some ==> is_png_data(r->Some_0@),
{
    let mut out: Vec<u8> = Vec::new();
    let mut enc = png::Encoder::new(&mut out, width, height);
    enc.set_depth(png::BitDepth::Eight);
    enc.set_color(png::ColorType::Rgba);
    let mut writer = match enc.write_header() {
        Ok(writer) => writer,
        Err(_) => return None,
    };
    if writer.write_image_data(pixels.as_slice()).is_err() {
        return None;
    }
    drop(writer);
    Some(out)
}

/// Relies on png::Encoder with ColorType::Rgb at 8 bits per channel; every
/// PNG the encoder writes starts with the fixed PNG signature.
#[verifier::external_body]
pub(crate) fn png_encode_rgb(width: u32, height: u32, pixels: &Vec<u8>) -> (r: Option<Vec<u8>>)
    ensures
        r is Some <==> png_bytes_rgb(width, height, pixels@) is Some,
        r is Some ==> r->Some_0@ == png_bytes_rgb(width, height, pixels@)->Some_0,
        r is Some ==> is_png_data(r->Some_0@),
{
    let mut out: Vec<u8> = Vec::new();
    let mut enc = png::Encoder::new(&mut out, width, height);
    enc.set_depth(png::BitDepth::Eight);
    enc.set_color(png::ColorType::Rgb);
    let mut writer = match enc.write_header() {
        Ok(writer) => writer,
        Err(_) => return None,
    };
    if writer.write_image_data(pixels.as_slice()).is_err() {
        return None;
    }
    drop(writer);
    Some(out)
}

} // verus!
