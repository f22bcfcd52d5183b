//! Reading and writing whole ICO/CUR files, and decoding their entries.

use ico::{IcoError, IconDir, IconDirEntry, IconImage, ResourceType};

#[test]
fn read_empty_icon_set() {
    let input = b"\x00\x00\x01\x00\x00\x00";
    let icondir = IconDir::read(input).unwrap();
    assert_eq!(icondir.resource_type(), ResourceType::Icon);
    assert_eq!(icondir.entries().len(), 0);
}

#[test]
fn read_empty_cursor_set() {
    let input = b"\x00\x00\x02\x00\x00\x00";
    let icondir = IconDir::read(input).unwrap();
    assert_eq!(icondir.resource_type(), ResourceType::Cursor);
    assert_eq!(icondir.entries().len(), 0);
}

#[test]
fn write_empty_icon_set() {
    let icondir = IconDir::new(ResourceType::Icon);
    let output = icondir.write().unwrap();
    let expected: &[u8] = b"\x00\x00\x01\x00\x00\x00";
    assert_eq!(output.as_slice(), expected);
}

#[test]
fn write_empty_cursor_set() {
    let icondir = IconDir::new(ResourceType::Cursor);
    let output = icondir.write().unwrap();
    let expected: &[u8] = b"\x00\x00\x02\x00\x00\x00";
    assert_eq!(output.as_slice(), expected);
}

#[test]
fn read_bmp_1bpp_icon() {
    let input: &[u8] = b"\
        \x00\x00\x01\x00\x01\x00\
        \
        \x02\x02\x02\x00\x01\x00\x01\x00\
        \x40\x00\x00\x00\x16\x00\x00\x00\
        \
        \x28\x00\x00\x00\x02\x00\x00\x00\x04\x00\x00\x00\
        \x01\x00\x01\x00\x00\x00\x00\x00\x00\x00\x00\x00\
        \x00\x00\x00\x00\x00\x00\x00\x00\x00\x00\x00\x00\
        \x00\x00\x00\x00\
        \
        \x55\x00\x55\x00\xff\xff\xff\x00\
        \
        \xc0\x00\x00\x00\
        \x40\x00\x00\x00\
        \
        \x40\x00\x00\x00\
        \x00\x00\x00\x00";
    let icondir = IconDir::read(input).unwrap();
    assert_eq!(icondir.resource_type(), ResourceType::Icon);
    assert_eq!(icondir.entries().len(), 1);
    let entry = &icondir.entries()[0];
    assert_eq!(entry.width(), 2);
    assert_eq!(entry.height(), 2);
    assert!(!entry.is_png());
    let image = entry.decode().unwrap();
    assert_eq!(image.width(), 2);
    assert_eq!(image.height(), 2);
    let rgba: &[u8] = b"\
        \x55\x00\x55\xff\xff\xff\xff\xff\
        \xff\xff\xff\xff\xff\xff\xff\x00";
    assert_eq!(image.rgba_data(), rgba);
}

#[test]
fn read_bmp_4bpp_icon() {
    let input: &[u8] = b"\
        \x00\x00\x01\x00\x01\x00\
        \
        \x05\x03\x10\x00\x01\x00\x04\x00\
        \x80\x00\x00\x00\x16\x00\x00\x00\
        \
        \x28\x00\x00\x00\x05\x00\x00\x00\x06\x00\x00\x00\
        \x01\x00\x04\x00\x00\x00\x00\x00\x00\x00\x00\x00\
        \x00\x00\x00\x00\x00\x00\x00\x00\x00\x00\x00\x00\
        \x00\x00\x00\x00\
        \
        \x00\x00\x00\x00\x00\x00\x00\x00\
        \x00\x00\x7f\x00\x00\x00\xff\x00\
        \x00\x7f\x00\x00\x00\xff\x00\x00\
        \x00\x7f\x7f\x00\x00\xff\xff\x00\
        \x7f\x00\x00\x00\xff\x00\x00\x00\
        \x7f\x00\x7f\x00\xff\x00\xff\x00\
        \x7f\x7f\x00\x00\xff\xff\x00\x00\
        \x7f\x7f\x7f\x00\xff\xff\xff\x00\
        \
        \x0f\x35\x00\x00\
        \xf3\x59\x10\x00\
        \x05\x91\x00\x00\
        \
        \x88\x00\x00\x00\
        \x00\x00\x00\x00\
        \x88\x00\x00\x00";
    let icondir = IconDir::read(input).unwrap();
    assert_eq!(icondir.resource_type(), ResourceType::Icon);
    assert_eq!(icondir.entries().len(), 1);
    let entry = &icondir.entries()[0];
    assert_eq!(entry.width(), 5);
    assert_eq!(entry.height(), 3);
    assert!(!entry.is_png());
    let image = entry.decode().unwrap();
    assert_eq!(image.width(), 5);
    assert_eq!(image.height(), 3);
    let rgba: &[u8] = b"\
        \x00\x00\x00\x00\x00\xff\x00\xff\x00\x00\xff\xff\
        \x00\x00\x00\xff\x00\x00\x00\x00\
        \xff\xff\xff\xff\xff\x00\x00\xff\x00\xff\x00\xff\
        \x00\x00\xff\xff\x00\x00\x00\xff\
        \x00\x00\x00\x00\xff\xff\xff\xff\xff\x00\x00\xff\
        \x00\xff\x00\xff\x00\x00\x00\x00";
    assert_eq!(image.rgba_data(), rgba);
}

#[test]
fn read_png_grayscale_icon() {
    let input: &[u8] = b"\
        \x00\x00\x01\x00\x01\x00\
        \
        \x02\x02\x00\x00\x00\x00\x00\x00\
        \x47\x00\x00\x00\x16\x00\x00\x00\
        \
        \x89\x50\x4e\x47\x0d\x0a\x1a\x0a\x00\x00\x00\x0d\x49\x48\x44\x52\
        \x00\x00\x00\x02\x00\x00\x00\x02\x08\x00\x00\x00\x00\x57\xdd\x52\
        \xf8\x00\x00\x00\x0e\x49\x44\x41\x54\x78\x9c\x63\xb4\x77\x60\xdc\
        \xef\x00\x00\x04\x08\x01\x81\x86\x2e\xc9\x8d\x00\x00\x00\x00\x49\
        \x45\x4e\x44\xae\x42\x60\x82";
    let icondir = IconDir::read(input).unwrap();
    assert_eq!(icondir.resource_type(), ResourceType::Icon);
    assert_eq!(icondir.entries().len(), 1);
    let entry = &icondir.entries()[0];
    assert_eq!(entry.width(), 2);
    assert_eq!(entry.height(), 2);
    assert!(entry.is_png());
    let image = entry.decode().unwrap();
    assert_eq!(image.width(), 2);
    assert_eq!(image.height(), 2);
    let rgba: &[u8] = b"\
        \x3f\x3f\x3f\xff\x7f\x7f\x7f\xff\
        \xbf\xbf\xbf\xff\xff\xff\xff\xff";
    assert_eq!(image.rgba_data(), rgba);
}

#[test]
fn image_data_round_trip() {
    // Create an image:
    let width = 11;
    let height = 13;
    let mut rgba = Vec::new();
    for index in 0..(width * height) {
        rgba.push(if index % 2 == 0 { 0 } else { 255 });
        rgba.push(if index % 3 == 0 { 0 } else { 255 });
        rgba.push(if index % 5 == 0 { 0 } else { 255 });
        rgba.push(if index % 7 == 0 { 128 } else { 255 });
    }
    let image = IconImage::from_rgba_data(width, height, rgba.clone());
    // Write that image into an ICO file:
    let mut icondir = IconDir::new(ResourceType::Icon);
    icondir.add_entry(IconDirEntry::encode(&image).unwrap());
    let file = icondir.write().unwrap();
    // Read the ICO file back in and make sure the image is the same:
    let icondir = IconDir::read(file.as_slice()).unwrap();
    assert_eq!(icondir.entries().len(), 1);
    let image = icondir.entries()[0].decode().unwrap();
    assert_eq!(image.width(), width);
    assert_eq!(image.height(), height);
    assert_eq!(image.rgba_data(), rgba.as_slice());
}

#[test]
fn width_sentinel_reads_as_256() {
    // A record whose width and height bytes are 0 and whose payload cannot
    // be peeked keeps the sentinel meaning: a logical size of 256.
    let input: &[u8] = b"\
        \x00\x00\x01\x00\x01\x00\
        \x00\x00\x00\x00\x01\x00\x01\x00\
        \x00\x00\x00\x00\x16\x00\x00\x00";
    let icondir = IconDir::read(input).unwrap();
    assert_eq!(icondir.entries().len(), 1);
    let entry = &icondir.entries()[0];
    assert_eq!(entry.width(), 256);
    assert_eq!(entry.height(), 256);
}

#[test]
fn png_header_refines_directory_size() {
    // The same grayscale 2x2 PNG as above, but with the record's size bytes
    // set to 0 (the "256 or more" sentinel): reading the directory refines
    // the entry's size from the PNG stream header.
    let input: &[u8] = b"\
        \x00\x00\x01\x00\x01\x00\
        \
        \x00\x00\x00\x00\x00\x00\x00\x00\
        \x47\x00\x00\x00\x16\x00\x00\x00\
        \
        \x89\x50\x4e\x47\x0d\x0a\x1a\x0a\x00\x00\x00\x0d\x49\x48\x44\x52\
        \x00\x00\x00\x02\x00\x00\x00\x02\x08\x00\x00\x00\x00\x57\xdd\x52\
        \xf8\x00\x00\x00\x0e\x49\x44\x41\x54\x78\x9c\x63\xb4\x77\x60\xdc\
        \xef\x00\x00\x04\x08\x01\x81\x86\x2e\xc9\x8d\x00\x00\x00\x00\x49\
        \x45\x4e\x44\xae\x42\x60\x82";
    let icondir = IconDir::read(input).unwrap();
    let entry = &icondir.entries()[0];
    assert_eq!(entry.width(), 2);
    assert_eq!(entry.height(), 2);
}

#[test]
fn cursor_fields_alias_hotspot() {
    let rgba = vec![255u8; 4 * 2 * 2];
    let mut image = IconImage::from_rgba_data(2, 2, rgba);
    image.set_cursor_hotspot(Some((3, 4)));
    let entry = IconDirEntry::encode_as_bmp(&image).unwrap();
    assert_eq!(entry.resource_type(), ResourceType::Cursor);
    assert_eq!(entry.bits_per_pixel(), 0);
    assert_eq!(entry.cursor_hotspot(), Some((3, 4)));
}

#[test]
fn icon_entry_has_no_hotspot() {
    let rgba = vec![255u8; 4 * 2 * 2];
    let image = IconImage::from_rgba_data(2, 2, rgba);
    let entry = IconDirEntry::encode_as_bmp(&image).unwrap();
    assert_eq!(entry.resource_type(), ResourceType::Icon);
    assert_eq!(entry.bits_per_pixel(), 1);
    assert_eq!(entry.cursor_hotspot(), None);
}

#[test]
fn type_mismatch_is_rejected() {
    let rgba = vec![255u8; 4 * 2 * 2];
    let mut cursor_image = IconImage::from_rgba_data(2, 2, rgba.clone());
    cursor_image.set_cursor_hotspot(Some((0, 0)));
    let cursor_entry = IconDirEntry::encode_as_bmp(&cursor_image).unwrap();
    let icon_image = IconImage::from_rgba_data(2, 2, rgba);
    let icon_entry = IconDirEntry::encode_as_bmp(&icon_image).unwrap();

    let mut icon_dir = IconDir::new(ResourceType::Icon);
    assert_eq!(icon_dir.try_add_entry(cursor_entry).unwrap_err(), IcoError::InvalidUsage);
    assert_eq!(icon_dir.entries().len(), 0);

    let mut cursor_dir = IconDir::new(ResourceType::Cursor);
    assert_eq!(cursor_dir.try_add_entry(icon_entry).unwrap_err(), IcoError::InvalidUsage);
    assert_eq!(cursor_dir.entries().len(), 0);

    let icon_image = IconImage::from_rgba_data(2, 2, vec![255u8; 16]);
    let icon_entry = IconDirEntry::encode_as_bmp(&icon_image).unwrap();
    assert!(icon_dir.try_add_entry(icon_entry).is_ok());
    assert_eq!(icon_dir.entries().len(), 1);
}

#[test]
fn nonzero_reserved_field_is_malformed() {
    let input = b"\x01\x00\x01\x00\x00\x00";
    assert_eq!(IconDir::read(input).unwrap_err(), IcoError::MalformedInput);
}

#[test]
fn unknown_resource_type_is_malformed() {
    let input = b"\x00\x00\x03\x00\x00\x00";
    assert_eq!(IconDir::read(input).unwrap_err(), IcoError::MalformedInput);
}

#[test]
fn truncated_payload_is_malformed() {
    // One record whose declared payload span runs past the end of the file.
    let input: &[u8] = b"\
        \x00\x00\x01\x00\x01\x00\
        \x02\x02\x00\x00\x01\x00\x01\x00\
        \xff\x00\x00\x00\x16\x00\x00\x00";
    assert_eq!(IconDir::read(input).unwrap_err(), IcoError::MalformedInput);
}

#[test]
fn too_many_entries_is_invalid_usage() {
    let image = IconImage::from_rgba_data(1, 1, vec![255u8; 4]);
    let entry = IconDirEntry::encode_as_bmp(&image).unwrap();
    let mut icondir = IconDir::new(ResourceType::Icon);
    for _ in 0..65536 {
        icondir.add_entry(entry.clone());
    }
    assert_eq!(icondir.write().unwrap_err(), IcoError::InvalidUsage);
}

#[test]
fn standalone_png_round_trip() {
    // write_png drops the alpha channel of a fully opaque image and keeps
    // it otherwise; read_png restores the RGBA layout either way.
    let mut rgba = Vec::new();
    for index in 0..(6 * 5) {
        rgba.extend_from_slice(&[(index * 7) as u8, (index * 3) as u8, index as u8, 255]);
    }
    let image = IconImage::from_rgba_data(6, 5, rgba.clone());
    let png = image.write_png().unwrap();
    let back = IconImage::read_png(png.as_slice()).unwrap();
    assert_eq!(back.width(), 6);
    assert_eq!(back.height(), 5);
    assert_eq!(back.rgba_data(), rgba.as_slice());

    let mut rgba = Vec::new();
    for index in 0..(6 * 5) {
        rgba.extend_from_slice(&[(index * 7) as u8, 0, 0, if index % 2 == 0 { 0 } else { 255 }]);
    }
    let image = IconImage::from_rgba_data(6, 5, rgba.clone());
    let png = image.write_png().unwrap();
    let back = IconImage::read_png(png.as_slice()).unwrap();
    assert_eq!(back.rgba_data(), rgba.as_slice());
}

#[test]
fn bmp_file_round_trip() {
    // The whole bitmap path: encode, write, read back, decode.
    let mut rgba = Vec::new();
    for index in 0..(9 * 6) {
        rgba.extend_from_slice(&[(index % 12) as u8, (index % 3) as u8, 7, 0xff]);
    }
    let image = IconImage::from_rgba_data(9, 6, rgba.clone());
    let mut icondir = IconDir::new(ResourceType::Icon);
    icondir.add_entry(IconDirEntry::encode_as_bmp(&image).unwrap());
    let file = icondir.write().unwrap();
    let icondir = IconDir::read(file.as_slice()).unwrap();
    assert_eq!(icondir.entries().len(), 1);
    let entry = &icondir.entries()[0];
    assert!(!entry.is_png());
    let back = entry.decode().unwrap();
    assert_eq!(back.width(), 9);
    assert_eq!(back.height(), 6);
    assert_eq!(back.rgba_data(), rgba.as_slice());
}

#[test]
fn cursor_file_round_trip() {
    // A cursor's hotspot survives encoding, writing, reading, and decoding.
    let mut rgba = Vec::new();
    for index in 0..(4 * 4) {
        rgba.extend_from_slice(&[(index % 2) as u8 * 200, 0, 0, if index % 3 == 0 { 0 } else { 255 }]);
    }
    let mut image = IconImage::from_rgba_data(4, 4, rgba.clone());
    image.set_cursor_hotspot(Some((1, 2)));
    let mut icondir = IconDir::new(ResourceType::Cursor);
    icondir.add_entry(IconDirEntry::encode_as_bmp(&image).unwrap());
    let file = icondir.write().unwrap();
    let icondir = IconDir::read(file.as_slice()).unwrap();
    assert_eq!(icondir.resource_type(), ResourceType::Cursor);
    let entry = &icondir.entries()[0];
    assert_eq!(entry.cursor_hotspot(), Some((1, 2)));
    let back = entry.decode().unwrap();
    assert_eq!(back.cursor_hotspot(), Some((1, 2)));
    assert_eq!(back.rgba_data(), rgba.as_slice());
}

#[test]
fn decode_size_peeks_bitmap_header() {
    let rgba = vec![255u8; 4 * 3 * 5];
    let image = IconImage::from_rgba_data(3, 5, rgba);
    let entry = IconDirEntry::encode_as_bmp(&image).unwrap();
    assert_eq!(entry.decode_size().unwrap(), (3, 5));
}

#[test]
fn read_bmp_16bpp_icon() {
    // Packed 5-5-5 pixels are decoded (each 5-bit channel scaled to
    // 0..=255), although the encoder never produces this depth.
    let input: &[u8] = b"\
        \x00\x00\x01\x00\x01\x00\
        \
        \x01\x01\x00\x00\x01\x00\x10\x00\
        \x30\x00\x00\x00\x16\x00\x00\x00\
        \
        \x28\x00\x00\x00\x01\x00\x00\x00\x02\x00\x00\x00\
        \x01\x00\x10\x00\x00\x00\x00\x00\x00\x00\x00\x00\
        \x00\x00\x00\x00\x00\x00\x00\x00\x00\x00\x00\x00\
        \x00\x00\x00\x00\
        \
        \x1f\x7c\x00\x00\
        \
        \x00\x00\x00\x00";
    let icondir = IconDir::read(input).unwrap();
    let entry = &icondir.entries()[0];
    assert_eq!(entry.width(), 1);
    assert_eq!(entry.height(), 1);
    let image = entry.decode().unwrap();
    assert_eq!(image.rgba_data(), b"\xff\x00\xff\xff");
}
