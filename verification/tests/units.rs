//! Round trips of the small numeric tag types.

use ico::{BmpDepth, ResourceType};

#[test]
fn bmp_depth_round_trip() {
    let depths = &[
        BmpDepth::One,
        BmpDepth::Four,
        BmpDepth::Eight,
        BmpDepth::Sixteen,
        BmpDepth::TwentyFour,
        BmpDepth::ThirtyTwo,
    ];
    for &depth in depths.iter() {
        assert_eq!(BmpDepth::from_bits_per_pixel(depth.bits_per_pixel()), Some(depth));
    }
}

#[test]
fn resource_type_round_trip() {
    let restypes = &[ResourceType::Icon, ResourceType::Cursor];
    for &restype in restypes.iter() {
        assert_eq!(ResourceType::from_number(restype.number()), Some(restype));
    }
}
