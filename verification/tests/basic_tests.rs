use lcms::cam::Surround;
use lcms::error::{CmsError, ErrorCode};
use lcms::pack::{
    build_format, from_16_to_8, from_8_to_16, lab_v2_to_v4, lab_v4_to_v2, pixel_size, PT_RGB,
    TYPE_CMYK_16, TYPE_GRAY_16, TYPE_GRAY_8, TYPE_LAB_DBL, TYPE_RGBA_8, TYPE_RGB_8, TYPE_RGB_FLT,
};
use lcms::pcs::{endpoints_by_space, reasonable_gridpoints};
use lcms::ps::PostScriptResourceType;
use lcms::sig::{ColorSpaceSignature, PlatformSignature, ProfileClassSignature};

#[test]
fn error_code_values() {
    assert_eq!(ErrorCode::Undefined as u32, 0);
    assert_eq!(ErrorCode::File as u32, 1);
    assert_eq!(ErrorCode::Range as u32, 2);
    assert_eq!(ErrorCode::Internal as u32, 3);
    assert_eq!(ErrorCode::Null as u32, 4);
    assert_eq!(ErrorCode::Read as u32, 5);
    assert_eq!(ErrorCode::Seek as u32, 6);
    assert_eq!(ErrorCode::Write as u32, 7);
    assert_eq!(ErrorCode::UnknownExtension as u32, 8);
    assert_eq!(ErrorCode::ColorspaceCheck as u32, 9);
    assert_eq!(ErrorCode::AlreadyDefined as u32, 10);
    assert_eq!(ErrorCode::BadSignature as u32, 11);
    assert_eq!(ErrorCode::CorruptionDetected as u32, 12);
    assert_eq!(ErrorCode::NotSuitable as u32, 13);
}

#[test]
fn error_code_value_matches_cast() {
    for c in [ErrorCode::Undefined, ErrorCode::Seek, ErrorCode::NotSuitable] {
        assert_eq!(c.value(), c as u32);
    }
    let e = CmsError { code: ErrorCode::Range, message: "x".to_string() };
    assert_eq!(e.code, ErrorCode::Range);
}

#[test]
fn test_from_8_to_16() {
    assert_eq!(from_8_to_16(0x00), 0x0000u16);
    assert_eq!(from_8_to_16(0x80), 0x8080u16);
    assert_eq!(from_8_to_16(0xFF), 0xFFFFu16);
}

#[test]
fn test_from_16_to_8() {
    assert_eq!(from_16_to_8(0x0000), 0x00u8);
    assert_eq!(from_16_to_8(0x8080), 0x80u8);
    assert_eq!(from_16_to_8(0xFFFF), 0xFFu8);
}

#[test]
fn test_from_8_to_16_round_trip() {
    for v in 0..=255u8 {
        let v16 = from_8_to_16(v);
        let back = from_16_to_8(v16);
        assert_eq!(back, v, "round-trip failed for {v}");
    }
}

#[test]
fn test_lab_v2_to_v4_round_trip() {
    // V2→V4→V2 should be lossless at common values
    for v in [0u16, 0x8080, 0xFF00, 0xFFFF] {
        let v4 = lab_v2_to_v4(v);
        let back = lab_v4_to_v2(v4);
        assert!(
            (back as i32 - v as i32).unsigned_abs() <= 1,
            "v={v:#06X}: v4={v4:#06X}, back={back:#06X}"
        );
    }
}

#[test]
fn test_pixel_size() {
    assert_eq!(pixel_size(TYPE_RGB_8), 3);
    assert_eq!(pixel_size(TYPE_RGBA_8), 4);
    assert_eq!(pixel_size(TYPE_CMYK_16), 8);
    assert_eq!(pixel_size(TYPE_GRAY_8), 1);
    assert_eq!(pixel_size(TYPE_GRAY_16), 2);
    assert_eq!(pixel_size(TYPE_RGB_FLT), 12);
}

#[test]
fn lab_encodings_exact_values() {
    assert_eq!(lab_v2_to_v4(0xFF00), 0xFFFE);
    assert_eq!(lab_v2_to_v4(0xFF01), 0xFFFF);
    assert_eq!(lab_v2_to_v4(0x8000), 0x8080);
    assert_eq!(lab_v2_to_v4(0x8080), 0x8100);
    assert_eq!(lab_v4_to_v2(0xFFFF), 0xFFFF);
    assert_eq!(lab_v4_to_v2(0xFFFE), 0xFEFF);
    assert_eq!(lab_v4_to_v2(0x8080), 0x8000);
    assert_eq!(from_16_to_8(0x7FFF), 0x7F);
    assert_eq!(from_16_to_8(0x8000), 0x80);
}

#[test]
fn double_samples_take_eight_bytes() {
    assert_eq!(pixel_size(TYPE_LAB_DBL), 24);
    let f = build_format(PT_RGB, 3, 2);
    assert_eq!(pixel_size(f), 6);
    assert_eq!(f, 0x4001a);
}

#[test]
fn endpoints_of_known_spaces() {
    let (w, b, n) = endpoints_by_space(ColorSpaceSignature::LabData).unwrap();
    assert_eq!(n, 3);
    assert_eq!(&w[..3], &[0xFFFF, 0x8080, 0x8080]);
    assert_eq!(&b[..3], &[0, 0x8080, 0x8080]);
    let (w, b, n) = endpoints_by_space(ColorSpaceSignature::CmykData).unwrap();
    assert_eq!(n, 4);
    assert_eq!(&w[..4], &[0, 0, 0, 0]);
    assert_eq!(&b[..4], &[0xFFFF; 4]);
    assert!(endpoints_by_space(ColorSpaceSignature::XyzData).is_none());
}

#[test]
fn gridpoints_by_channels_and_flags() {
    assert_eq!(reasonable_gridpoints(3, 0), 33);
    assert_eq!(reasonable_gridpoints(4, 0), 17);
    assert_eq!(reasonable_gridpoints(6, 0), 7);
    assert_eq!(reasonable_gridpoints(3, 0x0400), 49);
    assert_eq!(reasonable_gridpoints(1, 0x0800), 33);
    assert_eq!(reasonable_gridpoints(3, 0x0800), 17);
    assert_eq!(reasonable_gridpoints(3, 0x0011_0000), 17);
    assert_eq!(reasonable_gridpoints(3, 0x0001_0000), 2);
}

#[test]
fn signatures_round_trip() {
    for s in [ColorSpaceSignature::RgbData, ColorSpaceSignature::LabData, ColorSpaceSignature::Color15] {
        assert_eq!(ColorSpaceSignature::from_u32(s.to_u32()), Some(s));
    }
    assert_eq!(ColorSpaceSignature::RgbData.to_u32(), 0x52474220);
    assert_eq!(ColorSpaceSignature::from_u32(0x12345678), None);
    let c = ProfileClassSignature::from_u32(0x6D6E7472).unwrap();
    assert_eq!(c.to_u32(), 0x6D6E7472);
    let p = PlatformSignature::from_u32(0x4150504C).unwrap();
    assert_eq!(p.to_u32(), 0x4150504C);
}

#[test]
fn enum_values() {
    assert_eq!(Surround::Average.value(), 1);
    assert_eq!(Surround::Cutsheet.value(), 4);
    let _ = PostScriptResourceType::Csa;
}
