use lcms::profile::{Profile, TagSignature, UsedDirection};
use lcms::sig::{ColorSpaceSignature, ProfileClassSignature};
use lcms::tag_types::read_mlu_type;
use lcms::type_sig::TagTypeSignature;
use lcms::virt::set_text_tags_public;

/// An XYZ tag: type 'XYZ ', reserved, three s15Fixed16 numbers.
fn xyz_tag(x: i32, y: i32, z: i32) -> Vec<u8> {
    let mut t = b"XYZ \0\0\0\0".to_vec();
    for v in [x, y, z] {
        t.extend_from_slice(&v.to_be_bytes());
    }
    t
}

/// A gamma curve tag of gamma 2.2 as u8Fixed8 (0x0233).
fn gamma_tag() -> Vec<u8> {
    vec![b'c', b'u', b'r', b'v', 0, 0, 0, 0, 0, 0, 0, 1, 0x02, 0x33]
}

fn build_rgb_matrix_shaper_profile() -> Profile {
    let mut p = Profile::new_placeholder();
    p.header.color_space = ColorSpaceSignature::RgbData;
    p.header.pcs = ColorSpaceSignature::XyzData;
    p.header.device_class = ProfileClassSignature::Display;
    p.header.version = 0x04200000;
    p.write_raw_tag(TagSignature::RedMatrixColumn, &xyz_tag(0x6FA2, 0x38F5, 0x0390))
        .unwrap();
    p.write_raw_tag(TagSignature::GreenMatrixColumn, &xyz_tag(0x6294, 0xB785, 0x18DA))
        .unwrap();
    p.write_raw_tag(TagSignature::BlueMatrixColumn, &xyz_tag(0x24A0, 0x0F84, 0xB6CF))
        .unwrap();
    p.write_raw_tag(TagSignature::RedTRC, &gamma_tag()).unwrap();
    p.write_raw_tag(TagSignature::GreenTRC, &gamma_tag()).unwrap();
    p.write_raw_tag(TagSignature::BlueTRC, &gamma_tag()).unwrap();
    p
}

fn build_gray_profile() -> Profile {
    let mut p = Profile::new_placeholder();
    p.header.color_space = ColorSpaceSignature::GrayData;
    p.header.pcs = ColorSpaceSignature::XyzData;
    p.header.device_class = ProfileClassSignature::Display;
    p.header.version = 0x04200000;
    p.write_raw_tag(TagSignature::GrayTRC, &gamma_tag()).unwrap();
    p.write_raw_tag(TagSignature::MediaWhitePoint, &xyz_tag(0xF6D6, 0x10000, 0xD32D))
        .unwrap();
    p
}

/// An RGB device link whose AToB0 tag is a 16-bit table.
fn build_device_link() -> Profile {
    let mut p = Profile::new_placeholder();
    p.header.device_class = ProfileClassSignature::Link;
    p.header.color_space = ColorSpaceSignature::RgbData;
    p.header.pcs = ColorSpaceSignature::RgbData;
    p.header.rendering_intent = 0;
    let mut lut = b"mft2\0\0\0\0".to_vec();
    lut.extend_from_slice(&[3, 3, 2, 0]);
    lut.extend_from_slice(&[0u8; 40]);
    p.write_raw_tag(TagSignature::AToB0, &lut).unwrap();
    p
}

#[test]
fn is_matrix_shaper_rgb_profile() {
    let mut p = build_rgb_matrix_shaper_profile();
    let data = p.save_to_mem().unwrap();
    let p2 = Profile::open_mem(&data).unwrap();
    assert!(p2.is_matrix_shaper());
}

#[test]
fn is_matrix_shaper_gray_profile() {
    let mut p = build_gray_profile();
    let data = p.save_to_mem().unwrap();
    let p2 = Profile::open_mem(&data).unwrap();
    assert!(p2.is_matrix_shaper());
}

#[test]
fn tag_true_type_returns_correct_type() {
    let mut dl = build_device_link();
    let data = dl.save_to_mem().unwrap();
    let mut dl2 = Profile::open_mem(&data).unwrap();
    let tt = dl2.tag_true_type(TagSignature::AToB0);
    assert!(tt.is_some(), "AToB0 tag should exist");
}

#[test]
fn is_clut_matrix_shaper_returns_false() {
    let mut p = build_rgb_matrix_shaper_profile();
    let data = p.save_to_mem().unwrap();
    let p2 = Profile::open_mem(&data).unwrap();
    assert!(!p2.is_clut(0, UsedDirection::AsInput));
    assert!(!p2.is_clut(0, UsedDirection::AsOutput));
}

#[test]
fn is_clut_device_link_returns_true() {
    let mut dl = build_device_link();
    let data = dl.save_to_mem().unwrap();
    let dl2 = Profile::open_mem(&data).unwrap();
    assert!(dl2.is_clut(0, UsedDirection::AsInput));
}

#[test]
fn is_intent_supported_matrix_shaper() {
    let mut p = build_rgb_matrix_shaper_profile();
    let data = p.save_to_mem().unwrap();
    let p2 = Profile::open_mem(&data).unwrap();
    assert!(p2.is_intent_supported(0, UsedDirection::AsInput));
    assert!(p2.is_intent_supported(1, UsedDirection::AsInput));
    assert!(p2.is_intent_supported(0, UsedDirection::AsOutput));
}

#[test]
fn tag_true_types_and_missing_tags() {
    let mut p = build_rgb_matrix_shaper_profile();
    assert_eq!(
        p.tag_true_type(TagSignature::RedTRC),
        Some(TagTypeSignature::Curve)
    );
    assert_eq!(
        p.tag_true_type(TagSignature::RedMatrixColumn),
        Some(TagTypeSignature::Xyz)
    );
    assert_eq!(p.tag_true_type(TagSignature::AToB0), None);
    p.write_raw_tag(TagSignature::Copyright, &[1, 2]).unwrap();
    assert_eq!(p.tag_true_type(TagSignature::Copyright), None);
    p.write_raw_tag(TagSignature::Data, b"zzzz").unwrap();
    assert_eq!(p.tag_true_type(TagSignature::Data), None);
    assert_eq!(TagTypeSignature::from_u32(0x6D6C7563), Some(TagTypeSignature::MultiLocalizedUnicode));
    assert_eq!(TagTypeSignature::Lut16.to_u32(), 0x6D667432);
}

#[test]
fn clut_tables_by_intent_and_direction() {
    let mut p = Profile::new_placeholder();
    p.header.device_class = ProfileClassSignature::Output;
    p.header.color_space = ColorSpaceSignature::CmykData;
    p.write_raw_tag(TagSignature::AToB1, &[0; 8]).unwrap();
    p.write_raw_tag(TagSignature::BToA1, &[0; 8]).unwrap();
    // Relative and absolute colorimetric share the AToB1/BToA1 tables.
    assert!(p.is_clut(1, UsedDirection::AsInput));
    assert!(p.is_clut(3, UsedDirection::AsInput));
    assert!(p.is_clut(3, UsedDirection::AsOutput));
    assert!(!p.is_clut(0, UsedDirection::AsInput));
    assert!(!p.is_clut(4, UsedDirection::AsInput));
    // As a proof: the intent as input, relative colorimetric as output.
    assert!(p.is_clut(1, UsedDirection::AsProof));
    assert!(!p.is_clut(2, UsedDirection::AsProof));
    assert!(!p.is_matrix_shaper());
    assert!(!p.is_intent_supported(0, UsedDirection::AsOutput));
    // A device link implements exactly its own intent.
    let mut dl = build_device_link();
    dl.header.rendering_intent = 2;
    assert!(dl.is_clut(2, UsedDirection::AsOutput));
    assert!(!dl.is_clut(0, UsedDirection::AsInput));
}

#[test]
fn text_tags_of_built_in_profiles() {
    let mut p = Profile::new_placeholder();
    set_text_tags_public(&mut p, "sRGB built-in");
    let data = p.save_to_mem().unwrap();
    let mut p2 = Profile::open_mem(&data).unwrap();
    let desc = p2.read_raw_tag(TagSignature::ProfileDescription).unwrap();
    assert_eq!(&desc[0..4], b"mluc");
    let m = read_mlu_type(&desc, 8, (desc.len() - 8) as u32).unwrap();
    assert_eq!(m.get_ascii("en", "US"), Some("sRGB built-in".to_string()));
    let cprt = p2.read_raw_tag(TagSignature::Copyright).unwrap();
    let c = read_mlu_type(&cprt, 8, (cprt.len() - 8) as u32).unwrap();
    assert_eq!(
        c.get_utf8("en", "US"),
        Some("No copyright, use freely".to_string())
    );
    assert_eq!(
        p2.tag_true_type(TagSignature::Copyright),
        Some(TagTypeSignature::MultiLocalizedUnicode)
    );

    // A description that is not ASCII gives an empty text.
    let mut q = Profile::new_placeholder();
    set_text_tags_public(&mut q, "Café");
    let d = q.read_raw_tag(TagSignature::ProfileDescription).unwrap();
    let m = read_mlu_type(&d, 8, (d.len() - 8) as u32).unwrap();
    assert_eq!(m.translations_count(), 0);
}
