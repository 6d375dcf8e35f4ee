use lcms::error::ErrorCode;
use lcms::profile::{
    base_to_base, validated_version, Profile, TagSignature, ICC_MAGIC_NUMBER, LCMS_SIGNATURE,
};
use lcms::sig::{ColorSpaceSignature, ProfileClassSignature};

#[test]
fn header_roundtrip_in_memory() {
    let mut p = Profile::new_placeholder();
    p.header.device_class = ProfileClassSignature::Input;
    p.header.color_space = ColorSpaceSignature::RgbData;
    p.header.pcs = ColorSpaceSignature::XyzData;
    p.header.version = 0x04300000;
    let data = p.save_to_mem().unwrap();
    let p2 = Profile::open_mem(&data).unwrap();
    assert_eq!(p2.header.device_class, ProfileClassSignature::Input);
    assert_eq!(p2.header.color_space, ColorSpaceSignature::RgbData);
    assert_eq!(p2.header.pcs, ColorSpaceSignature::XyzData);
    assert_eq!(p2.header.version, 0x04300000);
    assert_eq!(p2.header.illuminant, [0xF6D6, 0x10000, 0xD32D]);
}

#[test]
fn header_magic_number_validation() {
    let mut p = Profile::new_placeholder();
    p.header.magic = 0xDEADBEEF;
    let data = p.save_to_mem().unwrap();
    let e = Profile::open_mem(&data).err().unwrap();
    assert_eq!(e.code, ErrorCode::BadSignature);
}

#[test]
fn tag_directory_roundtrip() {
    let mut p = Profile::new_placeholder();
    p.write_raw_tag(TagSignature::RedTRC, &[1, 2, 3, 4, 5, 6, 7, 8]).unwrap();
    p.write_raw_tag(TagSignature::GreenTRC, &[10, 20, 30, 40, 50, 60, 70, 80]).unwrap();
    let data = p.save_to_mem().unwrap();
    let p2 = Profile::open_mem(&data).unwrap();
    assert_eq!(p2.tag_count(), 2);
    assert!(p2.has_tag(TagSignature::RedTRC));
    assert!(p2.has_tag(TagSignature::GreenTRC));
}

#[test]
fn tag_directory_max_100_tags() {
    let mut p = Profile::new_placeholder();
    let all_sigs = [
        TagSignature::AToB0,
        TagSignature::AToB1,
        TagSignature::AToB2,
        TagSignature::BlueMatrixColumn,
        TagSignature::BlueTRC,
        TagSignature::BToA0,
        TagSignature::BToA1,
        TagSignature::BToA2,
        TagSignature::CalibrationDateTime,
        TagSignature::CharTarget,
        TagSignature::ChromaticAdaptation,
        TagSignature::Chromaticity,
        TagSignature::ColorantOrder,
        TagSignature::ColorantTable,
        TagSignature::ColorantTableOut,
        TagSignature::ColorimetricIntentImageState,
        TagSignature::Copyright,
        TagSignature::CrdInfo,
        TagSignature::Data,
        TagSignature::DateTime,
        TagSignature::DeviceMfgDesc,
        TagSignature::DeviceModelDesc,
        TagSignature::DeviceSettings,
        TagSignature::DToB0,
        TagSignature::DToB1,
        TagSignature::DToB2,
        TagSignature::DToB3,
        TagSignature::BToD0,
        TagSignature::BToD1,
        TagSignature::BToD2,
        TagSignature::BToD3,
        TagSignature::Gamut,
        TagSignature::GrayTRC,
        TagSignature::GreenMatrixColumn,
        TagSignature::GreenTRC,
        TagSignature::Luminance,
        TagSignature::Measurement,
        TagSignature::MediaBlackPoint,
        TagSignature::MediaWhitePoint,
        TagSignature::NamedColor,
        TagSignature::NamedColor2,
        TagSignature::OutputResponse,
        TagSignature::PerceptualRenderingIntentGamut,
        TagSignature::Preview0,
        TagSignature::Preview1,
        TagSignature::Preview2,
        TagSignature::ProfileDescription,
        TagSignature::ProfileDescriptionML,
        TagSignature::ProfileSequenceDesc,
        TagSignature::ProfileSequenceId,
        TagSignature::Ps2CRD0,
        TagSignature::Ps2CRD1,
        TagSignature::Ps2CRD2,
        TagSignature::Ps2CRD3,
        TagSignature::Ps2CSA,
        TagSignature::Ps2RenderingIntent,
        TagSignature::RedMatrixColumn,
        TagSignature::RedTRC,
        TagSignature::SaturationRenderingIntentGamut,
        TagSignature::ScreeningDesc,
        TagSignature::Screening,
        TagSignature::Technology,
        TagSignature::UcrBg,
        TagSignature::ViewingCondDesc,
        TagSignature::ViewingConditions,
        TagSignature::Vcgt,
        TagSignature::Meta,
        TagSignature::Cicp,
        TagSignature::ArgyllArts,
        TagSignature::Mhc2,
    ];

    let dummy = [0u8; 8];
    for sig in &all_sigs {
        p.write_raw_tag(*sig, &dummy).unwrap();
    }
    assert_eq!(p.tag_count(), all_sigs.len());
}

#[test]
fn tag_linking() {
    let mut p = Profile::new_placeholder();
    p.write_raw_tag(TagSignature::RedTRC, &[1, 2, 3, 4, 5, 6, 7, 8]).unwrap();
    p.link_tag(TagSignature::GreenTRC, TagSignature::RedTRC).unwrap();
    assert_eq!(p.tag_linked_to(TagSignature::GreenTRC), Some(TagSignature::RedTRC));
    let data = p.save_to_mem().unwrap();
    let mut p2 = Profile::open_mem(&data).unwrap();
    assert!(p2.has_tag(TagSignature::GreenTRC));
    assert!(p2.has_tag(TagSignature::RedTRC));
    assert_eq!(p2.tag_linked_to(TagSignature::GreenTRC), Some(TagSignature::RedTRC));
    assert_eq!(p2.read_raw_tag(TagSignature::GreenTRC).unwrap(), vec![1, 2, 3, 4, 5, 6, 7, 8]);
}

#[test]
fn placeholder_profile_defaults() {
    let p = Profile::new_placeholder();
    assert_eq!(p.header.magic, ICC_MAGIC_NUMBER);
    assert_eq!(p.header.cmm_id, LCMS_SIGNATURE);
    assert_eq!(p.header.device_class, ProfileClassSignature::Display);
    assert_eq!(p.tag_count(), 0);
}

#[test]
fn save_to_memory_roundtrip() {
    let mut p = Profile::new_placeholder();
    p.write_raw_tag(TagSignature::Copyright, b"test copyright data!").unwrap();
    let data = p.save_to_mem().unwrap();
    let mut p2 = Profile::open_mem(&data).unwrap();
    let raw = p2.read_raw_tag(TagSignature::Copyright).unwrap();
    assert_eq!(raw, b"test copyright data!");
}

#[test]
fn read_raw_tag_write_raw_tag() {
    let mut p = Profile::new_placeholder();
    let payload = vec![0xCA, 0xFE, 0xBA, 0xBE, 0x00, 0x00, 0x00, 0x00];
    p.write_raw_tag(TagSignature::Technology, &payload).unwrap();
    assert!(p.has_tag(TagSignature::Technology));
    let data = p.save_to_mem().unwrap();
    let mut p2 = Profile::open_mem(&data).unwrap();
    let read_back = p2.read_raw_tag(TagSignature::Technology).unwrap();
    assert_eq!(read_back, payload);
}

// ---- further cases ----

#[test]
fn saved_layout_is_exact() {
    let mut p = Profile::new_placeholder();
    p.write_raw_tag(TagSignature::RedTRC, &[1, 2, 3]).unwrap();
    p.write_raw_tag(TagSignature::GreenTRC, &[9]).unwrap();
    let data = p.save_to_mem().unwrap();
    // 128 header + 4 count + 2 * 12 directory = 156; first tag at 156, second at 160.
    assert_eq!(data.len(), 161);
    assert_eq!(&data[0..4], &[0, 0, 0, 164]);
    assert_eq!(&data[36..40], b"acsp");
    assert_eq!(&data[128..132], &[0, 0, 0, 2]);
    assert_eq!(&data[132..144], &[b'r', b'T', b'R', b'C', 0, 0, 0, 156, 0, 0, 0, 3]);
    assert_eq!(&data[144..156], &[b'g', b'T', b'R', b'C', 0, 0, 0, 160, 0, 0, 0, 1]);
    assert_eq!(&data[156..161], &[1, 2, 3, 0, 9]);
}

#[test]
fn open_errors() {
    assert_eq!(Profile::open_mem(&[0u8; 20]).err().unwrap().code, ErrorCode::Read);
    let mut p = Profile::new_placeholder();
    p.header.version = 0x06000000;
    let data = p.save_to_mem().unwrap();
    assert_eq!(Profile::open_mem(&data).err().unwrap().code, ErrorCode::UnknownExtension);
    let p = Profile::new_placeholder();
    let mut q = p;
    let mut data = q.save_to_mem().unwrap();
    data[131] = 101;
    assert_eq!(Profile::open_mem(&data).err().unwrap().code, ErrorCode::Range);
    data[131] = 1;
    assert_eq!(Profile::open_mem(&data).err().unwrap().code, ErrorCode::Read);
}

#[test]
fn missing_tags_and_link_errors() {
    let mut p = Profile::new_placeholder();
    assert_eq!(p.read_raw_tag(TagSignature::RedTRC).err().unwrap().code, ErrorCode::Internal);
    assert_eq!(
        p.link_tag(TagSignature::GreenTRC, TagSignature::RedTRC).err().unwrap().code,
        ErrorCode::Internal
    );
    assert_eq!(p.tag_signature(0), None);
    p.write_raw_tag(TagSignature::RedTRC, &[7]).unwrap();
    assert_eq!(p.tag_signature(0), Some(TagSignature::RedTRC));
    p.write_raw_tag(TagSignature::RedTRC, &[8, 8]).unwrap();
    assert_eq!(p.tag_count(), 1);
    assert_eq!(p.read_raw_tag(TagSignature::RedTRC).unwrap(), vec![8, 8]);
}

#[test]
fn version_helpers() {
    assert_eq!(validated_version(0x0A_FF_1234), 0x0999_0000);
    assert_eq!(validated_version(0x0430_0000), 0x0430_0000);
    assert_eq!(base_to_base(0x43, 16, 10), 43);
    assert_eq!(base_to_base(43, 10, 16), 0x43);
    assert_eq!(base_to_base(0, 16, 10), 0);
}

#[test]
fn signatures_of_tags() {
    assert_eq!(TagSignature::MediaWhitePoint.to_u32(), 0x77747074);
    assert_eq!(TagSignature::from_u32(0x41324230), Some(TagSignature::AToB0));
    assert_eq!(TagSignature::from_u32(0x12345678), None);
}
