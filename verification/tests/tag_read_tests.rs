use lcms::error::ErrorCode;
use lcms::lut_atob::{Curve, LutAtoB};
use lcms::named::Mlu;
use lcms::named_color::{NamedColor, NamedColorList};
use lcms::profile::{Profile, TagSignature};
use lcms::pseq::SeqEntry;
use lcms::tag_data::TagData;
use lcms::tag_read::read_tag_type;
use lcms::type_sig::TagTypeSignature;

#[test]
fn write_tag_read_tag_mlu_roundtrip() {
    let mut p = Profile::new_placeholder();
    let mut m = Mlu::new();
    m.set_ascii("en", "US", "Test profile");
    p.write_tag(TagSignature::ProfileDescription, &TagData::Mlu(m)).unwrap();
    // The stored bytes open with the type base of a multi-localized text.
    let raw = p.read_raw_tag(TagSignature::ProfileDescription).unwrap();
    assert_eq!(&raw[0..8], &[b'm', b'l', b'u', b'c', 0, 0, 0, 0]);
    match p.read_tag(TagSignature::ProfileDescription).unwrap() {
        TagData::Mlu(r) => assert_eq!(r.get_ascii("en", "US"), Some("Test profile".to_string())),
        _ => panic!("Expected TagData::Mlu"),
    }
}

#[test]
fn write_tag_read_tag_arrays_and_signature() {
    let mut p = Profile::new_placeholder();
    p.write_tag(TagSignature::Copyright, &TagData::UInt32Array(vec![1, 0x10203040])).unwrap();
    p.write_tag(TagSignature::CharTarget, &TagData::Signature(0x6D6E7472)).unwrap();
    match p.read_tag(TagSignature::Copyright).unwrap() {
        TagData::UInt32Array(a) => assert_eq!(a, vec![1, 0x10203040]),
        _ => panic!("Expected TagData::UInt32Array"),
    }
    match p.read_tag(TagSignature::CharTarget).unwrap() {
        TagData::Signature(s) => assert_eq!(s, 0x6D6E7472),
        _ => panic!("Expected TagData::Signature"),
    }
    assert_eq!(p.tag_count(), 2);
}

#[test]
fn write_tag_of_raw_data_is_refused_and_changes_nothing() {
    let mut p = Profile::new_placeholder();
    let e = p.write_tag(TagSignature::Copyright, &TagData::Raw(vec![1, 2, 3])).err().unwrap();
    assert_eq!(e.code, ErrorCode::NotSuitable);
    assert_eq!(p.tag_count(), 0);
}

#[test]
fn write_tag_colorant_order_over_16_is_a_range_error() {
    let mut p = Profile::new_placeholder();
    let e = p.write_tag(TagSignature::Copyright, &TagData::ColorantOrder(vec![0; 17])).err().unwrap();
    assert_eq!(e.code, ErrorCode::Range);
    assert_eq!(p.tag_count(), 0);
}

#[test]
fn read_tag_of_unknown_type_gives_the_raw_bytes() {
    let mut p = Profile::new_placeholder();
    let bytes = vec![b'z', b'z', b'z', b'z', 0, 0, 0, 0, 9, 8];
    p.write_raw_tag(TagSignature::Copyright, &bytes).unwrap();
    match p.read_tag(TagSignature::Copyright).unwrap() {
        TagData::Raw(r) => assert_eq!(r, bytes),
        _ => panic!("Expected TagData::Raw"),
    }
}

#[test]
fn read_tag_under_eight_bytes_is_a_read_error() {
    let mut p = Profile::new_placeholder();
    p.write_raw_tag(TagSignature::Copyright, &[b't', b'e', b'x', b't']).unwrap();
    let e = p.read_tag(TagSignature::Copyright).err().unwrap();
    assert_eq!(e.code, ErrorCode::Read);
}

#[test]
fn read_tag_of_a_missing_tag_fails() {
    let mut p = Profile::new_placeholder();
    let e = p.read_tag(TagSignature::Copyright).err().unwrap();
    assert_eq!(e.code, ErrorCode::Internal);
}

#[test]
fn read_tag_type_gives_floating_point_types_as_raw_payload() {
    let payload = [0u8, 1, 0, 0, 0, 1, 0, 0, 0, 1, 0, 0];
    match read_tag_type(&payload, TagTypeSignature::Xyz).unwrap() {
        TagData::Raw(r) => assert_eq!(r, payload.to_vec()),
        _ => panic!("Expected TagData::Raw"),
    }
}

#[test]
fn read_tag_type_signature_and_errors() {
    match read_tag_type(&[0, 0, 0, 7], TagTypeSignature::Signature).unwrap() {
        TagData::Signature(s) => assert_eq!(s, 7),
        _ => panic!("Expected TagData::Signature"),
    }
    let e = read_tag_type(&[0, 0], TagTypeSignature::Signature).err().unwrap();
    assert_eq!(e.code, ErrorCode::Read);
    let e = read_tag_type(&[1, 2, 3], TagTypeSignature::Cicp).err().unwrap();
    assert_eq!(e.code, ErrorCode::Range);
}

#[test]
fn write_tag_read_tag_named_colors_and_sequence() {
    let mut p = Profile::new_placeholder();
    let list = NamedColorList {
        colorant_count: 1,
        prefix: "p".to_string(),
        suffix: "s".to_string(),
        colors: vec![NamedColor { name: "Teal".to_string(), pcs: [1, 2, 3], colorant: vec![9] }],
    };
    p.write_tag(TagSignature::NamedColor2, &TagData::NamedColor(list)).unwrap();
    let mut m = Mlu::new();
    m.set_ascii("en", "US", "Maker");
    let e = SeqEntry { device_mfg: 5, device_model: 6, attributes: 7, technology: 8, manufacturer: m, model: Mlu::new() };
    p.write_tag(TagSignature::ProfileSequenceDesc, &TagData::ProfileSequenceDesc(vec![e])).unwrap();
    match p.read_tag(TagSignature::NamedColor2).unwrap() {
        TagData::NamedColor(l) => {
            assert_eq!(l.colors.len(), 1);
            assert_eq!(l.colors[0].name, "Teal");
            assert_eq!(l.colors[0].colorant, vec![9]);
        },
        _ => panic!("Expected TagData::NamedColor"),
    }
    match p.read_tag(TagSignature::ProfileSequenceDesc).unwrap() {
        TagData::ProfileSequenceDesc(v) => {
            assert_eq!(v.len(), 1);
            assert_eq!(v[0].device_mfg, 5);
            assert_eq!(v[0].technology, 8);
            assert_eq!(v[0].manufacturer.get_ascii("en", "US"), Some("Maker".to_string()));
        },
        _ => panic!("Expected TagData::ProfileSequenceDesc"),
    }
}

#[test]
fn write_tag_read_tag_version4_table_in_btoa_tag() {
    let mut p = Profile::new_placeholder();
    p.header.version = 0x0430_0000;
    let l = LutAtoB {
        input_channels: 1,
        output_channels: 1,
        a_curves: None,
        clut: None,
        m_curves: None,
        matrix: None,
        b_curves: Some(vec![Curve::Parametric(0, vec![0x0002_3333])]),
    };
    p.write_tag(TagSignature::BToA0, &TagData::LutV4(l)).unwrap();
    let raw = p.read_raw_tag(TagSignature::BToA0).unwrap();
    assert_eq!(&raw[0..4], b"mBA ");
    match p.read_tag(TagSignature::BToA0).unwrap() {
        TagData::LutV4(r) => {
            assert_eq!(r.input_channels, 1);
            match &r.b_curves.as_ref().unwrap()[0] {
                Curve::Parametric(kind, params) => {
                    assert_eq!(*kind, 0);
                    assert_eq!(params, &vec![0x0002_3333]);
                }
                _ => panic!("Expected a formula curve"),
            }
            assert!(r.a_curves.is_none());
        }
        _ => panic!("Expected TagData::LutV4"),
    }
}
