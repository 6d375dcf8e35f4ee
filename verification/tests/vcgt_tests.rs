use lcms::error::ErrorCode;
use lcms::lut::Lut;
use lcms::profile::TagSignature;
use lcms::tag_arrays::VideoSignalType;
use lcms::tag_data::{write_tag_type, TagData};
use lcms::type_sig::TagTypeSignature;
use lcms::vcgt::{read_vcgt_type, write_vcgt_type, Vcgt};
use lcms::lut_atob::{read_lut_atob_type, read_lut_btoa_type, Curve};

fn table_samples() -> Vec<u16> {
    vec![0, 32768, 65535, 0, 16384, 65535, 0, 49152, 65535]
}

#[test]
fn vcgt_table_type_roundtrip() {
    let v = Vcgt::Table { entries: 3, samples: table_samples() };
    let mut io: Vec<u8> = Vec::new();
    write_vcgt_type(&mut io, &v);
    assert_eq!(io.len(), 10 + 18);
    let size = io.len() as u32;
    match read_vcgt_type(&io, 0, size).unwrap() {
        Vcgt::Table { entries, samples } => {
            assert_eq!(entries, 3);
            // Endpoints of each curve.
            assert_eq!(samples[0], 0);
            assert_eq!(samples[2], 65535);
            assert_eq!(samples[3], 0);
            assert_eq!(samples[6], 0);
            assert_eq!(samples[8], 65535);
            assert_eq!(samples, table_samples());
        }
        Vcgt::Formula { .. } => panic!("Expected a table"),
    }
}

#[test]
fn vcgt_formula_type_roundtrip() {
    // Gamma 2.2, minimum 0.01, maximum 0.99 in s15Fixed16, for each channel.
    let gamma = (2.2f64 * 65536.0).round() as i32;
    let min = (0.01f64 * 65536.0).round() as i32;
    let max = (0.99f64 * 65536.0).round() as i32;
    let params = [gamma, min, max, gamma, min, max, gamma, min, max];
    let v = Vcgt::Formula { params };
    let mut io: Vec<u8> = Vec::with_capacity(2048);
    write_vcgt_type(&mut io, &v);
    assert_eq!(io.len(), 4 + 36);
    let size = io.len() as u32;
    match read_vcgt_type(&io, 0, size).unwrap() {
        Vcgt::Formula { params: p } => {
            assert_eq!(p, params);
            assert!(p[1] > 0 && p[2] < 65536);
        }
        Vcgt::Table { .. } => panic!("Expected a formula"),
    }
}

#[test]
fn vcgt_one_byte_samples_are_widened() {
    let mut io: Vec<u8> = vec![0, 0, 0, 0, 0, 3, 0, 2, 0, 1];
    io.extend_from_slice(&[0x00, 0x80, 0xFF, 0x00, 0x40, 0xFF]);
    match read_vcgt_type(&io, 0, 16).unwrap() {
        Vcgt::Table { entries, samples } => {
            assert_eq!(entries, 2);
            assert_eq!(samples, vec![0x0000, 0x8080, 0xFFFF, 0x0000, 0x4040, 0xFFFF]);
        }
        Vcgt::Formula { .. } => panic!("Expected a table"),
    }
}

#[test]
fn vcgt_adobe_sample_width_quirk() {
    // 256 one-byte entries in a payload of 1576 bytes are read as two-byte entries.
    let mut io: Vec<u8> = vec![0, 0, 0, 0, 0, 3, 1, 0, 0, 1];
    for k in 0..(3 * 256u32) {
        io.push((k >> 8) as u8);
        io.push(k as u8);
    }
    assert_eq!(io.len(), 1546);
    match read_vcgt_type(&io, 0, 1576).unwrap() {
        Vcgt::Table { entries, samples } => {
            assert_eq!(entries, 256);
            assert_eq!(samples.len(), 768);
            assert_eq!(samples[1], 1);
            assert_eq!(samples[767], 767);
        }
        Vcgt::Formula { .. } => panic!("Expected a table"),
    }
    // With any other size the header is taken at its word.
    match read_vcgt_type(&io, 0, 1546).unwrap() {
        Vcgt::Table { samples, .. } => {
            assert_eq!(samples[1], 0);
            assert_eq!(samples[3], 0x0101);
        }
        Vcgt::Formula { .. } => panic!("Expected a table"),
    }
}

#[test]
fn vcgt_errors() {
    // Not three channels.
    let io: Vec<u8> = vec![0, 0, 0, 0, 0, 2, 0, 1, 0, 2, 0, 0, 0, 0];
    assert_eq!(read_vcgt_type(&io, 0, 14).err().unwrap().code, ErrorCode::Range);
    // Three bytes per sample.
    let io: Vec<u8> = vec![0, 0, 0, 0, 0, 3, 0, 1, 0, 3, 0, 0, 0, 0, 0, 0, 0, 0, 0];
    assert_eq!(read_vcgt_type(&io, 0, 19).err().unwrap().code, ErrorCode::Range);
    // Table larger than the tag.
    let io: Vec<u8> = vec![0, 0, 0, 0, 0, 3, 0, 2, 0, 2, 0, 0, 0, 0, 0, 0, 0, 0, 0, 0, 0, 0];
    assert_eq!(read_vcgt_type(&io, 0, 21).err().unwrap().code, ErrorCode::Range);
    // Table cut short.
    assert_eq!(read_vcgt_type(&io[..20], 0, 22).err().unwrap().code, ErrorCode::Read);
    // Unknown kind.
    let io: Vec<u8> = vec![0, 0, 0, 7];
    assert_eq!(read_vcgt_type(&io, 0, 4).err().unwrap().code, ErrorCode::UnknownExtension);
    // Kind word cut short.
    assert_eq!(read_vcgt_type(&io[..3], 0, 4).err().unwrap().code, ErrorCode::Read);
    // Formula with a gamma of zero in the second channel.
    let mut w: Vec<u8> = Vec::new();
    write_vcgt_type(
        &mut w,
        &Vcgt::Formula { params: [65536, 0, 65536, 0, 0, 65536, 65536, 0, 65536] },
    );
    assert_eq!(read_vcgt_type(&w, 0, 40).err().unwrap().code, ErrorCode::Range);
    // Formula with a maximum below its minimum.
    let mut w: Vec<u8> = Vec::new();
    write_vcgt_type(
        &mut w,
        &Vcgt::Formula { params: [65536, 10, 9, 65536, 0, 65536, 65536, 0, 65536] },
    );
    assert_eq!(read_vcgt_type(&w, 0, 40).err().unwrap().code, ErrorCode::Range);
    // A fault in the first channel is found before a short read in the third.
    assert_eq!(read_vcgt_type(&w[..30], 0, 40).err().unwrap().code, ErrorCode::Range);
    let mut ok: Vec<u8> = Vec::new();
    write_vcgt_type(&mut ok, &Vcgt::Formula { params: [65536, 0, 65536, 65536, 0, 65536, 65536, 0, 65536] });
    assert_eq!(read_vcgt_type(&ok[..30], 0, 40).err().unwrap().code, ErrorCode::Read);
}

fn small_lut() -> Lut {
    Lut {
        input_channels: 1,
        output_channels: 1,
        clut_points: 0,
        matrix: [0x10000, 0, 0, 0, 0x10000, 0, 0, 0, 0x10000],
        input_entries: 256,
        output_entries: 256,
        input_tables: (0..256u32).map(|i| (i * 257) as u16).collect(),
        clut: Vec::new(),
        output_tables: (0..256u32).map(|i| (i * 257) as u16).collect(),
    }
}

#[test]
fn write_tag_type_picks_type_by_data() {
    let mut out: Vec<u8> = Vec::new();
    let t = write_tag_type(&mut out, &TagData::Signature(0x52474220), 0x0430_0000, TagSignature::Technology);
    assert_eq!(t.unwrap(), TagTypeSignature::Signature);
    assert_eq!(out, vec![0x52, 0x47, 0x42, 0x20]);

    let mut out: Vec<u8> = Vec::new();
    let t = write_tag_type(&mut out, &TagData::UInt16Array(vec![1, 0x0203]), 0x0430_0000, TagSignature::Technology);
    assert_eq!(t.unwrap(), TagTypeSignature::UInt16Array);
    assert_eq!(out, vec![0, 1, 2, 3]);

    let mut out: Vec<u8> = Vec::new();
    let vs = VideoSignalType { colour_primaries: 1, transfer_characteristics: 13, matrix_coefficients: 0, video_full_range_flag: 1 };
    let t = write_tag_type(&mut out, &TagData::VideoSignal(vs), 0x0430_0000, TagSignature::Technology);
    assert_eq!(t.unwrap(), TagTypeSignature::Cicp);
    assert_eq!(out, vec![1, 13, 0, 1]);

    let mut out: Vec<u8> = Vec::new();
    let t = write_tag_type(&mut out, &TagData::ColorantOrder(vec![0; 17]), 0x0430_0000, TagSignature::Technology);
    assert_eq!(t.err().unwrap().code, ErrorCode::Range);
    assert!(out.is_empty());

    let mut out: Vec<u8> = Vec::new();
    let t = write_tag_type(&mut out, &TagData::Raw(vec![9, 8]), 0x0430_0000, TagSignature::Technology);
    assert_eq!(t.err().unwrap().code, ErrorCode::NotSuitable);
    assert_eq!(out, vec![9, 8]);
}

#[test]
fn write_tag_type_picks_lut_type_by_version_and_tag() {
    let lut = small_lut();
    let data8 = TagData::Pipeline(small_lut(), true);
    let data16 = TagData::Pipeline(lut, false);

    let mut out: Vec<u8> = Vec::new();
    let t = write_tag_type(&mut out, &data8, 0x0210_0000, TagSignature::AToB0);
    assert_eq!(t.unwrap(), TagTypeSignature::Lut8);
    assert_eq!(out.len(), 4 + 36 + 256 + 256);

    let mut out: Vec<u8> = Vec::new();
    let t = write_tag_type(&mut out, &data16, 0x0210_0000, TagSignature::BToA1);
    assert_eq!(t.unwrap(), TagTypeSignature::Lut16);
    assert_eq!(out.len(), 8 + 36 + 512 + 512);

    // Version 4 device-to-PCS and PCS-to-device tags take lutAtoB and lutBtoA.
    let mut out: Vec<u8> = Vec::new();
    let t = write_tag_type(&mut out, &data16, 0x0400_0000, TagSignature::AToB2);
    assert_eq!(t.unwrap(), TagTypeSignature::LutAtoB);
    let back = read_lut_atob_type(&out).unwrap();
    assert_eq!(back.input_channels, 1);
    match &back.a_curves.unwrap()[0] {
        Curve::Table(t) => assert_eq!(t.len(), 256),
        _ => panic!("Expected a table curve"),
    }
    assert!(back.clut.is_none());
    assert!(back.matrix.is_none());
    let mut out: Vec<u8> = Vec::new();
    let t = write_tag_type(&mut out, &data16, 0x0430_0000, TagSignature::BToA0);
    assert_eq!(t.unwrap(), TagTypeSignature::LutBtoA);
    assert_eq!(read_lut_btoa_type(&out).unwrap().b_curves.unwrap().len(), 1);

    // Other tags of a version 4 profile still take lut8 or lut16.
    let mut out: Vec<u8> = Vec::new();
    let t = write_tag_type(&mut out, &data16, 0x0430_0000, TagSignature::Preview0);
    assert_eq!(t.unwrap(), TagTypeSignature::Lut16);
}

#[test]
fn write_tag_type_v4_table_by_tag() {
    let l = lcms::lut_atob::LutAtoB {
        input_channels: 1,
        output_channels: 1,
        a_curves: Some(vec![Curve::Identity]),
        clut: None,
        m_curves: None,
        matrix: None,
        b_curves: None,
    };
    let data = TagData::LutV4(l);
    let mut out: Vec<u8> = Vec::new();
    assert_eq!(write_tag_type(&mut out, &data, 0x0430_0000, TagSignature::AToB0).unwrap(), TagTypeSignature::LutAtoB);
    assert_eq!(&out[20..24], &32u32.to_be_bytes());
    let mut out: Vec<u8> = Vec::new();
    assert_eq!(write_tag_type(&mut out, &data, 0x0430_0000, TagSignature::BToA1).unwrap(), TagTypeSignature::LutBtoA);
    // In a PCS-to-device table the A curves come last; here they are the only part.
    assert_eq!(&out[20..24], &32u32.to_be_bytes());
    assert!(matches!(read_lut_btoa_type(&out).unwrap().a_curves.unwrap()[0], Curve::Identity));
}

#[test]
fn lut_as_v4_keeps_a_non_identity_matrix() {
    let mut l = small_lut();
    l.input_channels = 3;
    l.output_channels = 1;
    l.input_entries = 2;
    l.input_tables = vec![0, 0xFFFF, 0, 0xFFFF, 0, 0xFFFF];
    l.clut_points = 2;
    l.clut = vec![0, 1, 2, 3, 4, 5, 6, 7];
    l.matrix = [0x20000, 0, 0, 0, 0x10000, 0, 0, 0, 0x10000];
    let v = lcms::lut_v4_write::lut_as_v4(&l, false);
    assert_eq!(v.matrix.unwrap(), vec![0x20000, 0, 0, 0, 0x10000, 0, 0, 0, 0x10000, 0, 0, 0]);
    let c = v.clut.unwrap();
    assert_eq!(&c.grid[..4], &[2, 2, 2, 0]);
    assert_eq!(c.table, l.clut);
    assert_eq!(v.a_curves.unwrap().len(), 3);
    assert_eq!(v.b_curves.unwrap().len(), 1);
    l.matrix = [0x10000, 0, 0, 0, 0x10000, 0, 0, 0, 0x10000];
    assert!(lcms::lut_v4_write::lut_as_v4(&l, false).matrix.is_none());
}
