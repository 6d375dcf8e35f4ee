use lcms::error::ErrorCode;
use lcms::profile::DateTimeNumber;
use lcms::sig::ColorSpaceSignature;
use lcms::tag_arrays::{
    read_colorant_order_type, read_data_type, read_datetime_type, read_signature_type,
    read_uint16_type, read_uint32_type, read_uint64_type, read_uint8_type,
    read_video_signal_type, write_colorant_order_type, write_data_type, write_datetime_type,
    write_signature_type, write_uint16_type, write_uint32_type, write_uint64_type,
    write_uint8_type, write_video_signal_type, IccData, VideoSignalType,
};

#[test]
fn signature_type_roundtrip() {
    let sig = ColorSpaceSignature::RgbData.to_u32();
    let mut io: Vec<u8> = Vec::new();
    write_signature_type(&mut io, sig);
    let read_sig = read_signature_type(&io, 0).unwrap();
    assert_eq!(read_sig, sig);
}

#[test]
fn datetime_type_roundtrip() {
    let dt = DateTimeNumber {
        year: 2024,
        month: 6,
        day: 15,
        hours: 12,
        minutes: 30,
        seconds: 45,
    };
    let mut io: Vec<u8> = Vec::new();
    write_datetime_type(&mut io, &dt);
    let read_dt = read_datetime_type(&io, 0).unwrap();
    assert_eq!(read_dt.year, 2024);
    assert_eq!(read_dt.month, 6);
    assert_eq!(read_dt.day, 15);
    assert_eq!(read_dt.hours, 12);
    assert_eq!(read_dt.minutes, 30);
    assert_eq!(read_dt.seconds, 45);
}

#[test]
fn uint8_array_roundtrip() {
    let arr: Vec<u8> = vec![1, 2, 3, 4, 5];
    let mut io: Vec<u8> = Vec::new();
    write_uint8_type(&mut io, &arr);
    let size = io.len() as u32;
    let read_arr = read_uint8_type(&io, 0, size).unwrap();
    assert_eq!(read_arr, arr);
}

#[test]
fn uint16_array_roundtrip() {
    let arr: Vec<u16> = vec![100, 200, 300];
    let mut io: Vec<u8> = Vec::new();
    write_uint16_type(&mut io, &arr);
    let size = io.len() as u32;
    let read_arr = read_uint16_type(&io, 0, size).unwrap();
    assert_eq!(read_arr, arr);
}

#[test]
fn uint32_array_roundtrip() {
    let arr: Vec<u32> = vec![0xDEADBEEF, 0xCAFEBABE];
    let mut io: Vec<u8> = Vec::new();
    write_uint32_type(&mut io, &arr);
    let size = io.len() as u32;
    let read_arr = read_uint32_type(&io, 0, size).unwrap();
    assert_eq!(read_arr, arr);
}

#[test]
fn uint64_array_roundtrip() {
    let arr: Vec<u64> = vec![0x0102030405060708, 0xFFEEDDCCBBAA9988];
    let mut io: Vec<u8> = Vec::new();
    write_uint64_type(&mut io, &arr);
    let size = io.len() as u32;
    let read_arr = read_uint64_type(&io, 0, size).unwrap();
    assert_eq!(read_arr, arr);
}

#[test]
fn number_layouts_are_big_endian() {
    let mut out: Vec<u8> = Vec::new();
    write_signature_type(&mut out, 0x52474220);
    write_uint16_type(&mut out, &[0x0102]);
    write_uint32_type(&mut out, &[0x03040506]);
    write_uint64_type(&mut out, &[0x0708090A0B0C0D0E]);
    assert_eq!(
        out,
        vec![b'R', b'G', b'B', b' ', 1, 2, 3, 4, 5, 6, 7, 8, 9, 10, 11, 12, 13, 14]
    );
    let dt = DateTimeNumber {
        year: 0x07E8,
        month: 1,
        day: 2,
        hours: 3,
        minutes: 4,
        seconds: 5,
    };
    let mut out: Vec<u8> = Vec::new();
    write_datetime_type(&mut out, &dt);
    assert_eq!(out, vec![0x07, 0xE8, 0, 1, 0, 2, 0, 3, 0, 4, 0, 5]);
}

#[test]
fn arrays_ignore_partial_values_and_report_short_streams() {
    // Five bytes hold two 16-bit values; the odd byte is not read.
    let data = vec![0, 1, 0, 2, 9];
    assert_eq!(read_uint16_type(&data, 0, 5).unwrap(), vec![1, 2]);
    // A size past the stream's end.
    assert_eq!(read_uint32_type(&data, 0, 8).err().unwrap().code, ErrorCode::Read);
    assert_eq!(read_uint8_type(&data, 3, 3).err().unwrap().code, ErrorCode::Read);
    assert_eq!(read_uint64_type(&data, 0, 8).err().unwrap().code, ErrorCode::Read);
    assert_eq!(read_signature_type(&data, 2).err().unwrap().code, ErrorCode::Read);
    assert_eq!(read_datetime_type(&data, 0).err().unwrap().code, ErrorCode::Read);
    // Reading at an offset.
    assert_eq!(read_uint8_type(&data, 1, 3).unwrap(), vec![1, 0, 2]);
}

#[test]
fn data_type_roundtrip() {
    let d = IccData {
        flags: 0,
        data: vec![0xCA, 0xFE, 0xBA, 0xBE],
    };
    let mut io: Vec<u8> = Vec::new();
    write_data_type(&mut io, &d);
    let size = io.len() as u32;
    let read_d = read_data_type(&io, 0, size).unwrap();
    assert_eq!(read_d.flags, 0);
    assert_eq!(read_d.data, vec![0xCA, 0xFE, 0xBA, 0xBE]);
}

#[test]
fn colorant_order_type_roundtrip() {
    let order = vec![2, 0, 1, 3];
    let mut io: Vec<u8> = Vec::new();
    write_colorant_order_type(&mut io, &order).unwrap();
    let read_order = read_colorant_order_type(&io, 0).unwrap();
    assert_eq!(read_order, order);
}

#[test]
fn video_signal_type_roundtrip() {
    let vs = VideoSignalType {
        colour_primaries: 9,
        transfer_characteristics: 16,
        matrix_coefficients: 0,
        video_full_range_flag: 1,
    };
    let mut io: Vec<u8> = Vec::new();
    write_video_signal_type(&mut io, &vs);
    let size = io.len() as u32;
    let read_vs = read_video_signal_type(&io, 0, size).unwrap();
    assert_eq!(read_vs.colour_primaries, 9);
    assert_eq!(read_vs.transfer_characteristics, 16);
    assert_eq!(read_vs.matrix_coefficients, 0);
    assert_eq!(read_vs.video_full_range_flag, 1);
}

#[test]
fn data_colorant_and_video_edges() {
    let mut out: Vec<u8> = Vec::new();
    write_data_type(&mut out, &IccData { flags: 1, data: vec![7] });
    assert_eq!(out, vec![0, 0, 0, 1, 7]);
    assert_eq!(read_data_type(&out, 0, 3).err().unwrap().code, ErrorCode::Read);
    assert_eq!(read_data_type(&out, 0, 6).err().unwrap().code, ErrorCode::Read);
    let d = read_data_type(&out, 0, 4).unwrap();
    assert_eq!(d.flags, 1);
    assert!(d.data.is_empty());

    let too_many = vec![0u8; 17];
    let mut out: Vec<u8> = vec![5];
    assert_eq!(
        write_colorant_order_type(&mut out, &too_many).err().unwrap().code,
        ErrorCode::Range
    );
    assert_eq!(out, vec![5]);
    // A stored count above 16 is read as 16.
    let mut stored = vec![0, 0, 0, 20];
    stored.extend((0u8..20).collect::<Vec<u8>>());
    assert_eq!(read_colorant_order_type(&stored, 0).unwrap().len(), 16);
    assert_eq!(read_colorant_order_type(&stored[..10], 0).err().unwrap().code, ErrorCode::Read);

    let vs = [9u8, 16, 0, 1];
    assert_eq!(read_video_signal_type(&vs, 0, 5).err().unwrap().code, ErrorCode::Range);
    assert_eq!(read_video_signal_type(&vs, 1, 4).err().unwrap().code, ErrorCode::Read);
}
