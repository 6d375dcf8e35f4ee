use lcms::error::ErrorCode;
use lcms::lut::{read_lut16_type, read_lut8_type, uipow, write_lut16_type, write_lut8_type, Lut};

const IDENTITY: [i32; 9] = [0x10000, 0, 0, 0, 0x10000, 0, 0, 0, 0x10000];

fn clut_with_white_corner(n: usize) -> Vec<u16> {
    let mut clut_table = vec![0u16; n];
    if n == 0 {
        return clut_table;
    }
    let last = clut_table.len() - 3;
    clut_table[last] = 65535;
    clut_table[last + 1] = 65535;
    clut_table[last + 2] = 65535;
    clut_table
}

fn identity_curves(channels: usize, entries: usize) -> Vec<u16> {
    let mut v = Vec::new();
    for _ in 0..channels {
        for i in 0..entries {
            v.push(((i as u64 * 65535 + (entries as u64 - 1) / 2) / (entries as u64 - 1)) as u16);
        }
    }
    v
}

fn lut16_3x3(points: u8) -> Lut {
    let p = points as usize;
    Lut {
        input_channels: 3,
        output_channels: 3,
        clut_points: points,
        matrix: IDENTITY,
        input_entries: 2,
        output_entries: 2,
        input_tables: identity_curves(3, 2),
        clut: clut_with_white_corner(p * p * p * 3),
        output_tables: identity_curves(3, 2),
    }
}

fn lut8_3x3(points: u8) -> Lut {
    let p = points as usize;
    Lut {
        input_channels: 3,
        output_channels: 3,
        clut_points: points,
        matrix: IDENTITY,
        input_entries: 256,
        output_entries: 256,
        input_tables: identity_curves(3, 256),
        clut: clut_with_white_corner(p * p * p * 3),
        output_tables: identity_curves(3, 256),
    }
}

fn assert_same(a: &Lut, b: &Lut) {
    assert_eq!(a.input_channels, b.input_channels);
    assert_eq!(a.output_channels, b.output_channels);
    assert_eq!(a.clut_points, b.clut_points);
    assert_eq!(a.matrix, b.matrix);
    assert_eq!(a.input_entries, b.input_entries);
    assert_eq!(a.output_entries, b.output_entries);
    assert_eq!(a.input_tables, b.input_tables);
    assert_eq!(a.clut, b.clut);
    assert_eq!(a.output_tables, b.output_tables);
}

#[test]
fn lut8_type_roundtrip() {
    let lut = lut8_3x3(2);
    let mut io: Vec<u8> = Vec::new();
    write_lut8_type(&mut io, &lut);
    let read = read_lut8_type(&io, 0).unwrap();
    assert_eq!(read.input_channels, 3);
    assert_eq!(read.output_channels, 3);
    // Black in gives black out: the first grid node is black.
    assert_eq!(read.clut[0], 0);
    assert_eq!(read.clut[read.clut.len() - 1], 65535);
    // Identity curves and the matrix hold 8-bit exact values, so they come back unchanged.
    assert_same(&read, &lut);
}

#[test]
fn lut16_type_roundtrip() {
    let lut = lut16_3x3(5);
    let mut io: Vec<u8> = Vec::new();
    write_lut16_type(&mut io, &lut);
    let read = read_lut16_type(&io, 0).unwrap();
    assert_eq!(read.input_channels, 3);
    assert_eq!(read.output_channels, 3);
    // White in gives white out: the last grid node is white.
    assert_eq!(read.clut[read.clut.len() - 3], 65535);
    assert_eq!(read.clut.len(), 5 * 5 * 5 * 3);
    assert_same(&read, &lut);
}

#[test]
fn lut16_layout_exact_bytes() {
    let lut = Lut {
        input_channels: 1,
        output_channels: 1,
        clut_points: 0,
        matrix: IDENTITY,
        input_entries: 2,
        output_entries: 2,
        input_tables: vec![0x0000, 0xFFFF],
        clut: Vec::new(),
        output_tables: vec![0x1234, 0xABCD],
    };
    let mut io: Vec<u8> = vec![0xEE];
    write_lut16_type(&mut io, &lut);
    assert_eq!(io.len(), 1 + 8 + 36 + 4 + 4);
    assert_eq!(&io[1..9], &[1, 1, 0, 0, 0, 2, 0, 2]);
    assert_eq!(&io[9..13], &[0, 1, 0, 0]);
    assert_eq!(&io[45..53], &[0x00, 0x00, 0xFF, 0xFF, 0x12, 0x34, 0xAB, 0xCD]);
    let read = read_lut16_type(&io, 1).unwrap();
    assert_same(&read, &lut);
}

#[test]
fn lut8_narrows_and_widens_samples() {
    let mut lut = lut8_3x3(0);
    lut.clut = Vec::new();
    lut.input_tables[1] = 0x0180; // rounds to 0x01, widens to 0x0101
    let mut io: Vec<u8> = Vec::new();
    write_lut8_type(&mut io, &lut);
    assert_eq!(io.len(), 4 + 36 + 3 * 256 + 3 * 256);
    assert_eq!(io[41], 0x01);
    let read = read_lut8_type(&io, 0).unwrap();
    assert_eq!(read.input_tables[1], 0x0101);
    assert_eq!(read.input_tables[255], 0xFFFF);
}

#[test]
fn lut_matrix_keeps_negative_numbers() {
    let mut lut = lut16_3x3(0);
    lut.clut = Vec::new();
    lut.matrix = [-0x10000, 0x8000, -1, 0, 0x10000, 0, i32::MIN, 0, i32::MAX];
    let mut io: Vec<u8> = Vec::new();
    write_lut16_type(&mut io, &lut);
    assert_eq!(&io[8..12], &[0xFF, 0xFF, 0x00, 0x00]);
    let read = read_lut16_type(&io, 0).unwrap();
    assert_eq!(read.matrix, lut.matrix);
}

#[test]
fn lut_zero_channels_is_range_error() {
    let mut lut = lut16_3x3(0);
    lut.clut = Vec::new();
    lut.input_channels = 0;
    let mut io: Vec<u8> = Vec::new();
    write_lut16_type(&mut io, &lut);
    assert_eq!(read_lut16_type(&io, 0).err().unwrap().code, ErrorCode::Range);
    let mut io8: Vec<u8> = Vec::new();
    let mut lut8 = lut8_3x3(0);
    lut8.clut = Vec::new();
    lut8.output_channels = 0;
    write_lut8_type(&mut io8, &lut8);
    assert_eq!(read_lut8_type(&io8, 0).err().unwrap().code, ErrorCode::Range);
}

#[test]
fn lut_single_grid_point_is_range_error() {
    let lut = lut16_3x3(1);
    let mut io: Vec<u8> = Vec::new();
    write_lut16_type(&mut io, &lut);
    assert_eq!(read_lut16_type(&io, 0).err().unwrap().code, ErrorCode::Range);
    let lut8 = lut8_3x3(1);
    let mut io8: Vec<u8> = Vec::new();
    write_lut8_type(&mut io8, &lut8);
    assert_eq!(read_lut8_type(&io8, 0).err().unwrap().code, ErrorCode::Range);
}

#[test]
fn lut16_too_many_curve_entries_is_range_error() {
    let mut io: Vec<u8> = vec![1, 1, 0, 0, 0x80, 0x00, 0, 2];
    io.extend_from_slice(&[0u8; 36]);
    assert_eq!(read_lut16_type(&io, 0).err().unwrap().code, ErrorCode::Range);
}

#[test]
fn lut_clut_size_overflow_is_range_error() {
    // 8 inputs, 255 outputs, 255 grid points: 255 * 255^8 does not fit in 32 bits.
    let mut io: Vec<u8> = vec![8, 255, 255, 0, 0, 0, 0, 0];
    io.extend_from_slice(&[0u8; 36]);
    assert_eq!(read_lut16_type(&io, 0).err().unwrap().code, ErrorCode::Range);
    let mut io8: Vec<u8> = vec![8, 255, 255, 0];
    io8.extend_from_slice(&[0u8; 36]);
    io8.extend_from_slice(&vec![0u8; 8 * 256]);
    assert_eq!(read_lut8_type(&io8, 0).err().unwrap().code, ErrorCode::Range);
}

#[test]
fn lut_truncated_payload_is_read_error() {
    let lut = lut16_3x3(2);
    let mut io: Vec<u8> = Vec::new();
    write_lut16_type(&mut io, &lut);
    for cut in [0usize, 7, 8, 43, 44, io.len() - 1] {
        assert_eq!(read_lut16_type(&io[..cut], 0).err().unwrap().code, ErrorCode::Read);
    }
    let lut8 = lut8_3x3(2);
    let mut io8: Vec<u8> = Vec::new();
    write_lut8_type(&mut io8, &lut8);
    for cut in [0usize, 3, 39, 40 + 3 * 256, io8.len() - 1] {
        assert_eq!(read_lut8_type(&io8[..cut], 0).err().unwrap().code, ErrorCode::Read);
    }
    assert_eq!(read_lut16_type(&io, io.len() + 5).err().unwrap().code, ErrorCode::Read);
}

#[test]
fn uipow_exact_values() {
    assert_eq!(uipow(3, 2, 3), Some(24));
    assert_eq!(uipow(3, 17, 0), Some(3));
    assert_eq!(uipow(0, 5, 5), Some(0));
    assert_eq!(uipow(7, 0, 0), Some(0));
    assert_eq!(uipow(1, 2, 31), Some(1 << 31));
    assert_eq!(uipow(1, 2, 32), None);
    assert_eq!(uipow(2, 2, 31), None);
    assert_eq!(uipow(3, 33, 3), Some(3 * 33 * 33 * 33));
    assert_eq!(uipow(u32::MAX, 1, 1000), Some(u32::MAX));
}
