use lcms::error::ErrorCode;
use lcms::lut_atob::{read_lut_atob_type, read_lut_btoa_type, Clut, Curve, LutAtoB};
use lcms::lut_v4_write::{write_lut_atob_type, write_lut_btoa_type};

fn be32(v: u32) -> [u8; 4] {
    v.to_be_bytes()
}

/// Header of a payload: channel counts and the five offsets (B, matrix, M,
/// CLUT, A), counted from the start of the 8-byte type base.
fn header(inp: u8, out: u8, offs: [u32; 5]) -> Vec<u8> {
    let mut v = vec![inp, out, 0, 0];
    for o in offs {
        v.extend_from_slice(&be32(o));
    }
    v
}

fn identity_curve() -> Vec<u8> {
    let mut v = b"curv".to_vec();
    v.extend_from_slice(&[0, 0, 0, 0, 0, 0, 0, 0]);
    v
}

fn gamma_para(gamma: i32) -> Vec<u8> {
    let mut v = b"para".to_vec();
    v.extend_from_slice(&[0, 0, 0, 0, 0, 0, 0, 0]);
    v.extend_from_slice(&gamma.to_be_bytes());
    v
}

#[test]
fn lut_atob_reads_parts_by_offset() {
    // B curves at payload 24 (offset 32), A curves at payload 36 (offset 44).
    let mut p = header(1, 1, [32, 0, 0, 0, 44]);
    p.extend_from_slice(&identity_curve());
    p.extend_from_slice(&gamma_para(0x0002_3333));
    let l = read_lut_atob_type(&p).unwrap();
    assert_eq!(l.input_channels, 1);
    assert_eq!(l.output_channels, 1);
    match &l.a_curves.as_ref().unwrap()[0] {
        Curve::Parametric(kind, params) => {
            assert_eq!(*kind, 0);
            assert_eq!(params, &vec![0x0002_3333]);
        }
        _ => panic!("Expected a formula curve"),
    }
    assert!(matches!(l.b_curves.as_ref().unwrap()[0], Curve::Identity));
    assert!(l.clut.is_none());
    assert!(l.m_curves.is_none());
    assert!(l.matrix.is_none());
}

#[test]
fn lut_atob_clut_matrix_and_tables() {
    // 2 inputs, 1 output: CLUT at payload 24, matrix after it, M curves after that.
    let clut_pos = 24u32;
    let mut clut = vec![2u8, 3];
    clut.extend_from_slice(&[0u8; 13]);
    clut.extend_from_slice(&[2, 0, 0, 0]);
    for v in [0u16, 0x4000, 0x8000, 0xC000, 0xE000, 0xFFFF] {
        clut.extend_from_slice(&v.to_be_bytes());
    }
    let mat_pos = clut_pos + clut.len() as u32;
    let mut mat = Vec::new();
    for k in 0..12i32 {
        mat.extend_from_slice(&(k * 0x10000 - 0x20000).to_be_bytes());
    }
    let m_pos = mat_pos + mat.len() as u32;
    let mut m = b"curv".to_vec();
    m.extend_from_slice(&[0, 0, 0, 0, 0, 0, 0, 3, 0x00, 0x00, 0x80, 0x00, 0xFF, 0xFF]);
    let mut p = header(2, 1, [0, mat_pos + 8, m_pos + 8, clut_pos + 8, 0]);
    p.extend_from_slice(&clut);
    p.extend_from_slice(&mat);
    p.extend_from_slice(&m);
    let l = read_lut_atob_type(&p).unwrap();
    let c = l.clut.unwrap();
    assert_eq!(&c.grid[..3], &[2, 3, 0]);
    assert_eq!(c.precision, 2);
    assert_eq!(c.table, vec![0, 0x4000, 0x8000, 0xC000, 0xE000, 0xFFFF]);
    let x = l.matrix.unwrap();
    assert_eq!(x.len(), 12);
    assert_eq!(x[0], -0x20000);
    assert_eq!(x[11], 9 * 0x10000);
    match &l.m_curves.unwrap()[0] {
        Curve::Table(t) => assert_eq!(t, &vec![0, 0x8000, 0xFFFF]),
        _ => panic!("Expected a table curve"),
    }
}

#[test]
fn lut_atob_eight_bit_clut_and_gamma_curve() {
    let mut clut = vec![2u8];
    clut.extend_from_slice(&[0u8; 14]);
    clut.extend_from_slice(&[1, 0, 0, 0, 0x00, 0x80, 0x10, 0xFF]);
    let mut p = header(1, 2, [0, 0, 0, 32, 0]);
    p.extend_from_slice(&clut);
    let l = read_lut_atob_type(&p).unwrap();
    assert_eq!(l.clut.unwrap().table, vec![0x0000, 0x8080, 0x1010, 0xFFFF]);

    let mut p = header(1, 1, [32, 0, 0, 0, 0]);
    p.extend_from_slice(b"curv");
    p.extend_from_slice(&[0, 0, 0, 0, 0, 0, 0, 1, 0x02, 0x33]);
    let l = read_lut_atob_type(&p).unwrap();
    assert!(matches!(l.b_curves.unwrap()[0], Curve::Gamma(0x0233)));
}

#[test]
fn lut_atob_curves_start_on_four_byte_boundaries() {
    // Two B curves: the first is 14 bytes long, so the second starts 2 bytes later.
    let mut p = header(1, 2, [32, 0, 0, 0, 0]);
    p.extend_from_slice(b"curv");
    p.extend_from_slice(&[0, 0, 0, 0, 0, 0, 0, 1, 0x01, 0x00]);
    p.extend_from_slice(&[0xEE, 0xEE]);
    p.extend_from_slice(&identity_curve());
    let l = read_lut_atob_type(&p).unwrap();
    let b = l.b_curves.unwrap();
    assert!(matches!(b[0], Curve::Gamma(0x0100)));
    assert!(matches!(b[1], Curve::Identity));
}

#[test]
fn lut_atob_seek_past_end_stays_in_place() {
    // The B offset points past the payload: the curve is read where the stream stands.
    let mut p = header(1, 1, [5000, 0, 0, 0, 0]);
    p.extend_from_slice(&identity_curve());
    let l = read_lut_atob_type(&p).unwrap();
    assert!(matches!(l.b_curves.unwrap()[0], Curve::Identity));
}

#[test]
fn lut_atob_errors() {
    // Header cut short.
    assert_eq!(read_lut_atob_type(&[1, 1, 0, 0]).err().unwrap().code, ErrorCode::Read);
    // Unknown curve type.
    let mut p = header(1, 1, [32, 0, 0, 0, 0]);
    p.extend_from_slice(b"xxxx");
    p.extend_from_slice(&[0u8; 8]);
    assert_eq!(read_lut_atob_type(&p).err().unwrap().code, ErrorCode::UnknownExtension);
    // Formula of an unknown kind.
    let mut p = header(1, 1, [32, 0, 0, 0, 0]);
    p.extend_from_slice(b"para");
    p.extend_from_slice(&[0, 0, 0, 0, 0, 5, 0, 0]);
    assert_eq!(read_lut_atob_type(&p).err().unwrap().code, ErrorCode::UnknownExtension);
    // Curve table too long.
    let mut p = header(1, 1, [32, 0, 0, 0, 0]);
    p.extend_from_slice(b"curv");
    p.extend_from_slice(&[0, 0, 0, 0, 0, 0, 0x80, 0x00]);
    assert_eq!(read_lut_atob_type(&p).err().unwrap().code, ErrorCode::Range);
    // Curve table cut short.
    let mut p = header(1, 1, [32, 0, 0, 0, 0]);
    p.extend_from_slice(b"curv");
    p.extend_from_slice(&[0, 0, 0, 0, 0, 0, 0, 4, 0, 0]);
    assert_eq!(read_lut_atob_type(&p).err().unwrap().code, ErrorCode::Read);
    // A grid of a single point.
    let mut p = header(1, 1, [0, 0, 0, 32, 0]);
    p.push(1);
    p.extend_from_slice(&[0u8; 14]);
    p.extend_from_slice(&[2, 0, 0, 0, 0, 0]);
    assert_eq!(read_lut_atob_type(&p).err().unwrap().code, ErrorCode::Range);
    // Unknown precision.
    let mut p = header(1, 1, [0, 0, 0, 32, 0]);
    p.push(2);
    p.extend_from_slice(&[0u8; 14]);
    p.extend_from_slice(&[3, 0, 0, 0, 0, 0, 0, 0]);
    assert_eq!(read_lut_atob_type(&p).err().unwrap().code, ErrorCode::UnknownExtension);
    // Matrix cut short.
    let mut p = header(1, 1, [0, 32, 0, 0, 0]);
    p.extend_from_slice(&[0u8; 40]);
    assert_eq!(read_lut_atob_type(&p).err().unwrap().code, ErrorCode::Read);
}

#[test]
fn lut_btoa_reads_parts_in_its_order() {
    // One input, two outputs: one B curve at payload 24, two A curves at payload 36.
    let mut p = header(1, 2, [32, 0, 0, 0, 44]);
    p.extend_from_slice(&identity_curve());
    p.extend_from_slice(&gamma_para(0x0001_8000));
    p.extend_from_slice(&identity_curve());
    let l = read_lut_btoa_type(&p).unwrap();
    assert_eq!(l.input_channels, 1);
    assert_eq!(l.output_channels, 2);
    assert_eq!(l.b_curves.as_ref().unwrap().len(), 1);
    let a = l.a_curves.unwrap();
    assert_eq!(a.len(), 2);
    assert!(matches!(a[0], Curve::Parametric(0, _)));
    assert!(matches!(a[1], Curve::Identity));
    // The same bytes as a device-to-PCS table take one A curve per input.
    let l2 = read_lut_atob_type(&p).unwrap();
    assert_eq!(l2.a_curves.unwrap().len(), 1);
    assert_eq!(l2.b_curves.unwrap().len(), 2);
}

fn gamma(g: f64) -> Curve {
    Curve::Parametric(0, vec![(g * 65536.0).round() as i32])
}

fn three(c: &Curve) -> Vec<Curve> {
    let one = match c {
        Curve::Parametric(k, p) => (*k, p.clone()),
        _ => unreachable!(),
    };
    (0..3).map(|_| Curve::Parametric(one.0, one.1.clone())).collect()
}

fn mid_grey_clut() -> Clut {
    let mut grid = vec![3u8, 3, 3];
    grid.extend_from_slice(&[0u8; 12]);
    Clut { grid, precision: 2, table: vec![32768u16; 3 * 3 * 3 * 3] }
}

fn identity_with_offsets() -> Vec<i32> {
    vec![0x10000, 0, 0, 0, 0x10000, 0, 0, 0, 0x10000, 0, 0, 0]
}

fn same_curves(a: &[Curve], b: &[Curve]) {
    assert_eq!(a.len(), b.len());
    for (x, y) in a.iter().zip(b.iter()) {
        match (x, y) {
            (Curve::Parametric(k1, p1), Curve::Parametric(k2, p2)) => {
                assert_eq!(k1, k2);
                assert_eq!(p1, p2);
            }
            (Curve::Table(t1), Curve::Table(t2)) => assert_eq!(t1, t2),
            (Curve::Gamma(g1), Curve::Gamma(g2)) => assert_eq!(g1, g2),
            (Curve::Identity, Curve::Identity) => {}
            _ => panic!("curves differ"),
        }
    }
}

#[test]
fn lut_atob_type_roundtrip() {
    // A curves (gamma 2.2), CLUT 3x3x3 of mid grey, M curves, matrix, B curves.
    let l = LutAtoB {
        input_channels: 3,
        output_channels: 3,
        a_curves: Some(three(&gamma(2.2))),
        clut: Some(mid_grey_clut()),
        m_curves: Some(three(&gamma(1.0))),
        matrix: Some(identity_with_offsets()),
        b_curves: Some(three(&gamma(1.0))),
    };
    let mut io: Vec<u8> = Vec::with_capacity(65536);
    write_lut_atob_type(&mut io, &l);
    // Header, A curves (48), CLUT (181), M curves (3 bytes of padding after
    // the first, since they start off a four-byte boundary), matrix, B curves.
    assert_eq!(io.len(), 24 + 48 + (19 + 2 * 81) + 51 + 48 + 48);
    let r = read_lut_atob_type(&io).unwrap();
    assert_eq!(r.input_channels, 3);
    assert_eq!(r.output_channels, 3);
    same_curves(r.a_curves.as_ref().unwrap(), l.a_curves.as_ref().unwrap());
    same_curves(r.m_curves.as_ref().unwrap(), l.m_curves.as_ref().unwrap());
    same_curves(r.b_curves.as_ref().unwrap(), l.b_curves.as_ref().unwrap());
    let c = r.clut.unwrap();
    assert_eq!(c.grid, mid_grey_clut().grid);
    assert_eq!(c.table, vec![32768u16; 81]);
    assert_eq!(r.matrix.unwrap(), identity_with_offsets());
    // The A curves come first, right after the header (offset 24 + 8).
    assert_eq!(&io[20..24], &32u32.to_be_bytes());
}

#[test]
fn lut_btoa_type_roundtrip() {
    // B curves, matrix, M curves, CLUT 3x3x3 of mid grey, A curves.
    let l = LutAtoB {
        input_channels: 3,
        output_channels: 3,
        a_curves: Some(three(&gamma(1.0))),
        clut: Some(mid_grey_clut()),
        m_curves: Some(three(&gamma(1.0))),
        matrix: Some(identity_with_offsets()),
        b_curves: Some(three(&gamma(1.0))),
    };
    let mut io: Vec<u8> = Vec::with_capacity(65536);
    write_lut_btoa_type(&mut io, &l);
    let r = read_lut_btoa_type(&io).unwrap();
    assert_eq!(r.input_channels, 3);
    assert_eq!(r.output_channels, 3);
    same_curves(r.b_curves.as_ref().unwrap(), l.b_curves.as_ref().unwrap());
    same_curves(r.a_curves.as_ref().unwrap(), l.a_curves.as_ref().unwrap());
    assert_eq!(r.clut.unwrap().table, vec![32768u16; 81]);
    assert_eq!(r.matrix.unwrap(), identity_with_offsets());
    // The B curves come first, right after the header (offset 24 + 8).
    assert_eq!(&io[4..8], &32u32.to_be_bytes());
}

#[test]
fn lut_v4_write_pads_curves_and_stores_two_byte_samples() {
    // A 14-byte gamma curve is padded to 16; an 8-bit CLUT is written with two bytes per sample.
    let mut grid = vec![2u8];
    grid.extend_from_slice(&[0u8; 14]);
    let l = LutAtoB {
        input_channels: 1,
        output_channels: 1,
        a_curves: Some(vec![Curve::Gamma(0x0233)]),
        clut: Some(Clut { grid, precision: 1, table: vec![0x0101, 0xFEFE] }),
        m_curves: None,
        matrix: None,
        b_curves: Some(vec![Curve::Table(vec![0, 0x8000, 0xFFFF])]),
    };
    let mut io: Vec<u8> = vec![0xAA];
    write_lut_atob_type(&mut io, &l);
    let p = &io[1..];
    assert_eq!(&p[24 + 14..24 + 16], &[0, 0]);
    assert_eq!(&p[4..8], &(8u32 + 24 + 16 + 23).to_be_bytes());
    assert_eq!(&p[8..16], &[0u8; 8]);
    let r = read_lut_atob_type(p).unwrap();
    let c = r.clut.unwrap();
    assert_eq!(c.precision, 2);
    assert_eq!(c.table, vec![0x0101, 0xFEFE]);
    assert!(matches!(r.a_curves.unwrap()[0], Curve::Gamma(0x0233)));
    match &r.b_curves.unwrap()[0] {
        Curve::Table(t) => assert_eq!(t, &vec![0, 0x8000, 0xFFFF]),
        _ => panic!("Expected a table curve"),
    }
}
