use lcms::error::ErrorCode;
use lcms::named_color::{read_named_color_type, write_named_color_type, NamedColor, NamedColorList};

fn list() -> NamedColorList {
    NamedColorList {
        colorant_count: 2,
        prefix: "PANTONE ".to_string(),
        suffix: " CV".to_string(),
        colors: vec![
            NamedColor { name: "Red 032".to_string(), pcs: [0x8000, 0x2000, 0x3000], colorant: vec![1, 2] },
            NamedColor { name: "Blue 072".to_string(), pcs: [0x1000, 0x9000, 0x0100], colorant: vec![3, 4] },
        ],
    }
}

#[test]
fn named_color_type_roundtrip() {
    let l = list();
    let mut io: Vec<u8> = Vec::new();
    write_named_color_type(&mut io, &l);
    assert_eq!(io.len(), 12 + 64 + 2 * (38 + 4));
    assert_eq!(&io[0..12], &[0, 0, 0, 0, 0, 0, 0, 2, 0, 0, 0, 2]);
    let r = read_named_color_type(&io, 0).unwrap();
    assert_eq!(r.colorant_count, 2);
    assert_eq!(r.prefix, "PANTONE ");
    assert_eq!(r.suffix, " CV");
    assert_eq!(r.colors.len(), 2);
    assert_eq!(r.colors[0].name, "Red 032");
    assert_eq!(r.colors[0].pcs, [0x8000, 0x2000, 0x3000]);
    assert_eq!(r.colors[1].name, "Blue 072");
    assert_eq!(r.colors[1].colorant, vec![3, 4]);
}

#[test]
fn named_color_long_names_are_cut_to_31_bytes() {
    let mut l = list();
    l.colors[0].name = "A".repeat(40);
    let mut io: Vec<u8> = Vec::new();
    write_named_color_type(&mut io, &l);
    let r = read_named_color_type(&io, 0).unwrap();
    assert_eq!(r.colors[0].name, "A".repeat(31));
}

#[test]
fn named_color_invalid_utf8_name_is_replaced() {
    let mut io: Vec<u8> = vec![0, 0, 0, 0, 0, 0, 0, 1, 0, 0, 0, 0];
    io.extend_from_slice(&[0u8; 64]);
    let mut name = [0u8; 32];
    name[0] = b'x';
    name[1] = 0xFF;
    io.extend_from_slice(&name);
    io.extend_from_slice(&[0, 1, 0, 2, 0, 3]);
    let r = read_named_color_type(&io, 0).unwrap();
    assert_eq!(r.colors[0].name, "x\u{FFFD}");
    assert_eq!(r.colors[0].pcs, [1, 2, 3]);
    assert!(r.colors[0].colorant.is_empty());
}

#[test]
fn named_color_errors() {
    // Too many device values.
    let mut io: Vec<u8> = vec![0, 0, 0, 0, 0, 0, 0, 1, 0, 0, 0, 17];
    io.extend_from_slice(&[0u8; 64]);
    assert_eq!(read_named_color_type(&io, 0).err().unwrap().code, ErrorCode::Range);
    // Header cut short.
    assert_eq!(read_named_color_type(&io[..8], 0).err().unwrap().code, ErrorCode::Read);
    // Prefix and suffix cut short.
    let io2: Vec<u8> = vec![0, 0, 0, 0, 0, 0, 0, 0, 0, 0, 0, 0, 0];
    assert_eq!(read_named_color_type(&io2, 0).err().unwrap().code, ErrorCode::Read);
    // Colours cut short.
    let l = list();
    let mut w: Vec<u8> = Vec::new();
    write_named_color_type(&mut w, &l);
    assert_eq!(read_named_color_type(&w[..w.len() - 1], 0).err().unwrap().code, ErrorCode::Read);
}

#[test]
fn named_color2_type_roundtrip() {
    let list = NamedColorList {
        colorant_count: 3,
        prefix: "pre_".to_string(),
        suffix: "_suf".to_string(),
        colors: vec![NamedColor {
            name: "Crimson".to_string(),
            pcs: [1000, 2000, 3000],
            colorant: vec![4000, 5000, 6000],
        }],
    };
    let mut io: Vec<u8> = Vec::new();
    write_named_color_type(&mut io, &list);
    let read_list = read_named_color_type(&io, 0).unwrap();
    assert_eq!(read_list.colors.len(), 1);
    assert_eq!(read_list.prefix, "pre_");
    assert_eq!(read_list.suffix, "_suf");
    let color = &read_list.colors[0];
    assert_eq!(color.name, "Crimson");
    assert_eq!(color.pcs, [1000, 2000, 3000]);
    assert_eq!(color.colorant[0], 4000);
    assert_eq!(color.colorant[1], 5000);
    assert_eq!(color.colorant[2], 6000);
}
