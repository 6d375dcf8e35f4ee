use lcms::error::ErrorCode;
use lcms::named::{CountryCode, Dict, LanguageCode, Mlu};
use lcms::tag_types::{
    read_crd_info_type, read_dict_type, read_mlu_type, read_text_description_type, read_text_type,
    write_crd_info_type, write_dict_type, write_mlu_type, write_text_description_type,
    write_text_type,
};

#[test]
fn mlu_type_roundtrip() {
    let mut mlu = Mlu::new();
    mlu.set_ascii("en", "US", "English");
    mlu.set_ascii("ja", "JP", "Japanese");
    let mut io: Vec<u8> = Vec::new();
    write_mlu_type(&mut io, &mlu);
    let size = io.len() as u32;
    let read_mlu = read_mlu_type(&io, 0, size).unwrap();
    assert_eq!(read_mlu.get_ascii("en", "US"), Some("English".to_string()));
    assert!(read_mlu.translations_count() >= 2);
}

#[test]
fn dict_type_roundtrip_basic() {
    let mut dict = Dict::new();
    dict.add("key1", Some("value1"), None, None);
    dict.add("key2", Some("value2"), None, None);

    let mut io: Vec<u8> = Vec::new();
    write_dict_type(&mut io, &dict);
    let read_dict = read_dict_type(&io, 0).unwrap();
    assert_eq!(read_dict.len(), 2);
    let entries: Vec<_> = read_dict.iter().collect();
    assert_eq!(entries[0].name, "key1");
    assert_eq!(entries[0].value.as_deref(), Some("value1"));
    assert_eq!(entries[1].name, "key2");
    assert_eq!(entries[1].value.as_deref(), Some("value2"));
}

#[test]
fn dict_type_roundtrip_with_display() {
    let mut dict = Dict::new();
    let mut dn = Mlu::new();
    dn.set_utf8("en", "US", "Key Display");
    let mut dv = Mlu::new();
    dv.set_utf8("ja", "JP", "値の表示");
    dict.add("mykey", Some("myval"), Some(&dn), Some(&dv));

    let mut io: Vec<u8> = Vec::new();
    write_dict_type(&mut io, &dict);
    let read_dict = read_dict_type(&io, 0).unwrap();
    assert_eq!(read_dict.len(), 1);
    let entry = read_dict.iter().next().unwrap();
    assert_eq!(entry.name, "mykey");
    assert_eq!(entry.value.as_deref(), Some("myval"));
    assert_eq!(
        entry.display_name.as_ref().unwrap().get_utf8("en", "US"),
        Some("Key Display".to_string())
    );
    assert_eq!(
        entry.display_value.as_ref().unwrap().get_utf8("ja", "JP"),
        Some("値の表示".to_string())
    );
}

#[test]
fn mlu_type_exact_layout() {
    let mut mlu = Mlu::new();
    mlu.set_utf8("en", "US", "A");
    let mut out: Vec<u8> = vec![0xAA];
    write_mlu_type(&mut out, &mlu);
    assert_eq!(
        out,
        vec![
            0xAA, 0, 0, 0, 1, 0, 0, 0, 12, b'e', b'n', b'U', b'S', 0, 0, 0, 2, 0, 0, 0, 20, 0,
            0x41
        ]
    );
}

#[test]
fn mlu_type_round_trip_keeps_order_and_text() {
    let mut mlu = Mlu::new();
    mlu.set_utf8("de", "DE", "Grüße 😀");
    mlu.set_utf8("fr", "FR", "");
    mlu.set_utf8("en", "GB", "Colour");
    let mut out: Vec<u8> = Vec::new();
    write_mlu_type(&mut out, &mlu);
    let back = read_mlu_type(&out, 0, out.len() as u32).unwrap();
    assert_eq!(back.translations_count(), 3);
    assert_eq!(
        back.translation_codes(0),
        Some((LanguageCode(*b"de"), CountryCode(*b"DE")))
    );
    assert_eq!(back.get_utf8("de", "DE"), Some("Grüße 😀".to_string()));
    assert_eq!(back.get_utf8("fr", "FR"), Some(String::new()));
    assert_eq!(back.get_utf8("en", "GB"), Some("Colour".to_string()));
}

#[test]
fn mlu_type_bad_record_length() {
    let data = vec![0, 0, 0, 0, 0, 0, 0, 16];
    let r = read_mlu_type(&data, 0, 8);
    assert_eq!(r.err().unwrap().code, ErrorCode::UnknownExtension);
}

#[test]
fn mlu_type_truncated() {
    let data = vec![0, 0, 0, 1, 0, 0, 0, 12, b'e', b'n'];
    let r = read_mlu_type(&data, 0, 10);
    assert_eq!(r.err().unwrap().code, ErrorCode::Read);
    let short = vec![0, 0];
    assert_eq!(read_mlu_type(&short, 0, 2).err().unwrap().code, ErrorCode::Read);
}

#[test]
fn mlu_type_skips_record_outside_pool() {
    // Two records: the first points past the pool, the second is fine.
    let mut data = vec![0, 0, 0, 2, 0, 0, 0, 12];
    data.extend_from_slice(&[b'x', b'x', b'X', b'X', 0, 0, 0, 2, 0, 0, 0, 100]);
    data.extend_from_slice(&[b'e', b'n', b'U', b'S', 0, 0, 0, 2, 0, 0, 0, 32]);
    data.extend_from_slice(&[0, 0x42]);
    let m = read_mlu_type(&data, 0, data.len() as u32).unwrap();
    assert_eq!(m.translations_count(), 1);
    assert_eq!(m.get_utf8("en", "US"), Some("B".to_string()));
}

#[test]
fn mlu_type_unreadable_code_becomes_en_us() {
    let mut data = vec![0, 0, 0, 1, 0, 0, 0, 12];
    data.extend_from_slice(&[0xFF, 0xFE, 0xC3, 0x28, 0, 0, 0, 2, 0, 0, 0, 20]);
    data.extend_from_slice(&[0, 0x43]);
    let m = read_mlu_type(&data, 0, data.len() as u32).unwrap();
    assert_eq!(
        m.translation_codes(0),
        Some((LanguageCode(*b"en"), CountryCode(*b"US")))
    );
    assert_eq!(m.get_utf8("en", "US"), Some("C".to_string()));
}

#[test]
fn dict_type_record_lengths() {
    let mut d16 = Dict::new();
    d16.add("a", None, None, None);
    let mut out: Vec<u8> = Vec::new();
    write_dict_type(&mut out, &d16);
    assert_eq!(&out[0..8], &[0, 0, 0, 1, 0, 0, 0, 16]);

    let mut dn = Mlu::new();
    dn.set_utf8("en", "US", "N");
    let mut d24 = Dict::new();
    d24.add("a", None, Some(&dn), None);
    let mut out: Vec<u8> = Vec::new();
    write_dict_type(&mut out, &d24);
    assert_eq!(&out[0..8], &[0, 0, 0, 1, 0, 0, 0, 24]);

    let mut d32 = Dict::new();
    d32.add("a", None, Some(&dn), Some(&dn));
    let mut out: Vec<u8> = Vec::new();
    write_dict_type(&mut out, &d32);
    assert_eq!(&out[0..8], &[0, 0, 0, 1, 0, 0, 0, 32]);
}

#[test]
fn dict_type_exact_layout() {
    let mut d = Dict::new();
    d.add("k", Some("v"), None, None);
    let mut out: Vec<u8> = Vec::new();
    write_dict_type(&mut out, &d);
    // Directory at 8..24, name at 24, value at 26.
    assert_eq!(
        out,
        vec![
            0, 0, 0, 1, 0, 0, 0, 16, 0, 0, 0, 24, 0, 0, 0, 2, 0, 0, 0, 26, 0, 0, 0, 2, 0, b'k',
            0, b'v'
        ]
    );
}

#[test]
fn dict_type_after_type_header() {
    let mut d = Dict::new();
    d.add("name", Some("value"), None, None);
    d.add("other", None, None, None);
    let mut out: Vec<u8> = vec![b'd', b'i', b'c', b't', 0, 0, 0, 0];
    write_dict_type(&mut out, &d);
    // Offsets count from the type header's start, so the first name sits
    // at 8 (header) + 8 (count, length) + 2 * 16 (records).
    assert_eq!(&out[16..20], &[0, 0, 0, 48]);
    let back = read_dict_type(&out, 8).unwrap();
    assert_eq!(back.len(), 2);
    let e0 = back.get(0).unwrap();
    assert_eq!(e0.name, "name");
    assert_eq!(e0.value.as_deref(), Some("value"));
    let e1 = back.get(1).unwrap();
    assert_eq!(e1.name, "other");
    assert_eq!(e1.value, None);
    assert!(back.get(2).is_none());
}

#[test]
fn dict_type_errors() {
    // Record length not 16, 24 or 32.
    let bad_len = vec![0, 0, 0, 0, 0, 0, 0, 20];
    assert_eq!(read_dict_type(&bad_len, 0).err().unwrap().code, ErrorCode::Range);
    // Too many entries.
    let too_many = vec![0, 1, 0, 1, 0, 0, 0, 16];
    assert_eq!(read_dict_type(&too_many, 0).err().unwrap().code, ErrorCode::Range);
    // Directory cut short.
    let short = vec![0, 0, 0, 1, 0, 0, 0, 16, 0, 0];
    assert_eq!(read_dict_type(&short, 0).err().unwrap().code, ErrorCode::Read);
    // Header cut short.
    assert_eq!(read_dict_type(&[0, 0, 0], 0).err().unwrap().code, ErrorCode::Read);
    // Odd string size.
    let odd = vec![0, 0, 0, 1, 0, 0, 0, 16, 0, 0, 0, 24, 0, 0, 0, 3, 0, 0, 0, 0, 0, 0, 0, 0, 0, b'a', 0];
    assert_eq!(read_dict_type(&odd, 0).err().unwrap().code, ErrorCode::Range);
    // String past the end.
    let past = vec![0, 0, 0, 1, 0, 0, 0, 16, 0, 0, 0, 24, 0, 0, 0, 4, 0, 0, 0, 0, 0, 0, 0, 0, 0, b'a'];
    assert_eq!(read_dict_type(&past, 0).err().unwrap().code, ErrorCode::Read);
}

#[test]
fn dict_type_trailing_nul_dropped_and_empty_value_absent() {
    let mut d = Dict::new();
    d.add("key\0", Some(""), None, None);
    let mut out: Vec<u8> = Vec::new();
    write_dict_type(&mut out, &d);
    let back = read_dict_type(&out, 0).unwrap();
    let e = back.get(0).unwrap();
    assert_eq!(e.name, "key");
    assert_eq!(e.value, None);
}

#[test]
fn dict_type_empty() {
    let d = Dict::new();
    assert!(d.is_empty());
    let mut out: Vec<u8> = Vec::new();
    write_dict_type(&mut out, &d);
    assert_eq!(out, vec![0, 0, 0, 0, 0, 0, 0, 16]);
    let back = read_dict_type(&out, 0).unwrap();
    assert_eq!(back.len(), 0);
}

#[test]
fn text_type_roundtrip() {
    let mut mlu = Mlu::new();
    mlu.set_ascii("en", "US", "Hello World");
    let mut io: Vec<u8> = Vec::new();
    write_text_type(&mut io, &mlu);
    let size = io.len() as u32;
    let read_mlu = read_text_type(&io, 0, size).unwrap();
    assert_eq!(
        read_mlu.get_ascii("en", "US"),
        Some("Hello World".to_string())
    );
}

#[test]
fn text_description_type_roundtrip() {
    let mut mlu = Mlu::new();
    mlu.set_ascii("en", "US", "Test Description");
    let mut io: Vec<u8> = Vec::new();
    write_text_description_type(&mut io, &mlu);
    let read_mlu = read_text_description_type(&io, 0).unwrap();
    assert_eq!(
        read_mlu.get_ascii("en", "US"),
        Some("Test Description".to_string())
    );
}

#[test]
fn text_type_layout_and_non_ascii() {
    let mut mlu = Mlu::new();
    mlu.set_utf8("en", "US", "Aé");
    let mut out: Vec<u8> = Vec::new();
    write_text_type(&mut out, &mlu);
    assert_eq!(out, vec![b'A', b'?', 0]);
    // Stored text that is not all ASCII gives no entry.
    let stored = vec![b'A', 0xC3, 0xA9, 0, 0];
    let m = read_text_type(&stored, 0, 5).unwrap();
    assert_eq!(m.translations_count(), 0);
    // Too short a stream.
    assert_eq!(read_text_type(&stored, 2, 4).err().unwrap().code, ErrorCode::Read);
    // No entries: an empty text is written.
    let empty = Mlu::new();
    let mut out: Vec<u8> = Vec::new();
    write_text_type(&mut out, &empty);
    assert_eq!(out, vec![0]);
}

#[test]
fn text_description_layout() {
    let mut mlu = Mlu::new();
    mlu.set_ascii("en", "US", "Hi");
    let mut out: Vec<u8> = Vec::new();
    write_text_description_type(&mut out, &mlu);
    assert_eq!(out.len(), 4 + 3 + 4 + 4 + 2 + 1 + 67);
    assert_eq!(&out[0..7], &[0, 0, 0, 3, b'H', b'i', 0]);
    assert!(out[7..].iter().all(|&b| b == 0));
    let bad = vec![0, 0, 0, 9, b'x'];
    assert_eq!(
        read_text_description_type(&bad, 0).err().unwrap().code,
        ErrorCode::Read
    );
}

#[test]
fn crd_info_type_roundtrip() {
    let mut mlu = Mlu::new();
    mlu.set_ascii("PS", "nm", "Product Name");
    mlu.set_ascii("PS", "#0", "CRD Perceptual");
    mlu.set_ascii("PS", "#1", "CRD Colorimetric");
    mlu.set_ascii("PS", "#2", "CRD Saturation");
    mlu.set_ascii("PS", "#3", "CRD Absolute");

    let mut io: Vec<u8> = Vec::new();
    write_crd_info_type(&mut io, &mlu);
    let size = io.len() as u32;
    let read_mlu = read_crd_info_type(&io, 0, size).unwrap();
    assert_eq!(
        read_mlu.get_ascii("PS", "nm"),
        Some("Product Name".to_string())
    );
    assert_eq!(
        read_mlu.get_ascii("PS", "#0"),
        Some("CRD Perceptual".to_string())
    );
    assert_eq!(
        read_mlu.get_ascii("PS", "#3"),
        Some("CRD Absolute".to_string())
    );
}

#[test]
fn crd_info_layout_and_limits() {
    let mut mlu = Mlu::new();
    mlu.set_ascii("PS", "nm", "N");
    let mut out: Vec<u8> = Vec::new();
    write_crd_info_type(&mut out, &mlu);
    // Every section falls back on the only entry.
    let one = vec![0, 0, 0, 2, b'N', 0];
    let mut expected: Vec<u8> = Vec::new();
    for _ in 0..5 {
        expected.extend_from_slice(&one);
    }
    assert_eq!(out, expected);
    // A size that stops inside the last section is a read error.
    assert_eq!(
        read_crd_info_type(&out, 0, 29).err().unwrap().code,
        ErrorCode::Read
    );
    let back = read_crd_info_type(&out, 0, 30).unwrap();
    assert_eq!(back.translations_count(), 5);
    assert_eq!(back.get_ascii("PS", "#2"), Some("N".to_string()));
}
