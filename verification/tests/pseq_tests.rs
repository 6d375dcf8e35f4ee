use lcms::error::ErrorCode;
use lcms::named::Mlu;
use lcms::pseq::{read_profile_sequence_desc_type, write_profile_sequence_desc_type, SeqEntry};

fn entry(mfg: u32) -> SeqEntry {
    SeqEntry {
        device_mfg: mfg,
        device_model: 0,
        attributes: 0,
        technology: 0,
        manufacturer: Mlu::new(),
        model: Mlu::new(),
    }
}

#[test]
fn profile_sequence_desc_type_roundtrip() {
    let mut e0 = entry(0x4150504C);
    e0.device_model = 0x4D4F4E49;
    e0.attributes = 0x0000_0001_0000_0000;
    // The film scanner technology signature.
    e0.technology = 0x6673636E;
    e0.manufacturer.set_ascii("en", "US", "Apple Inc.");
    e0.model.set_ascii("en", "US", "Cinema Display");
    let mut e1 = entry(0x41444245);
    e1.manufacturer.set_ascii("en", "US", "Adobe");
    let seq = vec![e0, e1];

    let mut io: Vec<u8> = Vec::new();
    write_profile_sequence_desc_type(&mut io, &seq);
    let read_seq = read_profile_sequence_desc_type(&io, 0).unwrap();
    assert_eq!(read_seq.len(), 2);
    let e0 = &read_seq[0];
    assert_eq!(e0.device_mfg, 0x4150504C);
    assert_eq!(e0.device_model, 0x4D4F4E49);
    assert_eq!(e0.attributes, 0x0000_0001_0000_0000);
    assert_eq!(e0.technology, 0x6673636E);
    assert_eq!(e0.manufacturer.get_ascii("en", "US"), Some("Apple Inc.".to_string()));
    assert_eq!(e0.model.get_ascii("en", "US"), Some("Cinema Display".to_string()));
    let e1 = &read_seq[1];
    assert_eq!(e1.device_mfg, 0x41444245);
    assert_eq!(e1.manufacturer.get_ascii("en", "US"), Some("Adobe".to_string()));
}

#[test]
fn pseq_write_layout_of_one_empty_entry() {
    let mut io: Vec<u8> = Vec::new();
    write_profile_sequence_desc_type(&mut io, &[entry(7)]);
    // Count, 20 fixed bytes, then two descriptions of 4 + 16 bytes each.
    assert_eq!(io.len(), 4 + 20 + 2 * (4 + 16));
    assert_eq!(&io[0..8], &[0, 0, 0, 1, 0, 0, 0, 7]);
    assert_eq!(&io[24..36], &[0, 0, 0, 16, b'm', b'l', b'u', b'c', 0, 0, 0, 0]);
    let r = read_profile_sequence_desc_type(&io, 0).unwrap();
    assert_eq!(r.len(), 1);
    assert_eq!(r[0].device_mfg, 7);
}

#[test]
fn pseq_too_many_entries_is_a_range_error() {
    let io: Vec<u8> = vec![0, 0, 1, 1];
    let r = read_profile_sequence_desc_type(&io, 0);
    assert_eq!(r.err().unwrap().code, ErrorCode::Range);
}

#[test]
fn pseq_short_data_is_a_read_error() {
    let io: Vec<u8> = vec![0, 0, 0, 1, 0, 0];
    let r = read_profile_sequence_desc_type(&io, 0);
    assert_eq!(r.err().unwrap().code, ErrorCode::Read);
}

#[test]
fn pseq_reads_plain_text_descriptions_and_zero_sizes() {
    let mut io: Vec<u8> = vec![0, 0, 0, 1];
    io.extend_from_slice(&[0, 0, 0, 1, 0, 0, 0, 2, 0, 0, 0, 0, 0, 0, 0, 3, 0, 0, 0, 4]);
    // A plain text description of 10 bytes: type base, then "Hi".
    io.extend_from_slice(&[0, 0, 0, 10, b't', b'e', b'x', b't', 0, 0, 0, 0, b'H', b'i']);
    // No model description.
    io.extend_from_slice(&[0, 0, 0, 0]);
    let r = read_profile_sequence_desc_type(&io, 0).unwrap();
    assert_eq!(r.len(), 1);
    assert_eq!(r[0].device_model, 2);
    assert_eq!(r[0].attributes, 3);
    assert_eq!(r[0].technology, 4);
    assert_eq!(r[0].manufacturer.get_ascii("en", "US"), Some("Hi".to_string()));
    assert_eq!(r[0].model.translations_count(), 0);
}
