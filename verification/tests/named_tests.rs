use lcms::named::{CountryCode, LanguageCode, Mlu};
use lcms::text::{decode_utf16be, encode_utf16be};

#[test]
fn mlu_new_is_empty() {
    let mlu = Mlu::new();
    assert_eq!(mlu.translations_count(), 0);
}

#[test]
fn mlu_set_get_ascii() {
    let mut mlu = Mlu::new();
    assert!(mlu.set_ascii("en", "US", "Hello"));
    assert_eq!(mlu.get_ascii("en", "US"), Some("Hello".to_string()));
}

#[test]
fn mlu_set_get_utf8() {
    let mut mlu = Mlu::new();
    assert!(mlu.set_utf8("ja", "JP", "こんにちは"));
    assert_eq!(mlu.get_utf8("ja", "JP"), Some("こんにちは".to_string()));
}

#[test]
fn mlu_ascii_retrieved_as_utf8() {
    let mut mlu = Mlu::new();
    assert!(mlu.set_ascii("en", "US", "Hello"));
    assert_eq!(mlu.get_utf8("en", "US"), Some("Hello".to_string()));
}

#[test]
fn mlu_set_ascii_rejects_non_ascii() {
    let mut mlu = Mlu::new();
    assert!(!mlu.set_ascii("ja", "JP", "こんにちは"));
    assert_eq!(mlu.translations_count(), 0);
}

#[test]
fn mlu_multiple_languages() {
    let mut mlu = Mlu::new();
    assert!(mlu.set_utf8("en", "US", "Hello"));
    assert!(mlu.set_utf8("ja", "JP", "こんにちは"));
    assert!(mlu.set_utf8("de", "DE", "Hallo"));
    assert_eq!(mlu.translations_count(), 3);
    assert_eq!(mlu.get_utf8("en", "US"), Some("Hello".to_string()));
    assert_eq!(mlu.get_utf8("ja", "JP"), Some("こんにちは".to_string()));
    assert_eq!(mlu.get_utf8("de", "DE"), Some("Hallo".to_string()));
}

#[test]
fn mlu_overwrite_same_entry() {
    let mut mlu = Mlu::new();
    assert!(mlu.set_utf8("en", "US", "Hello"));
    assert!(mlu.set_utf8("en", "US", "World"));
    assert_eq!(mlu.translations_count(), 1);
    assert_eq!(mlu.get_utf8("en", "US"), Some("World".to_string()));
}

#[test]
fn mlu_fallback_language_only() {
    let mut mlu = Mlu::new();
    assert!(mlu.set_utf8("en", "US", "Color"));
    assert_eq!(mlu.get_utf8("en", "GB"), Some("Color".to_string()));
}

#[test]
fn mlu_fallback_first_entry() {
    let mut mlu = Mlu::new();
    assert!(mlu.set_utf8("en", "US", "Hello"));
    assert!(mlu.set_utf8("ja", "JP", "こんにちは"));
    assert_eq!(mlu.get_utf8("fr", "FR"), Some("Hello".to_string()));
}

#[test]
fn mlu_empty_returns_none() {
    let mlu = Mlu::new();
    assert_eq!(mlu.get_utf8("en", "US"), None);
    assert_eq!(mlu.get_ascii("en", "US"), None);
}

#[test]
fn mlu_translation_codes() {
    let mut mlu = Mlu::new();
    assert!(mlu.set_utf8("en", "US", "Hello"));
    assert!(mlu.set_utf8("ja", "JP", "こんにちは"));
    let (lang, country) = mlu.translation_codes(0).unwrap();
    assert_eq!(lang, LanguageCode(*b"en"));
    assert_eq!(country, CountryCode(*b"US"));
    let (lang, country) = mlu.translation_codes(1).unwrap();
    assert_eq!(lang, LanguageCode(*b"ja"));
    assert_eq!(country, CountryCode(*b"JP"));
    assert!(mlu.translation_codes(2).is_none());
}

#[test]
fn mlu_clone() {
    let mut mlu = Mlu::new();
    assert!(mlu.set_utf8("en", "US", "Hello"));
    let mlu2 = mlu.clone();
    assert_eq!(mlu2.get_utf8("en", "US"), Some("Hello".to_string()));
    assert_eq!(mlu2.translations_count(), 1);
}

// ---- further cases ----

#[test]
fn mlu_ascii_of_non_ascii_text_uses_question_marks() {
    let mut mlu = Mlu::default();
    assert!(mlu.set_utf8("fr", "FR", "déjà"));
    assert_eq!(mlu.get_ascii("fr", "FR"), Some("d?j?".to_string()));
}

#[test]
fn mlu_short_codes_are_padded_with_zero() {
    let mut mlu = Mlu::new();
    assert!(mlu.set_utf8("e", "", "x"));
    let (lang, country) = mlu.translation_codes(0).unwrap();
    assert_eq!(lang, LanguageCode([b'e', 0]));
    assert_eq!(country, CountryCode([0, 0]));
}

#[test]
fn utf16be_encoding_exact_bytes() {
    assert_eq!(encode_utf16be("A\u{e9}"), vec![0x00, 0x41, 0x00, 0xE9]);
    assert_eq!(encode_utf16be("\u{1F600}"), vec![0xD8, 0x3D, 0xDE, 0x00]);
    assert_eq!(decode_utf16be(&[0xD8, 0x3D, 0xDE, 0x00]), "\u{1F600}");
    assert_eq!(decode_utf16be(&[0xD8, 0x3D, 0x00, 0x41]), "\u{FFFD}A");
    assert_eq!(decode_utf16be(&[0x00, 0x41, 0x00]), "A");
}
