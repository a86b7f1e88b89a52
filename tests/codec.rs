use name_service::codec::{encode_long, parse_label_string, reverse_parse_label, string_to_u128};
use name_service::error::NameError;

#[test]
fn short_word_is_little_endian() {
    assert_eq!(string_to_u128("a"), Ok(97));
    assert_eq!(string_to_u128("ab"), Ok(97 + 98 * 256));
    assert_eq!(string_to_u128(""), Ok(0));
}

#[test]
fn short_word_limits() {
    assert!(string_to_u128("abcdefghijklmnop").is_ok());
    assert_eq!(string_to_u128("abcdefghijklmnopq"), Err(NameError::TooLong));
    assert_eq!(string_to_u128("Address"), Err(NameError::InvalidCharacter));
    assert_eq!(string_to_u128("a.b"), Err(NameError::InvalidCharacter));
}

#[test]
fn long_words_layout() {
    assert_eq!(encode_long("a", true), Ok([97, 0, 0, 0]));
    let label = "abcdefghijklmnopq";
    let w = encode_long(label, true).unwrap();
    assert_eq!(w[1], 113);
    assert_eq!(w[2], 0);
    assert_eq!(w[0], u128::from_le_bytes(*b"abcdefghijklmnop"));
}

#[test]
fn long_length_boundary() {
    let l63 = "a".repeat(63);
    let l64 = "a".repeat(64);
    let l65 = "a".repeat(65);
    assert!(encode_long(&l63, true).is_ok());
    assert!(encode_long(&l64, true).is_ok());
    assert_eq!(encode_long(&l65, true), Err(NameError::TooLong));
    assert_eq!(encode_long(&l65, false), Err(NameError::TooLong));
}

#[test]
fn long_checks_characters_only_when_asked() {
    assert_eq!(encode_long("Hello World", true), Err(NameError::InvalidCharacter));
    assert!(encode_long("Hello World", false).is_ok());
    assert_eq!(encode_long(&"A".repeat(70), true), Err(NameError::InvalidCharacter));
}

#[test]
fn label_literal() {
    assert_eq!(parse_label_string("a", true), Ok("[97u128, 0u128, 0u128, 0u128]".to_string()));
    assert_eq!(parse_label_string("", false), Ok("[0u128, 0u128, 0u128, 0u128]".to_string()));
    assert_eq!(parse_label_string("a b", true), Err(NameError::InvalidCharacter));
}

#[test]
fn decode_words() {
    assert_eq!(reverse_parse_label(97, 0, 0, 0), Ok("a".to_string()));
    assert_eq!(reverse_parse_label(0, 0, 0, 0), Ok(String::new()));
    assert_eq!(reverse_parse_label(0xff, 0, 0, 0), Err(NameError::InvalidEncoding));
}

#[test]
fn decode_keeps_interior_zeros() {
    let w0 = 97 + (98u128 << 16);
    assert_eq!(reverse_parse_label(w0, 0, 0, 0), Ok("a\u{0}b".to_string()));
    assert_eq!(reverse_parse_label(97, 0, 98, 0), Ok(format!("a{}b", "\u{0}".repeat(31))));
}

#[test]
fn round_trip_labels() {
    for label in ["", "a", "ans", "my-name_01", &"z".repeat(63), &"9".repeat(64)] {
        let w = encode_long(label, true).unwrap();
        assert_eq!(reverse_parse_label(w[0], w[1], w[2], w[3]), Ok(label.to_string()));
    }
    for text in ["Hello, World!", "https://example.org/x?y=1", "ünïcode ✓"] {
        let w = encode_long(text, false).unwrap();
        assert_eq!(reverse_parse_label(w[0], w[1], w[2], w[3]), Ok(text.to_string()));
    }
}

#[test]
fn distinct_labels_distinct_words() {
    let a = encode_long("ab", true).unwrap();
    let b = encode_long("ba", true).unwrap();
    let c = encode_long("ab-", true).unwrap();
    assert_ne!(a, b);
    assert_ne!(a, c);
}
