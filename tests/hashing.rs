use name_service::codec::string_to_u128;
use name_service::error::NameError;
use name_service::hash::parse_name_hash;
use name_service::query::resolver_query_key;

#[test]
fn hash_is_a_field() {
    let h = parse_name_hash("ans").unwrap();
    assert!(h.ends_with("field"));
    assert_ne!(h, "0field");
}

#[test]
fn hash_is_deterministic() {
    assert_eq!(parse_name_hash("alice.ans"), parse_name_hash("alice.ans"));
}

#[test]
fn hash_tells_names_apart() {
    let ab = parse_name_hash("a.b").unwrap();
    assert_ne!(ab, parse_name_hash("b.a").unwrap());
    assert_ne!(ab, parse_name_hash("ab").unwrap());
    assert_ne!(parse_name_hash("b").unwrap(), ab);
}

#[test]
fn hash_rejects_bad_labels() {
    assert_eq!(parse_name_hash("Alice.ans"), Err(NameError::InvalidCharacter));
    assert_eq!(parse_name_hash(&format!("{}.ans", "a".repeat(65))), Err(NameError::TooLong));
}

#[test]
fn resolver_key_is_percent_encoded() {
    let key = resolver_query_key("address", "alice.ans").unwrap();
    let id = parse_name_hash("alice.ans").unwrap();
    let c = string_to_u128("address").unwrap();
    let plain = format!("{{name:{}, category:{}u128, version: 1u64}}", id, c);
    assert_ne!(key, plain);
    assert!(key.starts_with("%7Bname%3A"));
    assert_eq!(urlencoding::decode(&key).unwrap(), plain);
}

#[test]
fn resolver_key_errors() {
    assert_eq!(resolver_query_key("Address", "alice.ans"), Err(NameError::InvalidCharacter));
    assert_eq!(resolver_query_key("address", "Alice"), Err(NameError::InvalidCharacter));
    assert_eq!(resolver_query_key("abcdefghijklmnopq", "alice"), Err(NameError::TooLong));
}

#[test]
fn valid_names_always_hash() {
    let long = format!("{}.{}.ans", "z".repeat(64), "_".repeat(63));
    assert!(parse_name_hash(&long).unwrap().ends_with("field"));
    assert!(parse_name_hash("a.b.c.d.e.f.g.h").is_ok());
    assert!(parse_name_hash("").is_ok());
    assert!(parse_name_hash("x..y").is_ok());
}
