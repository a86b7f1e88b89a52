use name_service::error::NameError;
use name_service::record::{
    decode_name_record, ledger_value, name_record_from_raw, owner_from_raw, primary_name_hash_from_raw,
    resolver_content_from_raw,
};
use name_service::transcode::parse_document;
use name_service::walk::{NameWalk, WalkStep, MAX_NAME_DEPTH};

fn name_raw(words: [u128; 4], parent: &str) -> String {
    format!(
        "\"{{\\n  name: [\\n    {}u128,\\n    {}u128,\\n    {}u128,\\n    {}u128\\n  ],\\n  parent: {},\\n  resolver: 0u128\\n}}\"",
        words[0], words[1], words[2], words[3], parent
    )
}

#[test]
fn name_record_decodes() {
    let rec = name_record_from_raw(&name_raw([97, 0, 0, 0], "0field")).unwrap();
    assert_eq!(rec.name, [97, 0, 0, 0]);
    assert_eq!(rec.parent, "0field");
    assert_eq!(rec.resolver, 0);
}

#[test]
fn name_record_without_parent_fails() {
    let raw = "{\\n  name: [\\n    1u128,\\n    2u128,\\n    3u128,\\n    4u128\\n  ],\\n  resolver: 0u128\\n}";
    assert_eq!(name_record_from_raw(raw).err(), Some(NameError::ShapeMismatch));
    let doc = parse_document(raw).unwrap();
    assert_eq!(decode_name_record(&doc).err(), Some(NameError::ShapeMismatch));
}

#[test]
fn name_record_wrong_kinds_fail() {
    let scalar_name = "{\\n  name: 5u128,\\n  parent: 0field,\\n  resolver: 0u128\\n}";
    assert_eq!(name_record_from_raw(scalar_name).err(), Some(NameError::ShapeMismatch));
    let numeric_parent = "{\\n  name: [\\n    1u128,\\n    2u128,\\n    3u128,\\n    4u128\\n  ],\\n  parent: 12,\\n  resolver: 0u128\\n}";
    assert_eq!(name_record_from_raw(numeric_parent).err(), Some(NameError::ShapeMismatch));
    let three_words = "{\\n  name: [\\n    1u128,\\n    2u128,\\n    3u128\\n  ],\\n  parent: 0field,\\n  resolver: 0u128\\n}";
    assert_eq!(name_record_from_raw(three_words).err(), Some(NameError::ShapeMismatch));
    let too_big = name_raw([0, 0, 0, 0], "0field").replace("    0u128,\\n    0u128,\\n    0u128\\n", "    0u128,\\n    0u128,\\n    340282366920938463463374607431768211456u128\\n");
    assert_eq!(name_record_from_raw(&too_big).err(), Some(NameError::ShapeMismatch));
    assert_eq!(name_record_from_raw("{\\n  bad line\\n}").err(), Some(NameError::TranscodeError));
}

#[test]
fn largest_word_decodes() {
    let raw = name_raw([u128::MAX, 0, 0, 0], "5field");
    let rec = name_record_from_raw(&raw).unwrap();
    assert_eq!(rec.name[0], u128::MAX);
    assert_eq!(rec.parent, "5field");
}

#[test]
fn owner_and_content() {
    assert_eq!(owner_from_raw("\"aleo1xyz\""), Ok("aleo1xyz".to_string()));
    assert_eq!(owner_from_raw("{\\n  a: b\\n}"), Err(NameError::ShapeMismatch));
    let content = "\"[\\n  97u128,\\n  0u128,\\n  0u128,\\n  0u128\\n]\"";
    assert_eq!(resolver_content_from_raw(content), Ok("a".to_string()));
    assert_eq!(resolver_content_from_raw("\"aleo1xyz\""), Err(NameError::ShapeMismatch));
}

#[test]
fn primary_hash_unquoted() {
    assert_eq!(primary_name_hash_from_raw("\"123field\""), Ok("123field".to_string()));
    assert_eq!(primary_name_hash_from_raw("x"), Err(NameError::ShapeMismatch));
}

#[test]
fn walk_to_root() {
    let mut walk = NameWalk::new();
    let leaf = name_record_from_raw(&name_raw([98, 0, 0, 0], "77field")).unwrap();
    match walk.step(&leaf) {
        Ok(WalkStep::Fetch(p)) => assert_eq!(p, "77field"),
        _ => panic!("expected a fetch"),
    }
    let top = name_record_from_raw(&name_raw([97, 0, 0, 0], "0field")).unwrap();
    match walk.step(&top) {
        Ok(WalkStep::Done(n)) => assert_eq!(n, "b.a"),
        _ => panic!("expected the full name"),
    }
}

#[test]
fn walk_is_bounded() {
    let mut walk = NameWalk::new();
    let rec = name_record_from_raw(&name_raw([97, 0, 0, 0], "9field")).unwrap();
    for _ in 0..MAX_NAME_DEPTH - 1 {
        assert!(matches!(walk.step(&rec), Ok(WalkStep::Fetch(_))));
    }
    assert!(matches!(walk.step(&rec), Err(NameError::ChainTooDeep)));
}

#[test]
fn walk_rejects_bad_label() {
    let mut walk = NameWalk::new();
    let rec = name_record_from_raw(&name_raw([0xff, 0, 0, 0], "0field")).unwrap();
    assert!(matches!(walk.step(&rec), Err(NameError::InvalidEncoding)));
}

#[test]
fn null_answer_is_not_found() {
    assert_eq!(ledger_value("null".to_string()), Err(NameError::NotFound));
    assert_eq!(ledger_value(" null\n".to_string()), Err(NameError::NotFound));
    assert_eq!(ledger_value("\"null\"".to_string()), Ok("\"null\"".to_string()));
    assert_eq!(ledger_value("aleo1xyz".to_string()), Ok("aleo1xyz".to_string()));
}

#[test]
fn nested_parent_does_not_count() {
    let raw = "{\\n  name: [\\n    1u128,\\n    2u128,\\n    3u128,\\n    4u128\\n  ],\\n  content: {\\n    parent: 0field\\n  },\\n  resolver: 0u128\\n}";
    assert_eq!(name_record_from_raw(raw).err(), Some(NameError::ShapeMismatch));
    let with_top = raw.replace("  resolver: 0u128", "  parent: 5field,\\n  resolver: 0u128");
    assert_eq!(name_record_from_raw(&with_top).unwrap().parent, "5field");
}
