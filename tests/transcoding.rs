use name_service::error::NameError;
use name_service::transcode::{parse_document, render_document, transcode, Line};

fn json(s: &str) -> serde_json::Value {
    serde_json::from_str(s).unwrap()
}

#[test]
fn scalar_fields() {
    let raw = "\"{\\n  owner: aleo1abc,\\n  version: 3u64\\n}\"";
    let out = transcode(raw).unwrap();
    assert_eq!(out, "{\n\"owner\": \"aleo1abc\",\n\"version\": 3\n}");
    assert_eq!(json(&out), json("{\"owner\":\"aleo1abc\",\"version\":3}"));
}

#[test]
fn nested_object() {
    let raw = "{\\n  content: {\\n    a: 1u8,\\n    b: word\\n  },\\n  c: 7\\n}";
    let out = transcode(raw).unwrap();
    assert_eq!(out, "{\n\"content\": {\n\"a\": 1,\n\"b\": \"word\"\n},\n\"c\": 7\n}");
    assert_eq!(json(&out), json("{\"content\":{\"a\":1,\"b\":\"word\"},\"c\":7}"));
}

#[test]
fn array_entries() {
    let raw = "values: [\\n  1u128,\\n  2u128\\n]";
    let out = transcode(raw).unwrap();
    assert_eq!(out, "\"values\": [\n1,\n2\n]");
    assert_eq!(json(&format!("{{{}}}", out)), json("{\"values\":[1,2]}"));
}

#[test]
fn array_last_in_object() {
    let raw = "{\\n  values: [\\n    1u128,\\n    2u128\\n  ]\\n}";
    let out = transcode(raw).unwrap();
    assert_eq!(json(&out), json("{\"values\":[1,2]}"));
}

#[test]
fn trailing_comma_before_brace_removed() {
    let raw = "{\\n  a: 1u8,\\n  b: x,\\n}";
    let out = transcode(raw).unwrap();
    assert_eq!(out, "{\n\"a\": 1,\n\"b\": \"x\"\n}");
    assert_eq!(transcode("owner: abc,"), Ok("\"owner\": \"abc\"".to_string()));
}

#[test]
fn value_shapes() {
    assert_eq!(transcode("k: 12"), Ok("\"k\": 12".to_string()));
    assert_eq!(transcode("k: abcu8"), Ok("\"k\": \"abc\"".to_string()));
    assert_eq!(transcode("k: 0field"), Ok("\"k\": \"0field\"".to_string()));
    assert_eq!(transcode("k: u64"), Ok("\"k\": \"u64\"".to_string()));
    assert_eq!(transcode("aleo1xyz"), Ok("aleo1xyz".to_string()));
}

#[test]
fn unknown_lines_fail() {
    assert_eq!(transcode("{\\n  a: two words\\n}"), Err(NameError::TranscodeError));
    assert_eq!(transcode("{\\n  a b\\n}"), Err(NameError::TranscodeError));
    assert_eq!(transcode("[\\n  x1\\n]"), Err(NameError::TranscodeError));
    assert_eq!(transcode(""), Err(NameError::TranscodeError));
}

#[test]
fn document_lines() {
    let doc = parse_document("{\\n  name: [\\n    5u128\\n  ],\\n  parent: 0field\\n}").unwrap();
    assert_eq!(doc.len(), 6);
    assert!(matches!(&doc[1], Line::Open { key: Some(k), array: true } if k.iter().collect::<String>() == "name"));
    assert!(matches!(&doc[2], Line::Item { digits, comma: false } if digits.iter().collect::<String>() == "5"));
    assert!(matches!(&doc[3], Line::Close { array: true }));
    assert_eq!(render_document(&doc), "{\n\"name\": [\n5\n],\n\"parent\": \"0field\"\n}");
}

#[test]
fn bare_word_only_alone() {
    assert_eq!(transcode("{\\n  aleo1xyz\\n}"), Err(NameError::TranscodeError));
    assert_eq!(transcode("\"aleo1xyz\""), Ok("aleo1xyz".to_string()));
}
