//! JSON post-processor behaviour.

use datagen::jsonfix::{coerce_json, repair_json_text};

#[test]
fn test_json_repair_scenario() {
    // a fenced object missing its outer closer
    let raw = " ```json\n{\"a\":1,\"b\":{\"c\":2}\n``` ";
    let repaired = repair_json_text(raw);
    let got: serde_json::Value = serde_json::from_str(&repaired).expect("repaired text parses");
    let want: serde_json::Value = serde_json::from_str("{\"a\":1,\"b\":{\"c\":2}}").unwrap();
    assert_eq!(got, want);
}

#[test]
fn test_json_repair_balanced_is_noop() {
    assert_eq!(repair_json_text("{\"a\": 1}"), "{\"a\": 1}");
    assert_eq!(repair_json_text("[1, 2, 3]"), "[1, 2, 3]");
    assert_eq!(repair_json_text("  {\"a\": 1}  "), "{\"a\": 1}");
}

#[test]
fn test_json_repair_prepends_missing_openers() {
    assert_eq!(repair_json_text("{\"a\":{\"b\":1}}}"), "{{\"a\":{\"b\":1}}}");
}

#[test]
fn test_json_repair_appends_missing_closers() {
    assert_eq!(repair_json_text("[[1,2"), "[[1,2]]");
}

#[test]
fn test_json_coercion_serializes_parsed_document() {
    let out = coerce_json("```json\n{\"a\": 1,}\n```").expect("permissive parse succeeds");
    let got: serde_json::Value = serde_json::from_str(&out).unwrap();
    let want: serde_json::Value = serde_json::from_str("{\"a\":1}").unwrap();
    assert_eq!(got, want);
}

#[test]
fn test_json_coercion_accepts_unquoted_keys_and_single_quotes() {
    let out = coerce_json("{a: 'x'}").expect("json5 accepts this form");
    let got: serde_json::Value = serde_json::from_str(&out).unwrap();
    let want: serde_json::Value = serde_json::from_str("{\"a\":\"x\"}").unwrap();
    assert_eq!(got, want);
}

#[test]
fn test_json_coercion_fails_on_garbage() {
    let r = coerce_json("not a document at all");
    assert!(r.is_err());
}
