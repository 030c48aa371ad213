//! Text post-processor behaviour.

use datagen::text::{clean_text_artifacts, is_clean_check};

#[test]
fn test_clean_text_artifacts_basic() {
    let input = r#"  "The shadows lengthen, a flicker of hope in the digital rain."\n```"#;
    let expected = "The shadows lengthen, a flicker of hope in the digital rain.";
    let result = clean_text_artifacts(input);
    assert_eq!(result, expected);
}

#[test]
fn test_clean_text_artifacts_preserves_internal_quotes() {
    let input = r#""The shadows lengthen, 'a flicker' of hope in the digital rain.""#;
    let expected = "The shadows lengthen, 'a flicker' of hope in the digital rain.";
    let result = clean_text_artifacts(input);
    assert_eq!(result, expected);
}

#[test]
fn test_clean_text_artifacts_removes_leading_whitespace() {
    let input = "   Some text here";
    let expected = "Some text here";
    let result = clean_text_artifacts(input);
    assert_eq!(result, expected);
}

#[test]
fn test_clean_text_artifacts_removes_trailing_backticks() {
    let input = "Some text```";
    let expected = "Some text";
    let result = clean_text_artifacts(input);
    assert_eq!(result, expected);
}

#[test]
fn test_clean_text_artifacts_removes_leading_backticks() {
    let input = "```Some text";
    let expected = "Some text";
    let result = clean_text_artifacts(input);
    assert_eq!(result, expected);
}

#[test]
fn test_clean_text_artifacts_removes_escaped_quotes() {
    let input = r#"\"The text here\""#;
    let expected = "The text here";
    let result = clean_text_artifacts(input);
    assert_eq!(result, expected);
}

#[test]
fn test_clean_text_artifacts_removes_newlines() {
    let input = "Some text\n";
    let expected = "Some text";
    let result = clean_text_artifacts(input);
    assert_eq!(result, expected);
}

#[test]
fn test_clean_text_artifacts_removes_multiple_artifacts() {
    let input = "  ```\n\"Some text\"\n```  ";
    let expected = "Some text";
    let result = clean_text_artifacts(input);
    assert_eq!(result, expected);
}

#[test]
fn test_clean_text_artifacts_single_quotes() {
    let input = "'Some text with 'inner' quotes'";
    let expected = "Some text with 'inner' quotes";
    let result = clean_text_artifacts(input);
    assert_eq!(result, expected);
}

#[test]
fn test_clean_text_artifacts_unmatched_quote() {
    let input = "\n```\n\"You look lost.  Perhaps I";
    let expected = "You look lost.  Perhaps I";
    let result = clean_text_artifacts(input);
    assert_eq!(result, expected);
}

#[test]
fn test_clean_text_artifacts_unmatched_single_quote() {
    let input = "'You look lost.  Perhaps I";
    let expected = "You look lost.  Perhaps I";
    let result = clean_text_artifacts(input);
    assert_eq!(result, expected);
}

#[test]
fn test_clean_text_shadows_scenario() {
    let input = "  \"The shadows lengthen.\"\n```";
    assert_eq!(clean_text_artifacts(input), "The shadows lengthen.");
}

#[test]
fn test_cleaned_outputs_are_clean() {
    // the premise of the idempotence lemma holds of these outputs
    let inputs = ["  ```\n\"Some text\"\n```  ", "plain value", "ends with period."];
    for input in inputs {
        let once = clean_text_artifacts(input);
        let chars: Vec<char> = once.chars().collect();
        assert!(is_clean_check(&chars), "cleaned form of {:?} carries artifacts", input);
    }
}

#[test]
fn test_clean_text_idempotent_on_typical_inputs() {
    let inputs = [
        "  ```\n\"Some text\"\n```  ",
        "plain value",
        "   spaced   ",
        "'quoted once'",
        "Some text```",
        "ends with period.",
        "",
    ];
    for input in inputs {
        let once = clean_text_artifacts(input);
        let twice = clean_text_artifacts(&once);
        assert_eq!(twice, once);
    }
}
