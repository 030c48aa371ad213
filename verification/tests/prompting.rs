//! Prompt assembly and substitution behaviour.

use datagen::dataset::{Column, RowData};
use datagen::generation::GenerationService;
use datagen::prompt::{subst_random_range, subst_random_single};

fn col(id: i64, name: &str, ctype: &str, details: Option<&str>, rules: &str, position: i64) -> Column {
    Column {
        id: Some(id),
        table_name: "test_table".to_string(),
        dataset_id: 1,
        name: name.to_string(),
        column_type: ctype.to_string(),
        column_type_details: details.map(|d| d.to_string()),
        rules: rules.to_string(),
        position,
    }
}

#[test]
fn test_prepare_prompt_basic() {
    let generation_service: GenerationService<u64> = GenerationService::new();
    let columns = vec![
        col(1, "first_name", "TEXT", None, "Generate a first name", 1),
        col(2, "last_name", "TEXT", None, "Generate a last name using @first_name", 2),
    ];
    let row_data = vec![RowData { column_id: "1".to_string(), value: "John".to_string() }];

    let prompt = generation_service
        .prepare_prompt(&columns, &columns[1], &row_data)
        .expect("Failed to prepare prompt");

    assert!(prompt.contains("last_name"));
    assert!(prompt.contains("John"));
    assert!(prompt.contains("TEXT"));
}

#[test]
fn test_prepare_prompt_with_json_column() {
    let generation_service: GenerationService<u64> = GenerationService::new();
    let columns = vec![col(
        1,
        "user_data",
        "JSON",
        Some(r#"{"name": "string", "age": "number"}"#),
        "Generate user data",
        1,
    )];
    let row_data = vec![];

    let prompt = generation_service
        .prepare_prompt(&columns, &columns[0], &row_data)
        .expect("Failed to prepare prompt");

    assert!(prompt.contains("JSON"));
    assert!(prompt.contains("structure details"));
    assert!(prompt.contains(r#"{"name": "string", "age": "number"}"#));
}

#[test]
fn test_prompt_substitutes_prior_cells() {
    let service: GenerationService<u64> = GenerationService::new();
    let columns = vec![
        col(1, "first", "TEXT", None, "Generate a first name", 1),
        col(2, "last", "TEXT", None, "Generate a last name", 2),
        col(3, "full", "TEXT", None, "Use @first and @last", 3),
    ];
    let row_data = vec![
        RowData { column_id: "1".to_string(), value: "John".to_string() },
        RowData { column_id: "2".to_string(), value: "Doe".to_string() },
    ];
    let prompt = service
        .prepare_prompt(&columns, &columns[2], &row_data)
        .expect("Failed to prepare prompt");
    assert!(prompt.contains("Use John and Doe"));
}

#[test]
fn test_prompt_unknown_reference_becomes_empty() {
    let service: GenerationService<u64> = GenerationService::new();
    let columns = vec![col(1, "a", "TEXT", None, "value of @missing here", 1)];
    let prompt = service
        .prepare_prompt(&columns, &columns[0], &vec![])
        .expect("Failed to prepare prompt");
    assert!(prompt.contains("value of  here"));
}

#[test]
fn test_range_random_substitution_in_bounds() {
    let rule: Vec<char> = "age is @RANDOM_INT_18_65".chars().collect();
    for _ in 0..50 {
        let out: String = subst_random_range(&rule).into_iter().collect();
        assert!(out.starts_with("age is "));
        let digits = &out["age is ".len()..];
        let v: i64 = digits.parse().expect("a decimal integer must replace the token");
        assert!(18 <= v && v <= 65, "drew {} outside the declared range", v);
    }
}

#[test]
fn test_single_random_substitution_in_bounds() {
    let rule: Vec<char> = "pick @RANDOM_INT_10".chars().collect();
    for _ in 0..50 {
        let out: String = subst_random_single(&rule).into_iter().collect();
        assert!(out.starts_with("pick "));
        let digits = &out["pick ".len()..];
        let v: i64 = digits.parse().expect("a decimal integer must replace the token");
        assert!(0 <= v && v < 10, "drew {} outside the declared range", v);
    }
}

#[test]
fn test_range_token_goes_before_single_token() {
    // the range form must win over the single form on the same text
    let rule: Vec<char> = "@RANDOM_INT_3_7".chars().collect();
    for _ in 0..20 {
        let out: String = subst_random_range(&rule).into_iter().collect();
        let v: i64 = out.parse().expect("the whole token is replaced by one number");
        assert!(3 <= v && v <= 7);
    }
}

#[test]
fn test_substitution_leaves_plain_text_alone() {
    let rule: Vec<char> = "no tokens in here".chars().collect();
    let out1: String = subst_random_range(&rule).into_iter().collect();
    assert_eq!(out1, "no tokens in here");
    let out2: String = subst_random_single(&rule).into_iter().collect();
    assert_eq!(out2, "no tokens in here");
}
