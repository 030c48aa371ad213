//! Dependency sorter behaviour.

use datagen::dataset::Column;
use datagen::generation::GenerationService;

fn col(id: i64, name: &str, rules: &str, position: i64) -> Column {
    Column {
        id: Some(id),
        table_name: "test_table".to_string(),
        dataset_id: 1,
        name: name.to_string(),
        column_type: "TEXT".to_string(),
        column_type_details: None,
        rules: rules.to_string(),
        position,
    }
}

fn create_test_columns() -> Vec<Column> {
    vec![
        col(1, "first_name", "Generate a first name", 1),
        col(2, "last_name", "Generate a last name", 2),
        col(3, "full_name", "Generate full name using @first_name and @last_name", 3),
    ]
}

#[test]
fn test_sort_columns_by_dependency_success() {
    let generation_service: GenerationService<u64> = GenerationService::new();
    let columns = create_test_columns();
    let sorted = generation_service
        .sort_columns_by_dependency(&columns, r"@(\w+)")
        .expect("Failed to sort columns");

    assert_eq!(sorted[0].name, "first_name");
    assert_eq!(sorted[1].name, "last_name");
    assert_eq!(sorted[2].name, "full_name");
}

#[test]
fn test_sort_columns_by_dependency_circular_dependency() {
    let generation_service: GenerationService<u64> = GenerationService::new();
    let columns = vec![
        col(1, "column1", "Depends on @column2", 1),
        col(2, "column2", "Depends on @column1", 2),
    ];

    let result = generation_service.sort_columns_by_dependency(&columns, r"@(\w+)");
    assert!(result.is_err(), "Should detect circular dependency");
}

#[test]
fn test_sort_columns_by_dependency_invalid_regex() {
    let generation_service: GenerationService<u64> = GenerationService::new();
    let columns = create_test_columns();
    let result = generation_service.sort_columns_by_dependency(&columns, r"[invalid");
    assert!(result.is_err(), "Should fail with invalid regex");
}

#[test]
fn test_sort_cycle_reports_cycle_message() {
    let service: GenerationService<u64> = GenerationService::new();
    let columns = vec![col(1, "a", "see @b", 1), col(2, "b", "see @a", 2)];
    let err = service
        .sort_columns_by_dependency(&columns, r"@(\w+)")
        .unwrap_err();
    assert_eq!(err, "Circular dependency detected in column rules");
}

#[test]
fn test_sort_ignores_self_and_unknown_references() {
    let service: GenerationService<u64> = GenerationService::new();
    let columns = vec![
        col(1, "a", "talks about @a and @nobody", 1),
        col(2, "b", "plain rule", 2),
    ];
    let sorted = service
        .sort_columns_by_dependency(&columns, r"@(\w+)")
        .expect("self and unknown references are not dependencies");
    assert_eq!(sorted.len(), 2);
    assert_eq!(sorted[0].name, "a");
    assert_eq!(sorted[1].name, "b");
}

#[test]
fn test_sort_without_references_keeps_input_order() {
    // with no dependencies the FIFO run reproduces the input list
    let service: GenerationService<u64> = GenerationService::new();
    let columns = vec![
        col(4, "delta", "plain", 1),
        col(2, "beta", "plain", 2),
        col(9, "iota", "plain", 3),
    ];
    let sorted = service
        .sort_columns_by_dependency(&columns, r"@(\w+)")
        .expect("no references, no cycle");
    let names: Vec<&str> = sorted.iter().map(|c| c.name.as_str()).collect();
    assert_eq!(names, vec!["delta", "beta", "iota"]);
}

#[test]
fn test_sort_self_references_equal_cleaned_run() {
    // a self-reference adds no edge: the run equals the one without it
    let service: GenerationService<u64> = GenerationService::new();
    let with_self = vec![
        col(1, "a", "uses @a and @b", 1),
        col(2, "b", "plain", 2),
    ];
    let without_self = vec![
        col(1, "a", "uses  and @b", 1),
        col(2, "b", "plain", 2),
    ];
    let s1 = service.sort_columns_by_dependency(&with_self, r"@(\w+)").unwrap();
    let s2 = service.sort_columns_by_dependency(&without_self, r"@(\w+)").unwrap();
    let n1: Vec<&str> = s1.iter().map(|c| c.name.as_str()).collect();
    let n2: Vec<&str> = s2.iter().map(|c| c.name.as_str()).collect();
    assert_eq!(n1, n2);
}

#[test]
fn test_sort_invalid_pattern_message_names_pattern() {
    let service: GenerationService<u64> = GenerationService::new();
    let columns = create_test_columns();
    let err = service.sort_columns_by_dependency(&columns, r"[invalid").unwrap_err();
    assert!(
        err.starts_with("Failed to compile regex pattern '[invalid': "),
        "unexpected message: {}",
        err
    );
}

#[test]
fn test_sort_empty_columns() {
    let service: GenerationService<u64> = GenerationService::new();
    let columns: Vec<Column> = vec![];
    let sorted = service
        .sort_columns_by_dependency(&columns, r"@(\w+)")
        .expect("empty input sorts trivially");
    assert!(sorted.is_empty());
}
