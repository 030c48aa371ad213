//! Store-side helpers: name validation, CSV assembly, row shaping,
//! pagination, registry integrity, and the hardware mappings.

use datagen::database::validate_table_name;
use datagen::dataset::{align_row_data, apply_row_updates, total_pages, Column, DatasetError, Row,
    RowData};
use datagen::export::{create_csv_content, escape_csv_field};
use datagen::hardware::{apple_gpu_layers, detect_apple_chip, nvidia_gpu_layers, AppleChip,
    ChipVariant};
use datagen::model::{missing_model_ids, ModelInfo};
use datagen::response::SuccessResponse;

fn col(id: i64, name: &str, ctype: &str, rules: &str, position: i64) -> Column {
    Column {
        id: Some(id),
        table_name: "test_table".to_string(),
        dataset_id: 1,
        name: name.to_string(),
        column_type: ctype.to_string(),
        column_type_details: None,
        rules: rules.to_string(),
        position,
    }
}

#[test]
fn test_validate_table_name() {
    let test_simple_name = validate_table_name("test_table");
    assert!(test_simple_name.is_ok(), "Failed to validate table name");

    let test_start_by_number = validate_table_name("123test_table");
    assert!(test_start_by_number.is_err(), "Failed to validate table name");

    let test_start_by_number_and_special_characters = validate_table_name("test; dede");
    assert!(
        test_start_by_number_and_special_characters.is_err(),
        "Failed to validate table name"
    );

    let test_long_name =
        validate_table_name("A_long_naaaaaaaaaaaaaaammmmmmmmmmmmmmmmmmmmmmmmmmmmmmmmmmmmmmmmmme");
    assert!(test_long_name.is_err(), "Failed to validate table name");
}

#[test]
fn test_escape_csv_field_normal() {
    assert_eq!(escape_csv_field("normal"), "normal");
}

#[test]
fn test_escape_csv_field_with_comma() {
    assert_eq!(escape_csv_field("has,comma"), "\"has,comma\"");
}

#[test]
fn test_escape_csv_field_with_quotes() {
    assert_eq!(escape_csv_field("has\"quotes"), "\"has\"\"quotes\"");
}

#[test]
fn test_escape_csv_field_with_newline() {
    assert_eq!(escape_csv_field("has\nnewline"), "\"has\nnewline\"");
}

#[test]
fn test_escape_csv_field_with_carriage_return() {
    assert_eq!(escape_csv_field("has\rreturn"), "\"has\rreturn\"");
}

#[test]
fn test_escape_csv_field_multiple_special_chars() {
    assert_eq!(
        escape_csv_field("has\"quotes\"and,commas"),
        "\"has\"\"quotes\"\"and,commas\""
    );
}

#[test]
fn test_create_csv_content() {
    let columns = vec![
        col(1, "name", "TEXT", "Name column", 1),
        col(2, "age", "INTEGER", "Age column", 2),
    ];
    let rows = vec![
        Row {
            id: 1,
            data: vec![
                RowData { column_id: "1".to_string(), value: "John".to_string() },
                RowData { column_id: "2".to_string(), value: "25".to_string() },
            ],
            created_at: "2023-01-01".to_string(),
            updated_at: "2023-01-01".to_string(),
        },
        Row {
            id: 2,
            data: vec![
                RowData { column_id: "1".to_string(), value: "Jane".to_string() },
                RowData { column_id: "2".to_string(), value: "30".to_string() },
            ],
            created_at: "2023-01-01".to_string(),
            updated_at: "2023-01-01".to_string(),
        },
    ];

    let csv_content = create_csv_content(&columns, &rows);
    let lines: Vec<&str> = csv_content.lines().collect();

    assert_eq!(lines[0], "name,age");
    assert_eq!(lines[1], "John,25");
    assert_eq!(lines[2], "Jane,30");
}

#[test]
fn test_create_csv_content_empty_rows() {
    let columns = vec![col(1, "name", "TEXT", "Name column", 1)];
    let rows = vec![];

    let csv_content = create_csv_content(&columns, &rows);
    let lines: Vec<&str> = csv_content.lines().collect();

    assert_eq!(lines.len(), 1);
    assert_eq!(lines[0], "name");
}

#[test]
fn test_align_row_data_orders_by_column() {
    let columns = vec![col(1, "a", "TEXT", "", 1), col(2, "b", "TEXT", "", 2)];
    let data = vec![
        RowData { column_id: "2".to_string(), value: "two".to_string() },
        RowData { column_id: "1".to_string(), value: "one".to_string() },
    ];
    let aligned = align_row_data(&columns, &data).expect("every column has a cell");
    assert_eq!(aligned.len(), 2);
    assert_eq!(aligned[0].column_id, "1");
    assert_eq!(aligned[0].value, "one");
    assert_eq!(aligned[1].column_id, "2");
    assert_eq!(aligned[1].value, "two");
}

#[test]
fn test_align_row_data_missing_cell_fails() {
    let columns = vec![col(1, "a", "TEXT", "", 1), col(2, "b", "TEXT", "", 2)];
    let data = vec![RowData { column_id: "1".to_string(), value: "one".to_string() }];
    let r = align_row_data(&columns, &data);
    assert!(matches!(r, Err(DatasetError::NotFound(_))));
}

#[test]
fn test_apply_row_updates_changes_matching_cells() {
    let row_data = vec![
        RowData { column_id: "1".to_string(), value: "old".to_string() },
        RowData { column_id: "2".to_string(), value: "kept".to_string() },
        RowData { column_id: "x".to_string(), value: "unparsed".to_string() },
    ];
    let updates = vec![(1i64, "new".to_string())];
    let out = apply_row_updates(row_data, &updates);
    assert_eq!(out[0].value, "new");
    assert_eq!(out[1].value, "kept");
    assert_eq!(out[2].value, "unparsed");
}

#[test]
fn test_total_pages_rounds_up() {
    assert_eq!(total_pages(0, 5), 0);
    assert_eq!(total_pages(10, 5), 2);
    assert_eq!(total_pages(11, 5), 3);
    assert_eq!(total_pages(1, 100), 1);
}

#[test]
fn test_missing_model_ids_flags_absent_files() {
    let mk = |id: i64, filename: &str| ModelInfo {
        id: Some(id),
        filename: filename.to_string(),
        quantization: None,
        label: "m".to_string(),
        size: 1,
        model_type: "gguf".to_string(),
        created_at: "now".to_string(),
        updated_at: "now".to_string(),
    };
    let models = vec![mk(1, "a.gguf"), mk(2, "b.gguf"), mk(3, "c.gguf")];
    let existing = vec!["b.gguf".to_string()];
    assert_eq!(missing_model_ids(&models, &existing), vec![1, 3]);
}

#[test]
fn test_detect_apple_chip_classification() {
    assert_eq!(detect_apple_chip("Apple M3 Pro"), (AppleChip::M3, ChipVariant::Pro));
    assert_eq!(detect_apple_chip("Apple M2 Ultra"), (AppleChip::M2, ChipVariant::Ultra));
    assert_eq!(detect_apple_chip("Apple M1 Max"), (AppleChip::M1, ChipVariant::Max));
    assert_eq!(detect_apple_chip("Apple M1"), (AppleChip::M1, ChipVariant::Base));
    assert_eq!(detect_apple_chip("Intel Core"), (AppleChip::Unknown, ChipVariant::Base));
}

#[test]
fn test_gpu_layer_budgets() {
    assert_eq!(apple_gpu_layers(AppleChip::M3, ChipVariant::Max), 99);
    assert_eq!(apple_gpu_layers(AppleChip::M3, ChipVariant::Pro), 60);
    assert_eq!(apple_gpu_layers(AppleChip::M2, ChipVariant::Base), 28);
    assert_eq!(apple_gpu_layers(AppleChip::M1, ChipVariant::Ultra), 65);
    assert_eq!(apple_gpu_layers(AppleChip::Unknown, ChipVariant::Pro), 20);
    assert_eq!(nvidia_gpu_layers(3000), 8);
    assert_eq!(nvidia_gpu_layers(8000), 28);
    assert_eq!(nvidia_gpu_layers(16000), 45);
    assert_eq!(nvidia_gpu_layers(32000), 60);
}

#[test]
fn test_success_response_wraps_payload() {
    let r = SuccessResponse::new(41i64);
    assert_eq!(r.data, 41);
    assert!(r.message.is_none());
}
