use sqlite_to_xlsx::cli::{
    blob_handling_from_lowercase, error_messages, join_strings, str_contains, str_eq,
};
use sqlite_to_xlsx::{parse_blob_handling, BlobHandling};

#[test]
fn blob_modes_parse_in_any_case() {
    assert_eq!(parse_blob_handling("placeholder"), Ok(BlobHandling::Placeholder));
    assert_eq!(parse_blob_handling("HEX"), Ok(BlobHandling::Hex));
    assert_eq!(parse_blob_handling("Base64"), Ok(BlobHandling::Base64));
    assert_eq!(parse_blob_handling("sKiP"), Ok(BlobHandling::Skip));
}

#[test]
fn unknown_blob_mode_is_explained() {
    assert_eq!(
        parse_blob_handling("Binary"),
        Err("Invalid blob mode: Binary. Valid options are: placeholder, hex, base64, skip"
            .to_string())
    );
    assert_eq!(
        blob_handling_from_lowercase("hex ", "HEX "),
        Err("Invalid blob mode: HEX . Valid options are: placeholder, hex, base64, skip"
            .to_string())
    );
    assert!(parse_blob_handling("").is_err());
}

#[test]
fn text_comparison_and_search() {
    assert!(str_eq("abc", "abc"));
    assert!(!str_eq("abc", "abd"));
    assert!(!str_eq("abc", "ab"));
    assert!(str_contains("Error: no such table: users", "no such table"));
    assert!(str_contains("abc", ""));
    assert!(!str_contains("ab", "abc"));
    assert!(!str_contains("no such tabl", "no such table"));
    assert!(str_contains("xxno such table", "no such table"));
}

#[test]
fn join_puts_separator_between_items() {
    assert_eq!(join_strings(&vec![], ", "), "");
    assert_eq!(join_strings(&vec!["a".to_string()], ", "), "a");
    assert_eq!(join_strings(&vec!["a".to_string(), "b".to_string(), "c".to_string()], ", "), "a, b, c");
}

#[test]
fn cannot_open_database_is_explained_then_shown() {
    let lines = error_messages("Cannot open database: file is not a database", "data.db", &None);
    assert_eq!(
        lines,
        vec![
            "Error: Cannot open database: data.db\n\nFile may not be a valid SQLite database or is locked."
                .to_string(),
            "Error: Cannot open database: file is not a database".to_string(),
        ]
    );
}

#[test]
fn write_failure_is_explained_then_shown() {
    let lines = error_messages("Cannot write to output file out.xlsx", "in.db", &None);
    assert_eq!(
        lines,
        vec![
            "Error: Cannot write to output file out.xlsx\n\nCheck directory permissions or try a different location."
                .to_string(),
            "Error: Cannot write to output file out.xlsx".to_string(),
        ]
    );
}

#[test]
fn no_tables_is_explained_then_shown() {
    let lines = error_messages("No tables found", "in.db", &Some(vec!["t".to_string()]));
    assert_eq!(lines.len(), 2);
    assert_eq!(
        lines[0],
        "Error: No tables found in database\n\nThe database may be empty or contain only views."
    );
    assert_eq!(lines[1], "Error: No tables found");
}

#[test]
fn missing_requested_table_is_explained_alone() {
    let tables = Some(vec!["users".to_string(), "orders".to_string()]);
    let lines = error_messages("no such table: users", "in.db", &tables);
    assert_eq!(
        lines,
        vec!["Error: Table not found: users, orders\n\nAvailable tables: [check database contents]"
            .to_string()]
    );
    let lines = error_messages("table x does not exist", "in.db", &tables);
    assert_eq!(lines.len(), 1);
}

#[test]
fn missing_table_without_request_is_shown_plainly() {
    let lines = error_messages("no such table: users", "in.db", &None);
    assert_eq!(lines, vec!["Error: no such table: users".to_string()]);
    let lines = error_messages("disk I/O error", "in.db", &Some(vec!["t".to_string()]));
    assert_eq!(lines, vec!["Error: disk I/O error".to_string()]);
}
