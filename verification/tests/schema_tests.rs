use sqlite_to_xlsx::types::{
    collect_columns, collect_table_names, column_from_pragma_row, escape_quotes, select_all_sql,
    table_info_sql, PragmaRow, TABLE_LIST_SQL,
};

fn row(name: &str, sqlite_type: &str, pk: i32) -> PragmaRow {
    PragmaRow { name: name.to_string(), sqlite_type: sqlite_type.to_string(), pk }
}

#[test]
fn primary_key_flag_follows_key_position() {
    assert!(column_from_pragma_row(&row("id", "INTEGER", 1)).is_primary_key);
    assert!(column_from_pragma_row(&row("b", "TEXT", 2)).is_primary_key);
    assert!(!column_from_pragma_row(&row("name", "TEXT", 0)).is_primary_key);
    assert!(!column_from_pragma_row(&row("odd", "TEXT", -1)).is_primary_key);
}

#[test]
fn columns_keep_order_and_skip_unreadable_rows() {
    let rows = vec![
        Some(row("id", "INTEGER", 1)),
        None,
        Some(row("name", "TEXT", 0)),
        Some(row("balance", "REAL", 0)),
        None,
    ];
    let columns = collect_columns(&rows);
    assert_eq!(columns.len(), 3);
    assert_eq!(columns[0].name, "id");
    assert_eq!(columns[0].sqlite_type, "INTEGER");
    assert!(columns[0].is_primary_key);
    assert_eq!(columns[1].name, "name");
    assert_eq!(columns[1].sqlite_type, "TEXT");
    assert!(!columns[1].is_primary_key);
    assert_eq!(columns[2].name, "balance");
    assert_eq!(columns[2].sqlite_type, "REAL");
    assert!(collect_columns(&vec![None, None]).is_empty());
}

#[test]
fn table_names_keep_order_and_skip_unreadable_rows() {
    let names = vec![Some("orders".to_string()), None, Some("users".to_string())];
    assert_eq!(collect_table_names(&names), vec!["orders".to_string(), "users".to_string()]);
}

#[test]
fn table_info_sql_quotes_the_name() {
    assert_eq!(table_info_sql("users"), "PRAGMA table_info('users')");
    assert_eq!(table_info_sql("table-with-dash"), "PRAGMA table_info('table-with-dash')");
    assert_eq!(table_info_sql("it's"), "PRAGMA table_info('it''s')");
    assert_eq!(escape_quotes("''", '\''), "''''");
    assert_eq!(escape_quotes("「ユーザー」'", '\''), "「ユーザー」''");
    assert_eq!(escape_quotes("", '\''), "");
    assert_eq!(select_all_sql("users"), "SELECT * FROM \"users\"");
    assert_eq!(select_all_sql("a\"b"), "SELECT * FROM \"a\"\"b\"");
}

#[test]
fn table_list_sql_excludes_internal_tables_and_sorts() {
    assert!(TABLE_LIST_SQL.contains("type = 'table'"));
    assert!(TABLE_LIST_SQL.contains("NOT LIKE 'sqlite\\_%' ESCAPE '\\'"));
    assert!(TABLE_LIST_SQL.ends_with("ORDER BY name"));
}

#[test]
fn readable_rows_give_one_column_each() {
    let rows = vec![Some(row("a", "TEXT", 0)), Some(row("b", "BLOB", 1)), Some(row("c", "", 0))];
    let columns = collect_columns(&rows);
    assert_eq!(columns.len(), rows.len());
    let names: Vec<&str> = columns.iter().map(|c| c.name.as_str()).collect();
    assert_eq!(names, vec!["a", "b", "c"]);
    assert_eq!(columns[2].sqlite_type, "");
    assert!(columns[1].is_primary_key);
}
