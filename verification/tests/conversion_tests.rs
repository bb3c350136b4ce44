use rust_xlsxwriter::Workbook;
use sqlite_to_xlsx::convert::{
    is_table_selected, missing_table, select_tables, workbook_sheets, write_table,
};
use sqlite_to_xlsx::sheet_name::{candidate_name, unique_sheet_names};
use sqlite_to_xlsx::{
    convert, sanitize_sheet_name, BlobHandling, CellValue, ConvertError, ConvertOptions, TableData,
};

fn names(list: &[&str]) -> Vec<String> {
    list.iter().map(|s| s.to_string()).collect()
}

fn table(name: &str, columns: &[&str], rows: Vec<Vec<CellValue>>) -> TableData {
    TableData { name: name.to_string(), columns: names(columns), rows }
}

#[test]
fn default_options_export_everything_with_headers() {
    let options = ConvertOptions::default();
    assert!(options.tables.is_none());
    assert!(options.exclude.is_none());
    assert_eq!(options.blob_handling, BlobHandling::Placeholder);
    assert!(options.write_headers);
    assert!(!options.quiet);
}

#[test]
fn forbidden_characters_become_underscores() {
    assert_eq!(sanitize_sheet_name("table/with/slashes"), "table_with_slashes");
    assert_eq!(sanitize_sheet_name("table\\with\\backslashes"), "table_with_backslashes");
    assert_eq!(sanitize_sheet_name("table:with:colons"), "table_with_colons");
    assert_eq!(sanitize_sheet_name("table*with*asterisks"), "table_with_asterisks");
    assert_eq!(sanitize_sheet_name("table?with?questions"), "table_with_questions");
    assert_eq!(sanitize_sheet_name("[x]"), "_x_");
    assert_eq!(sanitize_sheet_name("users"), "users");
    assert_eq!(sanitize_sheet_name("「ユーザー」"), "「ユーザー」");
}

#[test]
fn long_names_are_cut_to_28_characters() {
    let a = sanitize_sheet_name("this_is_a_very_long_table_name_that_exceeds_the_thirty_one_character_limit");
    assert_eq!(a, "this_is_a_very_long_table_na");
    assert_eq!(a.len(), 28);
    let b = sanitize_sheet_name("this_is_another_very_long_table_name_that_exceeds_the_limit");
    assert_eq!(b, "this_is_another_very_long_ta");
    // Exactly 31 characters is kept.
    let c = "a".repeat(31);
    assert_eq!(sanitize_sheet_name(&c), c);
}

#[test]
fn reserved_and_awkward_names_are_adjusted() {
    assert_eq!(sanitize_sheet_name("History"), "History_");
    assert_eq!(sanitize_sheet_name("HISTORY"), "HISTORY_");
    assert_eq!(sanitize_sheet_name("History2"), "History2");
    assert_eq!(sanitize_sheet_name("'quoted'"), "_quoted_");
    assert_eq!(sanitize_sheet_name(""), "_");
}

#[test]
fn duplicate_sheet_names_get_suffixes() {
    let chosen = unique_sheet_names(&names(&["table/one", "table:one", "table\\one"])).unwrap();
    assert_eq!(chosen, names(&["table_one", "table_one_1", "table_one_2"]));
    // Case is ignored when comparing, as the workbook does.
    let chosen = unique_sheet_names(&names(&["Users", "users"])).unwrap();
    assert_eq!(chosen, names(&["Users", "users_1"]));
    // A suffix that is already taken is skipped.
    let chosen = unique_sheet_names(&names(&["a_1", "a", "a"])).unwrap();
    assert_eq!(chosen, names(&["a_1", "a", "a_2"]));
    // Long names are cut further to make room.
    let long = "b".repeat(31);
    let chosen = unique_sheet_names(&names(&[&long, &long])).unwrap();
    assert_eq!(chosen[1], format!("{}_1", "b".repeat(29)));
    assert_eq!(candidate_name("abc", 0), "abc");
    assert_eq!(candidate_name("abc", 12), "abc_12");
}

#[test]
fn table_filtering_and_exclusion() {
    let all = names(&["table_a", "table_b", "table_c"]);
    let only = ConvertOptions {
        tables: Some(names(&["table_b", "table_a", "missing"])),
        ..Default::default()
    };
    assert_eq!(select_tables(&all, &only), names(&["table_a", "table_b"]));
    let except = ConvertOptions { exclude: Some(names(&["table_b"])), ..Default::default() };
    assert_eq!(select_tables(&all, &except), names(&["table_a", "table_c"]));
    let both = ConvertOptions {
        tables: Some(names(&["table_a", "table_b"])),
        exclude: Some(names(&["table_a"])),
        ..Default::default()
    };
    assert_eq!(select_tables(&all, &both), names(&["table_b"]));
    assert!(is_table_selected("anything", &ConvertOptions::default()));
}

#[test]
fn write_table_counts_rows_and_checks_positions() {
    let mut workbook = Workbook::new();
    let sheet = workbook.add_worksheet();
    let rows = vec![
        vec![CellValue::Integer(1), CellValue::Text("Alice".to_string()), CellValue::Null],
        vec![CellValue::Integer(2), CellValue::Text("Bob".to_string()), CellValue::Real],
    ];
    let columns = names(&["id", "name", "balance"]);
    assert_eq!(write_table(sheet, &columns, &rows, true, BlobHandling::Placeholder), Ok(2));
    assert_eq!(write_table(sheet, &columns, &vec![], false, BlobHandling::Placeholder), Ok(0));
    let wide: Vec<String> = (0..16_385).map(|i| format!("c{}", i)).collect();
    assert_eq!(
        write_table(sheet, &wide, &vec![], true, BlobHandling::Placeholder),
        Err(ConvertError::RowColumnLimit)
    );
}

#[test]
fn convert_makes_one_sheet_per_selected_table() {
    let tables = vec![
        table("orders", &["id", "total"], vec![
            vec![CellValue::Integer(1), CellValue::Integer(19)],
            vec![CellValue::Integer(2), CellValue::Integer(29)],
        ]),
        table("products", &["id", "name"], vec![
            vec![CellValue::Integer(1), CellValue::Text("Widget".to_string())],
            vec![CellValue::Integer(2), CellValue::Text("Gadget".to_string())],
            vec![CellValue::Integer(3), CellValue::Blob(vec![1, 2, 3])],
        ]),
        table("users", &["id", "name"], vec![
            vec![CellValue::Integer(1), CellValue::Text("Alice".to_string())],
            vec![CellValue::Integer(2), CellValue::Null],
        ]),
    ];
    let (sheets, stats) = convert(&tables, &ConvertOptions::default()).unwrap();
    assert_eq!(stats.tables_exported, 3);
    assert_eq!(stats.total_rows, 7);
    let sheet_names: Vec<String> = sheets.iter().map(|s| s.name()).collect();
    assert_eq!(sheet_names, names(&["orders", "products", "users"]));

    let options = ConvertOptions { tables: Some(names(&["users"])), ..Default::default() };
    let (sheets, stats) = convert(&tables, &options).unwrap();
    assert_eq!(stats.tables_exported, 1);
    assert_eq!(stats.total_rows, 2);
    assert_eq!(sheets.len(), 1);
}

#[test]
fn convert_includes_empty_tables_and_names_them_uniquely() {
    let tables = vec![
        table("History", &["id"], vec![vec![CellValue::Integer(1)]]),
        table("empty_table", &["id", "name"], vec![]),
        table("table/one", &["id"], vec![]),
        table("table:one", &["id"], vec![]),
    ];
    let (sheets, stats) = convert(&tables, &ConvertOptions::default()).unwrap();
    assert_eq!(stats.tables_exported, 4);
    assert_eq!(stats.total_rows, 1);
    let sheet_names: Vec<String> = sheets.iter().map(|s| s.name()).collect();
    assert_eq!(sheet_names, names(&["History_", "empty_table", "table_one", "table_one_1"]));
    // The sheets go into a workbook as they are.
    let mut workbook = Workbook::new();
    for sheet in sheets {
        workbook.push_worksheet(sheet);
    }
    assert!(workbook.save_to_buffer().is_ok());
}

#[test]
fn convert_of_no_tables_gives_no_sheets() {
    let (sheets, stats) = convert(&vec![], &ConvertOptions::default()).unwrap();
    assert!(sheets.is_empty());
    assert_eq!(stats.tables_exported, 0);
    assert_eq!(stats.total_rows, 0);
}

#[test]
fn missing_table_names_the_first_absent_request() {
    let available = names(&["orders", "users"]);
    assert_eq!(missing_table(&available, &None), None);
    assert_eq!(missing_table(&available, &Some(names(&["users", "orders"]))), None);
    assert_eq!(
        missing_table(&available, &Some(names(&["users", "ghost", "phantom"]))),
        Some("ghost".to_string())
    );
    assert_eq!(missing_table(&vec![], &Some(names(&["a"]))), Some("a".to_string()));
}

#[test]
fn workbook_gets_a_default_sheet_only_when_nothing_was_converted() {
    let sheets = workbook_sheets(vec![]).unwrap();
    assert_eq!(sheets.len(), 1);
    assert_eq!(sheets[0].name(), "Sheet1");

    let (converted, _) = convert(
        &vec![table("a", &["x"], vec![]), table("b", &["y"], vec![])],
        &ConvertOptions::default(),
    )
    .unwrap();
    let sheets = workbook_sheets(converted).unwrap();
    let sheet_names: Vec<String> = sheets.iter().map(|s| s.name()).collect();
    assert_eq!(sheet_names, names(&["a", "b"]));
}

#[test]
fn convert_reports_the_first_refused_cell() {
    // 20,000 characters, but 40,000 UTF-16 units: more than a cell holds.
    let wide_text = "\u{1F600}".repeat(20_000);
    let tables = vec![
        table("fine", &["id"], vec![vec![CellValue::Integer(1)]]),
        table("wide", &["id", "note"], vec![
            vec![CellValue::Integer(1), CellValue::Text("ok".to_string())],
            vec![CellValue::Integer(2), CellValue::Text(wide_text)],
        ]),
    ];
    assert!(matches!(
        convert(&tables, &ConvertOptions::default()),
        Err(ConvertError::MaxStringLength)
    ));
    let options = ConvertOptions { exclude: Some(names(&["wide"])), ..Default::default() };
    assert!(convert(&tables, &options).is_ok());
}
