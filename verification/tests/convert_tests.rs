use rust_xlsxwriter::Workbook;
use sqlite_to_xlsx::convert::{
    write_blob, write_integer, write_string, write_value, BlobHandling, CellValue, ConvertError,
    MAX_SAFE_INTEGER,
};
use sqlite_to_xlsx::encoding::{base64_encode, base64_len_checked};
use sqlite_to_xlsx::text::{bytes_to_hex, i64_to_decimal, truncate_string, TRUNCATION_SUFFIX};
use sqlite_to_xlsx::generate_sheet_name;

#[test]
fn test_blob_handling_default() {
    let default = BlobHandling::default();
    assert_eq!(default, BlobHandling::Placeholder);
}

#[test]
fn test_bytes_to_hex() {
    assert_eq!(bytes_to_hex(&[]), "0x");
    assert_eq!(bytes_to_hex(&[0x00]), "0x00");
    assert_eq!(bytes_to_hex(&[0xFF]), "0xff");
    assert_eq!(bytes_to_hex(&[0xDE, 0xAD, 0xBE, 0xEF]), "0xdeadbeef");
    assert_eq!(bytes_to_hex(&[0x01, 0x02, 0x03]), "0x010203");
}

#[test]
fn test_base64_encode() {
    assert_eq!(base64_encode(&[]), "");
    assert_eq!(base64_encode(&[0x48]), "SA==");
    assert_eq!(base64_encode(&[0x48, 0x65]), "SGU=");
    assert_eq!(base64_encode(&[0x48, 0x65, 0x6c, 0x6c, 0x6f]), "SGVsbG8=");
    assert_eq!(base64_encode(b"Hello, World!"), "SGVsbG8sIFdvcmxkIQ==");
}

#[test]
fn test_truncate_string() {
    // Short strings should not be truncated
    let short = "Hello";
    assert_eq!(truncate_string(short, 100), "Hello");

    // Exactly at limit should not be truncated
    let exact = "a".repeat(50);
    assert_eq!(truncate_string(&exact, 50), exact);

    // Over limit should be truncated
    let long = "a".repeat(100);
    let truncated = truncate_string(&long, 50);
    assert_eq!(truncated.len(), 50);
    assert!(truncated.ends_with(TRUNCATION_SUFFIX));

    // Very short limit
    let very_short = truncate_string("Hello, World!", 5);
    assert_eq!(very_short, TRUNCATION_SUFFIX);
}

#[test]
fn test_blob_handling_equality() {
    assert_eq!(BlobHandling::Placeholder, BlobHandling::Placeholder);
    assert_eq!(BlobHandling::Hex, BlobHandling::Hex);
    assert_eq!(BlobHandling::Base64, BlobHandling::Base64);
    assert_eq!(BlobHandling::Skip, BlobHandling::Skip);

    assert_ne!(BlobHandling::Placeholder, BlobHandling::Hex);
    assert_ne!(BlobHandling::Hex, BlobHandling::Base64);
    assert_ne!(BlobHandling::Base64, BlobHandling::Skip);
}

#[test]
fn truncate_counts_characters_not_bytes() {
    // 20,000 two-byte characters are within the 32,767-character limit.
    let text = "é".repeat(20_000);
    assert_eq!(truncate_string(&text, 32_767), text);
    // Over the limit, characters are kept, then the marker.
    let text = "あ".repeat(30);
    assert_eq!(truncate_string(&text, 20), format!("{}{}", "あ".repeat(5), TRUNCATION_SUFFIX));
    // Cutting twice is cutting once.
    let once = truncate_string(&"あ".repeat(100), 40);
    assert_eq!(truncate_string(&once, 40), once);
}

#[test]
fn truncate_at_marker_length_gives_marker() {
    assert_eq!(truncate_string("0123456789abcdefg", 15), TRUNCATION_SUFFIX);
    assert_eq!(truncate_string("0123456789abcdefg", 16), format!("0{}", TRUNCATION_SUFFIX));
}

#[test]
fn decimal_rendering_matches_display() {
    for n in [0i64, 7, 10, -1, -120, 9_007_199_254_740_993, i64::MAX, i64::MIN, -9_007_199_254_740_993] {
        assert_eq!(i64_to_decimal(n), n.to_string());
    }
}

#[test]
fn base64_encodes_all_byte_values() {
    let bytes: Vec<u8> = (0u8..=255).collect();
    let encoded = base64_encode(&bytes);
    assert_eq!(encoded.len(), 344);
    assert!(encoded.starts_with("AAECAwQFBgcICQoLDA0ODxAR"));
    assert!(encoded.ends_with("+/w=="));
}

#[test]
fn write_values_in_range_succeed() {
    let mut workbook = Workbook::new();
    let sheet = workbook.add_worksheet();
    let values = vec![
        CellValue::Null,
        CellValue::Integer(42),
        CellValue::Integer(-100),
        CellValue::Integer(0),
        CellValue::Integer(10_000_000_000_000_000),
        CellValue::Text("Hello, World!".to_string()),
        CellValue::Text(String::new()),
        CellValue::Text("你好世界 🌍".to_string()),
        CellValue::Text("Line 1\nLine 2\nLine 3".to_string()),
        CellValue::Blob(vec![0x48, 0x65, 0x6c, 0x6c, 0x6f]),
        CellValue::Blob(vec![]),
        CellValue::Real,
    ];
    for (col, value) in values.iter().enumerate() {
        for handling in [BlobHandling::Placeholder, BlobHandling::Hex, BlobHandling::Base64, BlobHandling::Skip] {
            assert_eq!(write_value(sheet, 0, col as u16, value, handling), Ok(()));
        }
    }
}

#[test]
fn write_outside_grid_is_refused() {
    let mut workbook = Workbook::new();
    let sheet = workbook.add_worksheet();
    assert_eq!(write_integer(sheet, 1_048_576, 0, 5), Err(ConvertError::RowColumnLimit));
    assert_eq!(write_integer(sheet, 0, 16_384, 5), Err(ConvertError::RowColumnLimit));
    assert_eq!(write_integer(sheet, 1_048_575, 16_383, 5), Ok(()));
    assert_eq!(
        write_integer(sheet, 1_048_576, 0, MAX_SAFE_INTEGER + 1),
        Err(ConvertError::RowColumnLimit)
    );
    assert_eq!(write_string(sheet, 2_000_000, 0, "x"), Err(ConvertError::RowColumnLimit));
    // Empty text is ignored before the position is looked at.
    assert_eq!(write_string(sheet, 2_000_000, 0, ""), Ok(()));
    assert_eq!(
        write_blob(sheet, 0, 20_000, &[1, 2, 3], BlobHandling::Hex),
        Err(ConvertError::RowColumnLimit)
    );
    // Skipped blobs and nulls do not touch the worksheet at all.
    assert_eq!(write_blob(sheet, 0, 20_000, &[1, 2, 3], BlobHandling::Skip), Ok(()));
    assert_eq!(write_value(sheet, 2_000_000, 0, &CellValue::Null, BlobHandling::Placeholder), Ok(()));
}

#[test]
fn long_text_is_cut_and_written() {
    let mut workbook = Workbook::new();
    let sheet = workbook.add_worksheet();
    let long = "x".repeat(40_000);
    assert_eq!(write_string(sheet, 0, 0, &long), Ok(()));
    let big_blob = vec![0xABu8; 100_000];
    for handling in [BlobHandling::Placeholder, BlobHandling::Hex, BlobHandling::Base64, BlobHandling::Skip] {
        assert_eq!(write_blob(sheet, 1, 0, &big_blob, handling), Ok(()));
    }
}

#[test]
fn long_text_outside_the_basic_plane_can_still_be_refused() {
    // The worksheet counts UTF-16 units: characters outside the basic plane
    // take two, so text within 32,767 characters can still be too long.
    let mut workbook = Workbook::new();
    let sheet = workbook.add_worksheet();
    let emoji = "😀".repeat(20_000);
    assert_eq!(write_string(sheet, 0, 0, &emoji), Err(ConvertError::MaxStringLength));
    let emoji = "😀".repeat(40_000);
    assert_eq!(write_string(sheet, 0, 0, &emoji), Err(ConvertError::MaxStringLength));
    let fits = "😀".repeat(16_000);
    assert_eq!(write_string(sheet, 0, 0, &fits), Ok(()));
    // Text within the limit in characters and units is written unchanged.
    let accents = "é".repeat(20_000);
    assert_eq!(write_string(sheet, 0, 1, &accents), Ok(()));
}

#[test]
fn smallest_integer_is_written_as_text() {
    let mut workbook = Workbook::new();
    let sheet = workbook.add_worksheet();
    assert_eq!(write_integer(sheet, 0, 0, i64::MIN), Ok(()));
    assert_eq!(write_integer(sheet, 0, 1, i64::MAX), Ok(()));
    assert_eq!(write_integer(sheet, 0, 2, -MAX_SAFE_INTEGER), Ok(()));
}

#[test]
fn generate_sheet_name_is_sheet1() {
    assert_eq!(generate_sheet_name(), Ok("Sheet1".to_string()));
}

#[test]
fn base64_length_is_checked() {
    assert_eq!(base64_len_checked(0), Some(0));
    assert_eq!(base64_len_checked(1), Some(4));
    assert_eq!(base64_len_checked(3), Some(4));
    assert_eq!(base64_len_checked(4), Some(8));
    assert_eq!(base64_len_checked(usize::MAX), None);
}

fn one_sheet() -> Workbook {
    Workbook::new()
}

#[test]
fn test_write_null() {
    let mut workbook = one_sheet();
    let worksheet = workbook.add_worksheet();
    let result = write_value(worksheet, 0, 0, &CellValue::Null, BlobHandling::default());
    assert!(result.is_ok());
}

#[test]
fn test_write_integer() {
    let mut workbook = one_sheet();
    let worksheet = workbook.add_worksheet();
    let result = write_value(worksheet, 0, 0, &CellValue::Integer(42), BlobHandling::default());
    assert!(result.is_ok());
    let result = write_value(worksheet, 0, 1, &CellValue::Integer(-100), BlobHandling::default());
    assert!(result.is_ok());
    let result = write_value(worksheet, 0, 2, &CellValue::Integer(0), BlobHandling::default());
    assert!(result.is_ok());
}

#[test]
fn test_write_large_integer() {
    let mut workbook = one_sheet();
    let worksheet = workbook.add_worksheet();
    let large_int = 10_000_000_000_000_000_i64; // Larger than 2^53
    let result = write_value(worksheet, 0, 0, &CellValue::Integer(large_int), BlobHandling::default());
    assert!(result.is_ok());
}

#[test]
fn test_write_text() {
    let mut workbook = one_sheet();
    let worksheet = workbook.add_worksheet();
    let result = write_value(
        worksheet,
        0,
        0,
        &CellValue::Text("Hello, World!".to_string()),
        BlobHandling::default(),
    );
    assert!(result.is_ok());

    let mut workbook = one_sheet();
    let worksheet = workbook.add_worksheet();
    let result = write_value(worksheet, 0, 0, &CellValue::Text("".to_string()), BlobHandling::default());
    assert!(result.is_ok());

    let mut workbook = one_sheet();
    let worksheet = workbook.add_worksheet();
    let result = write_value(
        worksheet,
        0,
        0,
        &CellValue::Text("你好世界 🌍".to_string()),
        BlobHandling::default(),
    );
    assert!(result.is_ok());
}

#[test]
fn test_write_blob_placeholder() {
    let mut workbook = one_sheet();
    let worksheet = workbook.add_worksheet();
    let blob = vec![0x48, 0x65, 0x6c, 0x6c, 0x6f]; // "Hello"
    let result = write_value(worksheet, 0, 0, &CellValue::Blob(blob), BlobHandling::Placeholder);
    assert!(result.is_ok());
}

#[test]
fn test_write_blob_hex() {
    let mut workbook = one_sheet();
    let worksheet = workbook.add_worksheet();
    let blob = vec![0xDE, 0xAD, 0xBE, 0xEF];
    let result = write_value(worksheet, 0, 0, &CellValue::Blob(blob), BlobHandling::Hex);
    assert!(result.is_ok());
}

#[test]
fn test_write_blob_base64() {
    let mut workbook = one_sheet();
    let worksheet = workbook.add_worksheet();
    let blob = vec![0x48, 0x65, 0x6c, 0x6c, 0x6f]; // "Hello"
    let result = write_value(worksheet, 0, 0, &CellValue::Blob(blob), BlobHandling::Base64);
    assert!(result.is_ok());
}

#[test]
fn test_write_blob_skip() {
    let mut workbook = one_sheet();
    let worksheet = workbook.add_worksheet();
    let blob = vec![0x01, 0x02, 0x03, 0x04];
    let result = write_value(worksheet, 0, 0, &CellValue::Blob(blob), BlobHandling::Skip);
    assert!(result.is_ok());
}

#[test]
fn test_write_empty_blob() {
    let mut workbook = one_sheet();
    let worksheet = workbook.add_worksheet();
    let blob = vec![];
    let result = write_value(worksheet, 0, 0, &CellValue::Blob(blob), BlobHandling::Placeholder);
    assert!(result.is_ok());
}

#[test]
fn test_multiple_cells_same_row() {
    let mut workbook = one_sheet();
    let worksheet = workbook.add_worksheet();
    let values = vec![
        CellValue::Null,
        CellValue::Integer(42),
        CellValue::Real,
        CellValue::Text("test".to_string()),
        CellValue::Blob(vec![1, 2, 3]),
    ];
    for (col, value) in values.iter().enumerate() {
        let result = write_value(worksheet, 0, col as u16, value, BlobHandling::default());
        assert!(result.is_ok());
    }
}

#[test]
fn test_multiple_cells_same_column() {
    let mut workbook = one_sheet();
    let worksheet = workbook.add_worksheet();
    let values = vec![CellValue::Integer(1), CellValue::Integer(2), CellValue::Integer(3)];
    for (row, value) in values.iter().enumerate() {
        let result = write_value(worksheet, row as u32, 0, value, BlobHandling::default());
        assert!(result.is_ok());
    }
}

#[test]
fn test_all_blob_handling_strategies() {
    let blob = vec![0x00, 0x01, 0x02, 0x03];
    for strategy in &[BlobHandling::Placeholder, BlobHandling::Hex, BlobHandling::Base64, BlobHandling::Skip] {
        let mut workbook = one_sheet();
        let worksheet = workbook.add_worksheet();
        let result = write_value(worksheet, 0, 0, &CellValue::Blob(blob.clone()), *strategy);
        assert!(result.is_ok(), "Failed for strategy: {:?}", strategy);
    }
}

#[test]
fn test_empty_string() {
    let mut workbook = one_sheet();
    let worksheet = workbook.add_worksheet();
    let result = write_value(worksheet, 0, 0, &CellValue::Text(String::new()), BlobHandling::default());
    assert!(result.is_ok());
}

#[test]
fn test_string_with_newlines() {
    let mut workbook = one_sheet();
    let worksheet = workbook.add_worksheet();
    let text = "Line 1\nLine 2\nLine 3";
    let result = write_value(worksheet, 0, 0, &CellValue::Text(text.to_string()), BlobHandling::default());
    assert!(result.is_ok());
}

#[test]
fn test_string_with_quotes() {
    let mut workbook = one_sheet();
    let worksheet = workbook.add_worksheet();
    let text = "He said \"Hello\"";
    let result = write_value(worksheet, 0, 0, &CellValue::Text(text.to_string()), BlobHandling::default());
    assert!(result.is_ok());
}

#[test]
fn test_large_blob_sizes() {
    let small_blob = vec![0u8; 10];
    let medium_blob = vec![0u8; 1_000];
    let large_blob = vec![0u8; 100_000];
    for blob in [small_blob, medium_blob, large_blob].iter() {
        let mut workbook = one_sheet();
        let worksheet = workbook.add_worksheet();
        let result = write_value(worksheet, 0, 0, &CellValue::Blob(blob.clone()), BlobHandling::Placeholder);
        assert!(result.is_ok(), "Failed for blob size {}: {:?}", blob.len(), result.unwrap_err());
    }
}
