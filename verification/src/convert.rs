//! Writing database values into worksheet cells.
//!
//! A worksheet of `rust_xlsxwriter` is seen through two maps: the text held by
//! each string cell, and the whole-number value held by each number cell. Every
//! write function here states, over those maps, what the cell at `(row, col)`
//! holds afterwards and which error, if any, comes back.

use rust_xlsxwriter::Worksheet;
use vstd::prelude::*;
use vstd::string::*;
use vstd::utf8::*;

use crate::cli::texts_of;
use crate::encoding::base64_encode;
use crate::sheet_name::is_listed;
use crate::sheet_name::names_chosen;
use crate::sheet_name::chosen_names;
use crate::sheet_name::naming_limit;
use crate::sheet_name::sheet_names_law;
use crate::sheet_name::valid_sheet_name;
use crate::cli::lowercase;
use crate::sheet_name::unique_sheet_names;
use crate::sheet_name::generate_sheet_name;
use crate::sheet_name::accepted_sheet_name;
use crate::encoding::base64_encoding;
use crate::encoding::base64_len;
use crate::encoding::base64_shape_law;
use crate::text::bytes_to_hex;
use crate::text::decimal;
use crate::text::decimal_digits;
use crate::text::hex_string;
use crate::text::lemma_ascii_concat;
use crate::text::lemma_decimal_digits_ascii;
use crate::text::lemma_decimal_digits_len_u64;
use crate::text::lemma_decimal_i64;
use crate::text::lemma_hex_string_ascii;
use crate::text::lemma_truncated_utf16_fits;
use crate::text::lemma_utf16_len_ascii;
use crate::text::i64_to_decimal;
use crate::text::truncate_string;
use crate::text::truncated;
use crate::text::hex_pairs;
use crate::text::lemma_suffix_facts;
use crate::text::truncation_suffix;
use crate::text::u64_to_decimal;
use crate::text::utf16_len;
use crate::text::MAX_STRING_LENGTH;

verus! {

#[verifier::external_type_specification]
#[verifier::external_body]
pub struct ExWorksheet(Worksheet);

/// Configuration for how BLOB values are written to Excel cells.
#[derive(Debug, Clone, Copy, PartialEq, Eq, Structural)]
pub enum BlobHandling {
    /// Write a placeholder string like "[BLOB: 123 bytes]"
    Placeholder,
    /// Write hexadecimal representation like "0x48656c6c6f"
    Hex,
    /// Write base64 encoded string
    Base64,
    /// Write an empty cell (skip the BLOB value)
    Skip,
}

impl Default for BlobHandling {
    fn default() -> (r: Self)
        ensures
            r == BlobHandling::Placeholder,
    {
        BlobHandling::Placeholder
    }
}

/// Why a cell could not be written.
#[derive(Debug, Clone, Copy, PartialEq, Eq, Structural)]
pub enum ConvertError {
    /// Row or column beyond Excel's 1,048,576 x 16,384 grid.
    RowColumnLimit,
    /// Text longer than 32,767 UTF-16 units.
    MaxStringLength,
    /// No acceptable, unused sheet name could be made for a table.
    SheetName,
    /// Any other refusal of the worksheet.
    Other,
}

/// Result of writing one cell.
pub type WriteResult = Result<(), ConvertError>;

/// Largest magnitude of an integer that an `f64` holds exactly (2^53).
pub const MAX_SAFE_INTEGER: i64 = 9_007_199_254_740_992;

/// Number of rows of a worksheet.
pub const ROW_LIMIT: u32 = 1_048_576;

/// Number of columns of a worksheet.
pub const COLUMN_LIMIT: u16 = 16_384;

// ---------------------------------------------------------------------------
// The worksheet as seen by the contracts
// ---------------------------------------------------------------------------

/// The text of every cell of `sheet` that holds a string, by (row, column).
pub uninterp spec fn sheet_text_cells(sheet: Worksheet) -> Map<(u32, u16), Seq<char>>;

/// The value of every cell of `sheet` that holds a whole number, by (row, column).
pub uninterp spec fn sheet_number_cells(sheet: Worksheet) -> Map<(u32, u16), int>;

/// What a write asks the worksheet to hold at one position.
pub enum CellContent {
    /// Leave the cell as it is.
    Blank,
    /// A string cell with this text.
    Text(Seq<char>),
    /// A number cell with this whole value.
    Number(int),
}

pub open spec fn in_sheet(row: u32, col: u16) -> bool {
    row < ROW_LIMIT && col < COLUMN_LIMIT
}

pub open spec fn cells_unchanged(before: Worksheet, after: Worksheet) -> bool {
    &&& sheet_text_cells(after) == sheet_text_cells(before)
    &&& sheet_number_cells(after) == sheet_number_cells(before)
}

/// The effect of writing `content` at `(row, col)`, and its result.
///
/// Empty text and blanks change nothing and succeed. Otherwise a position
/// outside the grid is refused, then text over 32,767 UTF-16 units is refused;
/// a refused write changes no cell. An accepted write replaces whatever the
/// cell held.
pub open spec fn write_outcome(
    before: Worksheet,
    after: Worksheet,
    row: u32,
    col: u16,
    content: CellContent,
    r: WriteResult,
) -> bool {
    match content {
        CellContent::Blank => r is Ok && cells_unchanged(before, after),
        CellContent::Text(t) => if t.len() == 0 {
            r is Ok && cells_unchanged(before, after)
        } else if !in_sheet(row, col) {
            r matches Err(ConvertError::RowColumnLimit) && cells_unchanged(before, after)
        } else if utf16_len(t) > MAX_STRING_LENGTH {
            r matches Err(ConvertError::MaxStringLength) && cells_unchanged(before, after)
        } else {
            &&& r is Ok
            &&& sheet_text_cells(after) == sheet_text_cells(before).insert((row, col), t)
            &&& sheet_number_cells(after) == sheet_number_cells(before).remove((row, col))
        },
        CellContent::Number(n) => if !in_sheet(row, col) {
            r matches Err(ConvertError::RowColumnLimit) && cells_unchanged(before, after)
        } else {
            &&& r is Ok
            &&& sheet_number_cells(after) == sheet_number_cells(before).insert((row, col), n)
            &&& sheet_text_cells(after) == sheet_text_cells(before).remove((row, col))
        },
    }
}

/// `Worksheet::write_string`.
///
/// Claims: empty text is ignored; otherwise the position is checked against the
/// grid, then the text's UTF-16 length against 32,767, and an accepted text
/// replaces the cell; a refused one changes no cell. This holds for worksheets made in
/// standard-memory mode, the only mode without the crate's `constant_memory`
/// feature.
#[verifier::external_body]
fn sheet_write_string(sheet: &mut Worksheet, row: u32, col: u16, text: &str) -> (r: WriteResult)
    ensures
        text@.len() == 0 ==> (r is Ok && cells_unchanged(*old(sheet), *final(sheet))),
        text@.len() > 0 && !in_sheet(row, col) ==> ({
            &&& r matches Err(ConvertError::RowColumnLimit)
            &&& sheet_text_cells(*final(sheet)) == sheet_text_cells(*old(sheet))
            &&& sheet_number_cells(*final(sheet)) == sheet_number_cells(*old(sheet))
        }),
        text@.len() > 0 && in_sheet(row, col) && utf16_len(text@) > MAX_STRING_LENGTH ==> ({
            &&& r matches Err(ConvertError::MaxStringLength)
            &&& sheet_text_cells(*final(sheet)) == sheet_text_cells(*old(sheet))
            &&& sheet_number_cells(*final(sheet)) == sheet_number_cells(*old(sheet))
        }),
        text@.len() > 0 && in_sheet(row, col) && utf16_len(text@) <= MAX_STRING_LENGTH ==> ({
            &&& r is Ok
            &&& sheet_text_cells(*final(sheet)) == sheet_text_cells(*old(sheet)).insert(
                (row, col),
                text@,
            )
            &&& sheet_number_cells(*final(sheet)) == sheet_number_cells(*old(sheet)).remove(
                (row, col),
            )
        }),
{
    match sheet.write_string(row, col, text) {
        Ok(_) => Ok(()),
        Err(rust_xlsxwriter::XlsxError::RowColumnLimitError) => Err(ConvertError::RowColumnLimit),
        Err(rust_xlsxwriter::XlsxError::MaxStringLengthExceeded) => Err(
            ConvertError::MaxStringLength,
        ),
        Err(_) => Err(ConvertError::Other),
    }
}

/// `Worksheet::write` with an `i64`, which stores `value as f64`.
///
/// Claims: a position outside the grid is refused; otherwise the cell becomes
/// a number cell. For magnitudes up to 2^53 the stored `f64` is exactly
/// `value`, which is why `requires` keeps to those.
#[verifier::external_body]
fn sheet_write_integer(sheet: &mut Worksheet, row: u32, col: u16, value: i64) -> (r: WriteResult)
    requires
        -MAX_SAFE_INTEGER <= value <= MAX_SAFE_INTEGER,
    ensures
        !in_sheet(row, col) ==> ({
            &&& r matches Err(ConvertError::RowColumnLimit)
            &&& sheet_text_cells(*final(sheet)) == sheet_text_cells(*old(sheet))
            &&& sheet_number_cells(*final(sheet)) == sheet_number_cells(*old(sheet))
        }),
        in_sheet(row, col) ==> ({
            &&& r is Ok
            &&& sheet_number_cells(*final(sheet)) == sheet_number_cells(*old(sheet)).insert(
                (row, col),
                value as int,
            )
            &&& sheet_text_cells(*final(sheet)) == sheet_text_cells(*old(sheet)).remove((row, col))
        }),
{
    match sheet.write(row, col, value) {
        Ok(_) => Ok(()),
        Err(rust_xlsxwriter::XlsxError::RowColumnLimitError) => Err(ConvertError::RowColumnLimit),
        Err(_) => Err(ConvertError::Other),
    }
}

/// `Worksheet::write` with `None::<&str>`.
///
/// Claims: it succeeds and changes no cell (the crate returns at once for `None`).
#[verifier::external_body]
fn sheet_write_none(sheet: &mut Worksheet, row: u32, col: u16) -> (r: WriteResult)
    ensures
        r is Ok,
        sheet_text_cells(*final(sheet)) == sheet_text_cells(*old(sheet)),
        sheet_number_cells(*final(sheet)) == sheet_number_cells(*old(sheet)),
{
    match sheet.write(row, col, None::<&str>) {
        Ok(_) => Ok(()),
        Err(_) => Err(ConvertError::Other),
    }
}

/// The name of a worksheet.
pub uninterp spec fn sheet_name_of(sheet: Worksheet) -> Seq<char>;

/// `Worksheet::new`.
///
/// Claims: a new worksheet holds no cell.
#[verifier::external_body]
fn new_worksheet() -> (sheet: Worksheet)
    ensures
        sheet_text_cells(sheet).dom().is_empty(),
        sheet_number_cells(sheet).dom().is_empty(),
{
    Worksheet::new()
}

/// `Worksheet::set_name`.
///
/// Claims: a name the crate's checks accept (not empty, at most 31 UTF-16
/// units, none of `[ ] : * ? / \`, no `'` at either end) becomes the sheet's
/// name; any other is refused. The cells are not touched either way.
#[verifier::external_body]
fn set_sheet_name(sheet: &mut Worksheet, name: &str) -> (r: WriteResult)
    ensures
        accepted_sheet_name(name@) ==> r is Ok && sheet_name_of(*final(sheet)) == name@,
        !accepted_sheet_name(name@) ==> r matches Err(ConvertError::SheetName),
        sheet_text_cells(*final(sheet)) == sheet_text_cells(*old(sheet)),
        sheet_number_cells(*final(sheet)) == sheet_number_cells(*old(sheet)),
{
    match sheet.set_name(name) {
        Ok(_) => Ok(()),
        Err(_) => Err(ConvertError::SheetName),
    }
}

// ---------------------------------------------------------------------------
// What each value becomes
// ---------------------------------------------------------------------------

/// A database value other than a floating-point one.
pub enum CellValue {
    Null,
    Integer(i64),
    /// A floating-point value: the library leaves its cell to the caller.
    Real,
    Text(String),
    Blob(Vec<u8>),
}

pub open spec fn abs(n: int) -> int {
    if n < 0 {
        -n
    } else {
        n
    }
}

/// An integer is a number cell while an `f64` holds it exactly, else its decimal text.
pub open spec fn integer_content(value: int) -> CellContent {
    if abs(value) > MAX_SAFE_INTEGER {
        CellContent::Text(decimal(value))
    } else {
        CellContent::Number(value)
    }
}

/// Text is cut to Excel's limit of 32,767 characters before it is written.
pub open spec fn string_content(s: Seq<char>) -> CellContent {
    CellContent::Text(truncated(s, MAX_STRING_LENGTH as nat))
}

/// `[BLOB: <n> bytes]`.
pub open spec fn placeholder_text(n: nat) -> Seq<char> {
    "[BLOB: "@ + decimal_digits(n) + " bytes]"@
}

pub open spec fn blob_content(bytes: Seq<u8>, handling: BlobHandling) -> CellContent {
    match handling {
        BlobHandling::Placeholder => CellContent::Text(placeholder_text(bytes.len())),
        BlobHandling::Hex => string_content(hex_string(bytes)),
        BlobHandling::Base64 => string_content(base64_encoding(bytes)),
        BlobHandling::Skip => CellContent::Blank,
    }
}

pub open spec fn value_content(value: CellValue, handling: BlobHandling) -> CellContent {
    match value {
        CellValue::Null => CellContent::Blank,
        CellValue::Real => CellContent::Blank,
        CellValue::Integer(n) => integer_content(n as int),
        CellValue::Text(s) => string_content(s@),
        CellValue::Blob(b) => blob_content(b@, handling),
    }
}

/// What a value demands of its caller: a base64 text whose length fits in memory.
pub open spec fn value_writable(value: CellValue, handling: BlobHandling) -> bool {
    match value {
        CellValue::Blob(b) => handling == BlobHandling::Base64 ==> base64_len(b@.len()) <= usize::MAX,
        _ => true,
    }
}

// ---------------------------------------------------------------------------
// Writing
// ---------------------------------------------------------------------------

/// Writes an integer: as a number while it is within 2^53 in magnitude,
/// otherwise as its decimal text so that no digit is lost.
pub fn write_integer(sheet: &mut Worksheet, row: u32, col: u16, value: i64) -> (r: WriteResult)
    ensures
        write_outcome(*old(sheet), *final(sheet), row, col, integer_content(value as int), r),
        in_sheet(row, col) ==> r is Ok,
        in_sheet(row, col) && -MAX_SAFE_INTEGER <= value <= MAX_SAFE_INTEGER ==> {
            &&& sheet_number_cells(*final(sheet)).contains_key((row, col))
            &&& sheet_number_cells(*final(sheet))[(row, col)] == value as int
            &&& !sheet_text_cells(*final(sheet)).contains_key((row, col))
        },
        in_sheet(row, col) && value < -MAX_SAFE_INTEGER ==> sheet_text_cells(
            *final(sheet),
        ).contains_key((row, col)) && sheet_text_cells(*final(sheet))[(row, col)] == seq!['-']
            + decimal_digits((-(value as int)) as nat),
        in_sheet(row, col) && value > MAX_SAFE_INTEGER ==> sheet_text_cells(
            *final(sheet),
        ).contains_key((row, col)) && sheet_text_cells(*final(sheet))[(row, col)] == decimal_digits(
            value as nat,
        ),
{
    proof {
        lemma_decimal_i64(value);
        lemma_utf16_len_ascii(decimal(value as int));
    }
    let magnitude: u64 = if value < 0 {
        (-(value + 1)) as u64 + 1
    } else {
        value as u64
    };
    let r = if magnitude > MAX_SAFE_INTEGER as u64 {
        let text = i64_to_decimal(value);
        sheet_write_string(sheet, row, col, text.as_str())
    } else {
        sheet_write_integer(sheet, row, col, value)
    };
    proof {
        if in_sheet(row, col) {
            integer_cell_law(*old(sheet), *sheet, row, col, value, r);
        }
    }
    r
}

/// Writes text, cut to Excel's maximum length when it is longer.
pub fn write_string(sheet: &mut Worksheet, row: u32, col: u16, value: &str) -> (r: WriteResult)
    ensures
        write_outcome(*old(sheet), *final(sheet), row, col, string_content(value@), r),
        in_sheet(row, col) && (is_ascii_chars(value@) || utf16_len(value@) <= MAX_STRING_LENGTH)
            ==> r is Ok,
        in_sheet(row, col) && 0 < value@.len() <= MAX_STRING_LENGTH && utf16_len(value@)
            <= MAX_STRING_LENGTH ==> {
            &&& sheet_text_cells(*final(sheet)).contains_key((row, col))
            &&& sheet_text_cells(*final(sheet))[(row, col)] == value@
            &&& !sheet_number_cells(*final(sheet)).contains_key((row, col))
        },
        in_sheet(row, col) && value@.len() > MAX_STRING_LENGTH && is_ascii_chars(value@) ==> {
            &&& sheet_text_cells(*final(sheet)).contains_key((row, col))
            &&& sheet_text_cells(*final(sheet))[(row, col)] == value@.take(MAX_STRING_LENGTH - 15)
                + truncation_suffix()
        },
{
    proof {
        if is_ascii_chars(value@) || utf16_len(value@) <= MAX_STRING_LENGTH {
            lemma_truncated_utf16_fits(value@);
        }
    }
    let r = if value.unicode_len() > MAX_STRING_LENGTH {
        let cut = truncate_string(value, MAX_STRING_LENGTH);
        sheet_write_string(sheet, row, col, cut.as_str())
    } else {
        sheet_write_string(sheet, row, col, value)
    };
    proof {
        if in_sheet(row, col) && value@.len() > 0 && (is_ascii_chars(value@) || utf16_len(value@)
            <= MAX_STRING_LENGTH) {
            text_cell_law(*old(sheet), *sheet, row, col, value@, r);
        }
    }
    r
}

/// Writes a BLOB the way `blob_handling` asks.
pub fn write_blob(
    sheet: &mut Worksheet,
    row: u32,
    col: u16,
    value: &[u8],
    blob_handling: BlobHandling,
) -> (r: WriteResult)
    requires
        blob_handling == BlobHandling::Base64 ==> base64_len(value@.len()) <= usize::MAX,
    ensures
        write_outcome(*old(sheet), *final(sheet), row, col, blob_content(value@, blob_handling), r),
        in_sheet(row, col) ==> r is Ok,
        in_sheet(row, col) && blob_handling == BlobHandling::Placeholder ==> sheet_text_cells(
            *final(sheet),
        ).contains_key((row, col)) && sheet_text_cells(*final(sheet))[(row, col)] == "[BLOB: "@
            + decimal_digits(value@.len()) + " bytes]"@,
        in_sheet(row, col) && blob_handling == BlobHandling::Hex ==> sheet_text_cells(
            *final(sheet),
        ).contains_key((row, col)) && sheet_text_cells(*final(sheet))[(row, col)] == truncated(
            seq!['0', 'x'] + hex_pairs(value@),
            MAX_STRING_LENGTH as nat,
        ),
        in_sheet(row, col) && blob_handling == BlobHandling::Base64 && value@.len() > 0
            ==> sheet_text_cells(*final(sheet)).contains_key((row, col)) && sheet_text_cells(
            *final(sheet),
        )[(row, col)] == truncated(base64_encoding(value@), MAX_STRING_LENGTH as nat),
        blob_handling == BlobHandling::Skip ==> cells_unchanged(*old(sheet), *final(sheet)),
{
    let r = match blob_handling {
        BlobHandling::Placeholder => {
            proof {
                reveal_strlit("[BLOB: ");
                reveal_strlit(" bytes]");
                assert(value@.len() == value.len());
                let digits = decimal_digits(value@.len());
                lemma_decimal_digits_ascii(value@.len());
                lemma_decimal_digits_len_u64(value@.len());
                lemma_ascii_concat("[BLOB: "@, digits);
                lemma_ascii_concat("[BLOB: "@ + digits, " bytes]"@);
                lemma_utf16_len_ascii(placeholder_text(value@.len()));
            }
            let mut placeholder = String::from_str("[BLOB: ");
            let count = u64_to_decimal(value.len() as u64);
            placeholder.append(count.as_str());
            placeholder.append(" bytes]");
            sheet_write_string(sheet, row, col, placeholder.as_str())
        },
        BlobHandling::Hex => {
            proof {
                lemma_hex_string_ascii(value@);
            }
            let hex = bytes_to_hex(value);
            write_string(sheet, row, col, hex.as_str())
        },
        BlobHandling::Base64 => {
            proof {
                base64_shape_law(value@);
            }
            let encoded = base64_encode(value);
            write_string(sheet, row, col, encoded.as_str())
        },
        BlobHandling::Skip => sheet_write_none(sheet, row, col),
    };
    proof {
        if in_sheet(row, col) {
            assert(value@.len() == value.len());
            blob_cell_law(*old(sheet), *sheet, row, col, value@, blob_handling, r);
        }
    }
    r
}

/// Writes a non-floating-point database value to a cell.
pub fn write_value(
    sheet: &mut Worksheet,
    row: u32,
    col: u16,
    value: &CellValue,
    blob_handling: BlobHandling,
) -> (r: WriteResult)
    requires
        value_writable(*value, blob_handling),
    ensures
        write_outcome(*old(sheet), *final(sheet), row, col, value_content(*value, blob_handling), r),
        in_sheet(row, col) && (value matches CellValue::Text(s) ==> is_ascii_chars(s@)
            || utf16_len(s@) <= MAX_STRING_LENGTH) ==> r is Ok,
{
    match value {
        CellValue::Null => sheet_write_none(sheet, row, col),
        CellValue::Real => Ok(()),
        CellValue::Integer(n) => write_integer(sheet, row, col, *n),
        CellValue::Text(s) => write_string(sheet, row, col, s.as_str()),
        CellValue::Blob(b) => write_blob(sheet, row, col, b.as_slice(), blob_handling),
    }
}

/// A successful write is read back: the cell holds exactly what was written
/// (text or whole number, and not the other kind), blanks and empty text leave
/// every cell alone, and no other cell changes.
pub proof fn written_cell_law(
    before: Worksheet,
    after: Worksheet,
    row: u32,
    col: u16,
    content: CellContent,
    r: WriteResult,
    other: (u32, u16),
)
    requires
        write_outcome(before, after, row, col, content, r),
        r is Ok,
    ensures
        content matches CellContent::Text(t) ==> t.len() > 0 ==> {
            &&& sheet_text_cells(after).contains_key((row, col))
            &&& sheet_text_cells(after)[(row, col)] == t
            &&& !sheet_number_cells(after).contains_key((row, col))
        },
        content matches CellContent::Number(n) ==> {
            &&& sheet_number_cells(after).contains_key((row, col))
            &&& sheet_number_cells(after)[(row, col)] == n
            &&& !sheet_text_cells(after).contains_key((row, col))
        },
        content is Blank ==> cells_unchanged(before, after),
        content matches CellContent::Text(t) ==> t.len() == 0 ==> cells_unchanged(before, after),
        other != (row, col) ==> {
            &&& sheet_text_cells(after).contains_key(other) == sheet_text_cells(
                before,
            ).contains_key(other)
            &&& sheet_text_cells(after)[other] == sheet_text_cells(before)[other]
            &&& sheet_number_cells(after).contains_key(other) == sheet_number_cells(
                before,
            ).contains_key(other)
            &&& sheet_number_cells(after)[other] == sheet_number_cells(before)[other]
        },
{
}

// ---------------------------------------------------------------------------
// What a written cell holds
// ---------------------------------------------------------------------------

/// Writing text inside the grid stores the text itself when it has at most
/// 32,767 characters, and otherwise its first 32,752 characters followed by
/// `... [truncated]`. It is a text cell, never a number cell.
pub proof fn text_cell_law(
    before: Worksheet,
    after: Worksheet,
    row: u32,
    col: u16,
    s: Seq<char>,
    r: WriteResult,
)
    requires
        write_outcome(before, after, row, col, string_content(s), r),
        in_sheet(row, col),
        s.len() > 0,
        is_ascii_chars(s) || utf16_len(s) <= MAX_STRING_LENGTH,
    ensures
        r is Ok,
        sheet_text_cells(after).contains_key((row, col)),
        !sheet_number_cells(after).contains_key((row, col)),
        s.len() <= MAX_STRING_LENGTH ==> sheet_text_cells(after)[(row, col)] == s,
        s.len() > MAX_STRING_LENGTH ==> sheet_text_cells(after)[(row, col)] == s.take(
            MAX_STRING_LENGTH - 15,
        ) + truncation_suffix(),
{
    lemma_truncated_utf16_fits(s);
    lemma_suffix_facts();
    let t = truncated(s, MAX_STRING_LENGTH as nat);
    assert(t.len() > 0);
    written_cell_law(before, after, row, col, CellContent::Text(t), r, (row, col));
}

/// Writing an integer inside the grid: one within 2^53 in magnitude is a
/// number cell holding the integer itself (sign included); a larger one is a
/// text cell holding its decimal digits, with `-` in front when negative.
pub proof fn integer_cell_law(
    before: Worksheet,
    after: Worksheet,
    row: u32,
    col: u16,
    value: i64,
    r: WriteResult,
)
    requires
        write_outcome(before, after, row, col, integer_content(value as int), r),
        in_sheet(row, col),
    ensures
        r is Ok,
        -MAX_SAFE_INTEGER <= value <= MAX_SAFE_INTEGER ==> {
            &&& sheet_number_cells(after).contains_key((row, col))
            &&& sheet_number_cells(after)[(row, col)] == value as int
            &&& !sheet_text_cells(after).contains_key((row, col))
        },
        value < -MAX_SAFE_INTEGER ==> {
            &&& sheet_text_cells(after).contains_key((row, col))
            &&& sheet_text_cells(after)[(row, col)] == seq!['-'] + decimal_digits(
                (-(value as int)) as nat,
            )
            &&& !sheet_number_cells(after).contains_key((row, col))
        },
        value > MAX_SAFE_INTEGER ==> {
            &&& sheet_text_cells(after).contains_key((row, col))
            &&& sheet_text_cells(after)[(row, col)] == decimal_digits(value as nat)
            &&& !sheet_number_cells(after).contains_key((row, col))
        },
{
    lemma_decimal_i64(value);
    lemma_utf16_len_ascii(decimal(value as int));
    written_cell_law(before, after, row, col, integer_content(value as int), r, (row, col));
}

/// Writing a BLOB inside the grid: the placeholder mode stores the text
/// `[BLOB: <n> bytes]`, the hex mode `0x` and the lower-case hex digits, the
/// base64 mode the padded base64 text (each cut like any text), always as a
/// text cell; only the skip mode, and base64 of no bytes (empty text, which
/// the worksheet ignores), leave the cells as they were.
pub proof fn blob_cell_law(
    before: Worksheet,
    after: Worksheet,
    row: u32,
    col: u16,
    bytes: Seq<u8>,
    handling: BlobHandling,
    r: WriteResult,
)
    requires
        write_outcome(before, after, row, col, blob_content(bytes, handling), r),
        in_sheet(row, col),
        bytes.len() <= usize::MAX,
    ensures
        r is Ok,
        handling == BlobHandling::Placeholder ==> sheet_text_cells(after).contains_key((row, col))
            && sheet_text_cells(after)[(row, col)] == "[BLOB: "@ + decimal_digits(bytes.len())
            + " bytes]"@,
        handling == BlobHandling::Hex ==> sheet_text_cells(after).contains_key((row, col))
            && sheet_text_cells(after)[(row, col)] == truncated(
            seq!['0', 'x'] + hex_pairs(bytes),
            MAX_STRING_LENGTH as nat,
        ),
        handling == BlobHandling::Base64 && bytes.len() > 0 ==> sheet_text_cells(after).contains_key(
            (row, col),
        ) && sheet_text_cells(after)[(row, col)] == truncated(
            base64_encoding(bytes),
            MAX_STRING_LENGTH as nat,
        ),
        handling != BlobHandling::Skip && !(handling == BlobHandling::Base64 && bytes.len() == 0)
            ==> sheet_text_cells(after).contains_key((row, col)) && !sheet_number_cells(
            after,
        ).contains_key((row, col)),
        handling == BlobHandling::Skip ==> cells_unchanged(before, after),
        handling == BlobHandling::Base64 && bytes.len() == 0 ==> cells_unchanged(before, after),
{
    reveal_strlit("[BLOB: ");
    reveal_strlit(" bytes]");
    let digits = decimal_digits(bytes.len());
    lemma_decimal_digits_ascii(bytes.len());
    lemma_decimal_digits_len_u64(bytes.len());
    lemma_ascii_concat("[BLOB: "@, digits);
    lemma_ascii_concat("[BLOB: "@ + digits, " bytes]"@);
    lemma_utf16_len_ascii(placeholder_text(bytes.len()));
    lemma_hex_string_ascii(bytes);
    base64_shape_law(bytes);
    lemma_truncated_utf16_fits(hex_string(bytes));
    lemma_truncated_utf16_fits(base64_encoding(bytes));
    lemma_suffix_facts();
    assert(truncated(hex_string(bytes), MAX_STRING_LENGTH as nat).len() > 0);
    if bytes.len() > 0 {
        assert(base64_len(bytes.len()) > 0);
        assert(truncated(base64_encoding(bytes), MAX_STRING_LENGTH as nat).len() > 0);
    } else {
        assert(base64_encoding(bytes).len() == 0);
        assert(truncated(base64_encoding(bytes), MAX_STRING_LENGTH as nat).len() == 0);
    }
    written_cell_law(before, after, row, col, blob_content(bytes, handling), r, (row, col));
}

/// Writing a database value inside the grid: NULL leaves the cells as they
/// were; an integer within 2^53 in magnitude is a number cell holding it;
/// text within the limits is a text cell holding it unchanged; a BLOB in the
/// placeholder mode is the text `[BLOB: <n> bytes]` and in the skip mode
/// leaves the cells as they were.
pub proof fn value_cell_law(
    before: Worksheet,
    after: Worksheet,
    row: u32,
    col: u16,
    value: CellValue,
    handling: BlobHandling,
    r: WriteResult,
)
    requires
        write_outcome(before, after, row, col, value_content(value, handling), r),
        in_sheet(row, col),
        value matches CellValue::Blob(b) ==> b@.len() <= usize::MAX,
    ensures
        value is Null ==> r is Ok && cells_unchanged(before, after),
        value matches CellValue::Integer(n) ==> (-MAX_SAFE_INTEGER <= n <= MAX_SAFE_INTEGER ==> {
            &&& r is Ok
            &&& sheet_number_cells(after).contains_key((row, col))
            &&& sheet_number_cells(after)[(row, col)] == n as int
        }),
        value matches CellValue::Text(s) ==> (0 < s@.len() <= MAX_STRING_LENGTH && utf16_len(s@)
            <= MAX_STRING_LENGTH ==> {
            &&& r is Ok
            &&& sheet_text_cells(after).contains_key((row, col))
            &&& sheet_text_cells(after)[(row, col)] == s@
        }),
        value matches CellValue::Blob(b) ==> (handling == BlobHandling::Placeholder ==> {
            &&& r is Ok
            &&& sheet_text_cells(after).contains_key((row, col))
            &&& sheet_text_cells(after)[(row, col)] == "[BLOB: "@ + decimal_digits(b@.len())
                + " bytes]"@
        }),
        value matches CellValue::Blob(b) ==> (handling == BlobHandling::Skip ==> r is Ok
            && cells_unchanged(before, after)),
{
    match value {
        CellValue::Null => {},
        CellValue::Real => {},
        CellValue::Integer(n) => {
            integer_cell_law(before, after, row, col, n, r);
        },
        CellValue::Text(s) => {
            if 0 < s@.len() <= MAX_STRING_LENGTH && utf16_len(s@) <= MAX_STRING_LENGTH {
                text_cell_law(before, after, row, col, s@, r);
            }
        },
        CellValue::Blob(b) => {
            blob_cell_law(before, after, row, col, b@, handling, r);
        },
    }
}

// ---------------------------------------------------------------------------
// Whole tables
// ---------------------------------------------------------------------------

/// One write: a position and what it asks the cell to hold.
pub type CellWrite = ((u32, u16), CellContent);

/// The string cells and the whole-number cells of a worksheet.
pub type CellMaps = (Map<(u32, u16), Seq<char>>, Map<(u32, u16), int>);

pub open spec fn cells_of(sheet: Worksheet) -> CellMaps {
    (sheet_text_cells(sheet), sheet_number_cells(sheet))
}

/// Whether a write of `content` at `pos` is accepted.
pub open spec fn write_ok(pos: (u32, u16), content: CellContent) -> bool {
    match content {
        CellContent::Blank => true,
        CellContent::Text(t) => t.len() == 0 || (in_sheet(pos.0, pos.1) && utf16_len(t)
            <= MAX_STRING_LENGTH),
        CellContent::Number(_) => in_sheet(pos.0, pos.1),
    }
}

/// The cells after an accepted write.
pub open spec fn apply_write(m: CellMaps, w: CellWrite) -> CellMaps {
    match w.1 {
        CellContent::Blank => m,
        CellContent::Text(t) => if t.len() == 0 {
            m
        } else {
            (m.0.insert(w.0, t), m.1.remove(w.0))
        },
        CellContent::Number(n) => (m.0.remove(w.0), m.1.insert(w.0, n)),
    }
}

/// The cells after the writes, in order.
pub open spec fn apply_writes(m: CellMaps, writes: Seq<CellWrite>) -> CellMaps
    decreases writes.len(),
{
    if writes.len() == 0 {
        m
    } else {
        apply_write(apply_writes(m, writes.drop_last()), writes.last())
    }
}

pub open spec fn writes_ok(writes: Seq<CellWrite>) -> bool {
    forall|i: int| 0 <= i < writes.len() ==> #[trigger] write_ok(writes[i].0, writes[i].1)
}

/// The error a refused write of `content` at `pos` gives: a position outside
/// the grid first, then text too long for a cell.
pub open spec fn write_error(pos: (u32, u16), content: CellContent) -> ConvertError {
    match content {
        CellContent::Text(_) => if !in_sheet(pos.0, pos.1) {
            ConvertError::RowColumnLimit
        } else {
            ConvertError::MaxStringLength
        },
        CellContent::Number(_) => ConvertError::RowColumnLimit,
        CellContent::Blank => ConvertError::Other,
    }
}

/// The error of the first refused write, if any is refused.
pub open spec fn first_error(writes: Seq<CellWrite>) -> Option<ConvertError>
    decreases writes.len(),
{
    if writes.len() == 0 {
        None
    } else {
        match first_error(writes.drop_last()) {
            Some(e) => Some(e),
            None => if write_ok(writes.last().0, writes.last().1) {
                None
            } else {
                Some(write_error(writes.last().0, writes.last().1))
            },
        }
    }
}

/// No write is refused exactly when there is no first refused write.
proof fn lemma_first_error_ok(ws: Seq<CellWrite>)
    ensures
        writes_ok(ws) <==> first_error(ws) is None,
    decreases ws.len(),
{
    if ws.len() > 0 {
        let init = ws.drop_last();
        lemma_first_error_ok(init);
        if writes_ok(ws) {
            assert forall|i: int| 0 <= i < init.len() implies #[trigger] write_ok(init[i].0, init[i].1) by {
                assert(init[i] == ws[i]);
            }
            assert(write_ok(ws[ws.len() - 1].0, ws[ws.len() - 1].1));
        }
        if first_error(ws) is None {
            assert forall|i: int| 0 <= i < ws.len() implies #[trigger] write_ok(ws[i].0, ws[i].1) by {
                if i < init.len() {
                    assert(init[i] == ws[i]);
                    assert(write_ok(init[i].0, init[i].1));
                }
            }
        }
    }
}

/// The first refused write of `a + b` is the first of `a`, or else the first of `b`.
proof fn lemma_first_error_concat(a: Seq<CellWrite>, b: Seq<CellWrite>)
    ensures
        first_error(a + b) == (match first_error(a) {
            Some(e) => Some(e),
            None => first_error(b),
        }),
    decreases b.len(),
{
    if b.len() == 0 {
        assert(a + b =~= a);
    } else {
        lemma_first_error_concat(a, b.drop_last());
        assert((a + b).drop_last() =~= a + b.drop_last());
        assert((a + b).last() == b.last());
    }
}

/// The first refused write of a single write.
proof fn lemma_first_error_single(w: CellWrite)
    ensures
        first_error(seq![w]) == (if write_ok(w.0, w.1) { None } else { Some(write_error(w.0, w.1)) }),
{
    let s = seq![w];
    assert(s.drop_last() =~= Seq::<CellWrite>::empty());
    assert(first_error(s.drop_last()) is None);
    assert(s.last() == w);
}

/// The header row: column `j` of row 0 holds the `j`-th column name.
pub open spec fn header_writes(columns: Seq<String>) -> Seq<CellWrite> {
    Seq::new(columns.len(), |j: int| (((0u32, j as u16)), string_content(columns[j]@)))
}

/// One table row: column `j` of `row` holds what the `j`-th value becomes.
pub open spec fn row_writes(values: Seq<CellValue>, row: nat, handling: BlobHandling) -> Seq<
    CellWrite,
> {
    Seq::new(values.len(), |j: int| (((row as u32, j as u16)), value_content(values[j], handling)))
}

/// The rows, one after the other, starting at sheet row `first`.
pub open spec fn rows_writes(rows: Seq<Vec<CellValue>>, first: nat, handling: BlobHandling) -> Seq<
    CellWrite,
>
    decreases rows.len(),
{
    if rows.len() == 0 {
        seq![]
    } else {
        rows_writes(rows.drop_last(), first, handling) + row_writes(
            rows.last()@,
            (first + rows.len() - 1) as nat,
            handling,
        )
    }
}

/// Everything written for a table: the header row when asked for, then every
/// row of data below it.
pub open spec fn table_writes(
    columns: Seq<String>,
    rows: Seq<Vec<CellValue>>,
    write_headers: bool,
    handling: BlobHandling,
) -> Seq<CellWrite> {
    if write_headers {
        header_writes(columns) + rows_writes(rows, 1, handling)
    } else {
        rows_writes(rows, 0, handling)
    }
}

/// A row fits the grid's index types and its values can be written.
pub open spec fn row_fits(values: Seq<CellValue>, handling: BlobHandling) -> bool {
    &&& values.len() <= 65536
    &&& forall|j: int| 0 <= j < values.len() ==> value_writable(#[trigger] values[j], handling)
}

/// A table's positions fit the grid's index types and its values can be written.
pub open spec fn table_fits(columns: Seq<String>, rows: Seq<Vec<CellValue>>, handling: BlobHandling) -> bool {
    &&& columns.len() <= 65536
    &&& rows.len() < u32::MAX
    &&& forall|i: int| 0 <= i < rows.len() ==> row_fits(#[trigger] rows[i]@, handling)
}

proof fn lemma_apply_writes_concat(m: CellMaps, a: Seq<CellWrite>, b: Seq<CellWrite>)
    ensures
        apply_writes(m, a + b) == apply_writes(apply_writes(m, a), b),
        writes_ok(a + b) == (writes_ok(a) && writes_ok(b)),
    decreases b.len(),
{
    if b.len() == 0 {
        assert(a + b =~= a);
    } else {
        lemma_apply_writes_concat(m, a, b.drop_last());
        assert((a + b).drop_last() =~= a + b.drop_last());
        assert((a + b).last() == b.last());
    }
    if writes_ok(a) && writes_ok(b) {
        assert forall|i: int| 0 <= i < (a + b).len() implies #[trigger] write_ok(
            (a + b)[i].0,
            (a + b)[i].1,
        ) by {
            if i < a.len() {
                assert((a + b)[i] == a[i]);
            } else {
                assert((a + b)[i] == b[i - a.len()]);
            }
        }
    }
    if writes_ok(a + b) {
        assert forall|i: int| 0 <= i < a.len() implies #[trigger] write_ok(a[i].0, a[i].1) by {
            assert((a + b)[i] == a[i]);
        }
        assert forall|i: int| 0 <= i < b.len() implies #[trigger] write_ok(b[i].0, b[i].1) by {
            assert((a + b)[a.len() + i] == b[i]);
        }
    }
}

proof fn lemma_step(m: CellMaps, ws: Seq<CellWrite>, k: int)
    requires
        0 <= k < ws.len(),
    ensures
        apply_writes(m, ws.take(k + 1)) == apply_write(apply_writes(m, ws.take(k)), ws[k]),
        writes_ok(ws.take(k + 1)) == (writes_ok(ws.take(k)) && write_ok(ws[k].0, ws[k].1)),
{
    assert(ws.take(k + 1).drop_last() =~= ws.take(k));
    assert(ws.take(k + 1) =~= ws.take(k) + seq![ws[k]]);
    lemma_apply_writes_concat(m, ws.take(k), seq![ws[k]]);
    assert(seq![ws[k]].drop_last() =~= Seq::<CellWrite>::empty());
    if write_ok(ws[k].0, ws[k].1) {
        assert forall|i: int| 0 <= i < 1 implies #[trigger] write_ok(
            seq![ws[k]][i].0,
            seq![ws[k]][i].1,
        ) by {}
    }
    if writes_ok(seq![ws[k]]) {
        assert(write_ok(seq![ws[k]][0].0, seq![ws[k]][0].1));
    }
}

/// When every write before index `j` is accepted and the `j`-th is refused,
/// the first refused write is the `j`-th.
proof fn lemma_error_at(ws: Seq<CellWrite>, j: int)
    requires
        0 <= j < ws.len(),
        writes_ok(ws.take(j)),
        !write_ok(ws[j].0, ws[j].1),
    ensures
        first_error(ws) == Some(write_error(ws[j].0, ws[j].1)),
{
    lemma_first_error_ok(ws.take(j));
    assert(ws =~= ws.take(j) + (seq![ws[j]] + ws.skip(j + 1)));
    lemma_first_error_concat(ws.take(j), seq![ws[j]] + ws.skip(j + 1));
    lemma_first_error_concat(seq![ws[j]], ws.skip(j + 1));
    lemma_first_error_single(ws[j]);
}

/// Writes the values of one table row into row `row` of the sheet, stopping
/// at the first refused cell.
pub fn write_row(
    sheet: &mut Worksheet,
    row: u32,
    values: &Vec<CellValue>,
    blob_handling: BlobHandling,
) -> (r: WriteResult)
    requires
        row_fits(values@, blob_handling),
    ensures
        writes_ok(row_writes(values@, row as nat, blob_handling)) ==> r is Ok && cells_of(
            *final(sheet),
        ) == apply_writes(cells_of(*old(sheet)), row_writes(values@, row as nat, blob_handling)),
        !writes_ok(row_writes(values@, row as nat, blob_handling)) ==> r is Err,
        r matches Err(e) ==> first_error(row_writes(values@, row as nat, blob_handling)) == Some(e),
{
    let ghost ws = row_writes(values@, row as nat, blob_handling);
    let ghost start = cells_of(*sheet);
    let mut j: usize = 0;
    assert(ws.take(0) =~= Seq::<CellWrite>::empty());
    while j < values.len()
        invariant
            j <= values@.len(),
            values@.len() <= 65536,
            ws == row_writes(values@, row as nat, blob_handling),
            forall|k: int| 0 <= k < values@.len() ==> value_writable(#[trigger] values@[k], blob_handling),
            cells_of(*sheet) == apply_writes(start, ws.take(j as int)),
            writes_ok(ws.take(j as int)),
        decreases values.len() - j,
    {
        let ghost before = *sheet;
        let col: u16 = j as u16;
        let result = write_value(sheet, row, col, &values[j], blob_handling);
        proof {
            lemma_step(start, ws, j as int);
            assert(ws[j as int] == ((row, col), value_content(values@[j as int], blob_handling)));
        }
        if result.is_err() {
            assert(!writes_ok(ws)) by {
                assert(!write_ok(ws[j as int].0, ws[j as int].1));
            }
            proof {
                lemma_error_at(ws, j as int);
            }
            return result;
        }
        j += 1;
    }
    assert(ws.take(values@.len() as int) =~= ws);
    Ok(())
}

/// Writes the column names into row 0, stopping at the first refused cell.
pub fn write_header_row(sheet: &mut Worksheet, columns: &Vec<String>) -> (r: WriteResult)
    requires
        columns@.len() <= 65536,
    ensures
        writes_ok(header_writes(columns@)) ==> r is Ok && cells_of(*final(sheet)) == apply_writes(
            cells_of(*old(sheet)),
            header_writes(columns@),
        ),
        !writes_ok(header_writes(columns@)) ==> r is Err,
        r matches Err(e) ==> first_error(header_writes(columns@)) == Some(e),
{
    let ghost ws = header_writes(columns@);
    let ghost start = cells_of(*sheet);
    let mut j: usize = 0;
    assert(ws.take(0) =~= Seq::<CellWrite>::empty());
    while j < columns.len()
        invariant
            j <= columns@.len(),
            columns@.len() <= 65536,
            ws == header_writes(columns@),
            cells_of(*sheet) == apply_writes(start, ws.take(j as int)),
            writes_ok(ws.take(j as int)),
        decreases columns.len() - j,
    {
        let col: u16 = j as u16;
        let result = write_string(sheet, 0, col, columns[j].as_str());
        proof {
            lemma_step(start, ws, j as int);
            assert(ws[j as int] == ((0u32, col), string_content(columns@[j as int]@)));
        }
        if result.is_err() {
            assert(!writes_ok(ws)) by {
                assert(!write_ok(ws[j as int].0, ws[j as int].1));
            }
            proof {
                lemma_error_at(ws, j as int);
            }
            return result;
        }
        j += 1;
    }
    assert(ws.take(columns@.len() as int) =~= ws);
    Ok(())
}

/// Writes a whole table: the header row when `write_headers`, then each row
/// of data below it. Returns the number of data rows written.
pub fn write_table(
    sheet: &mut Worksheet,
    columns: &Vec<String>,
    rows: &Vec<Vec<CellValue>>,
    write_headers: bool,
    blob_handling: BlobHandling,
) -> (r: Result<usize, ConvertError>)
    requires
        table_fits(columns@, rows@, blob_handling),
    ensures
        writes_ok(table_writes(columns@, rows@, write_headers, blob_handling)) ==> r == Ok::<
            usize,
            ConvertError,
        >(rows@.len() as usize) && cells_of(*final(sheet)) == apply_writes(
            cells_of(*old(sheet)),
            table_writes(columns@, rows@, write_headers, blob_handling),
        ),
        !writes_ok(table_writes(columns@, rows@, write_headers, blob_handling)) ==> r is Err,
        r matches Err(e) ==> first_error(table_writes(columns@, rows@, write_headers, blob_handling))
            == Some(e),
{
    let ghost start = cells_of(*sheet);
    let ghost head: Seq<CellWrite> = if write_headers {
        header_writes(columns@)
    } else {
        seq![]
    };
    let first: u32 = if write_headers {
        1
    } else {
        0
    };
    if write_headers {
        let h = write_header_row(sheet, columns);
        if h.is_err() {
            proof {
                lemma_apply_writes_concat(start, head, rows_writes(rows@, 1, blob_handling));
                lemma_first_error_concat(head, rows_writes(rows@, 1, blob_handling));
            }
            return Err(h.unwrap_err());
        }
    }
    assert(cells_of(*sheet) == apply_writes(start, head + rows_writes(rows@.take(0), first as nat, blob_handling))) by {
        assert(rows@.take(0) =~= Seq::<Vec<CellValue>>::empty());
        assert(head + Seq::<CellWrite>::empty() =~= head);
    }
    let mut i: usize = 0;
    while i < rows.len()
        invariant
            i <= rows@.len(),
            table_fits(columns@, rows@, blob_handling),
            first as nat == (if write_headers { 1nat } else { 0nat }),
            head == (if write_headers { header_writes(columns@) } else { Seq::<CellWrite>::empty() }),
            writes_ok(head),
            cells_of(*sheet) == apply_writes(start, head + rows_writes(rows@.take(i as int), first as nat, blob_handling)),
            writes_ok(head + rows_writes(rows@.take(i as int), first as nat, blob_handling)),
        decreases rows.len() - i,
    {
        let ghost done = head + rows_writes(rows@.take(i as int), first as nat, blob_handling);
        let ghost this_row = row_writes(rows@[i as int]@, (first + i) as nat, blob_handling);
        proof {
            let t = rows@.take(i + 1);
            assert(t.drop_last() =~= rows@.take(i as int));
            assert(t.last() == rows@[i as int]);
            assert(rows_writes(t, first as nat, blob_handling) == rows_writes(rows@.take(i as int), first as nat, blob_handling) + this_row);
            assert(head + rows_writes(t, first as nat, blob_handling) =~= done + this_row);
            lemma_apply_writes_concat(start, done, this_row);
            assert(row_fits(rows@[i as int]@, blob_handling));
        }
        let result = write_row(sheet, first + i as u32, &rows[i], blob_handling);
        if result.is_err() {
            proof {
                let rest = rows@.skip(i + 1);
                lemma_rows_writes_split(rows@, i + 1, first as nat, blob_handling);
                lemma_apply_writes_concat(start, head, rows_writes(rows@, first as nat, blob_handling));
                lemma_apply_writes_concat(start, rows_writes(rows@.take(i + 1), first as nat, blob_handling), rows_writes_from(rows@, i + 1, first as nat, blob_handling));
                lemma_apply_writes_concat(start, rows_writes(rows@.take(i as int), first as nat, blob_handling), this_row);
                let rest_writes = rows_writes_from(rows@, i + 1, first as nat, blob_handling);
                assert(head + rows_writes(rows@, first as nat, blob_handling) =~= (done + this_row)
                    + rest_writes);
                lemma_first_error_ok(done);
                lemma_first_error_concat(done, this_row);
                lemma_first_error_concat(done + this_row, rest_writes);
            }
            return Err(result.unwrap_err());
        }
        i += 1;
    }
    proof {
        assert(rows@.take(rows@.len() as int) =~= rows@);
    }
    Ok(rows.len())
}

/// The writes of the rows from index `from` on.
pub open spec fn rows_writes_from(rows: Seq<Vec<CellValue>>, from: int, first: nat, handling: BlobHandling) -> Seq<CellWrite>
    decreases rows.len() - from,
{
    if from >= rows.len() || from < 0 {
        seq![]
    } else {
        row_writes(rows[from]@, (first + from) as nat, handling) + rows_writes_from(rows, from + 1, first, handling)
    }
}

proof fn lemma_rows_writes_split(rows: Seq<Vec<CellValue>>, k: int, first: nat, handling: BlobHandling)
    requires
        0 <= k <= rows.len(),
    ensures
        rows_writes(rows, first, handling) == rows_writes(rows.take(k), first, handling)
            + rows_writes_from(rows, k, first, handling),
    decreases rows.len() - k,
{
    if k == rows.len() {
        assert(rows.take(k) =~= rows);
        assert(rows_writes(rows, first, handling) + Seq::<CellWrite>::empty() =~= rows_writes(rows, first, handling));
    } else {
        lemma_rows_writes_split(rows, k + 1, first, handling);
        let t = rows.take(k + 1);
        assert(t.drop_last() =~= rows.take(k));
        assert(t.last() == rows[k]);
        assert(rows_writes(t, first, handling) == rows_writes(rows.take(k), first, handling) + row_writes(rows[k]@, (first + k) as nat, handling));
        assert(rows_writes_from(rows, k, first, handling) == row_writes(rows[k]@, (first + k) as nat, handling) + rows_writes_from(rows, k + 1, first, handling));
        assert(rows_writes(rows.take(k), first, handling) + rows_writes_from(rows, k, first, handling) =~= rows_writes(t, first, handling) + rows_writes_from(rows, k + 1, first, handling));
    }
}

/// What a cell holds after writes from an empty sheet: the text or number
/// asked for, or nothing for blanks and empty text.
pub open spec fn cell_holds(m: CellMaps, pos: (u32, u16), content: CellContent) -> bool {
    match content {
        CellContent::Text(t) => if t.len() > 0 {
            m.0.contains_key(pos) && m.0[pos] == t && !m.1.contains_key(pos)
        } else {
            !m.0.contains_key(pos) && !m.1.contains_key(pos)
        },
        CellContent::Number(n) => m.1.contains_key(pos) && m.1[pos] == n && !m.0.contains_key(pos),
        CellContent::Blank => !m.0.contains_key(pos) && !m.1.contains_key(pos),
    }
}

pub open spec fn same_at(a: CellMaps, b: CellMaps, pos: (u32, u16)) -> bool {
    &&& a.0.contains_key(pos) == b.0.contains_key(pos)
    &&& a.0.contains_key(pos) ==> a.0[pos] == b.0[pos]
    &&& a.1.contains_key(pos) == b.1.contains_key(pos)
    &&& a.1.contains_key(pos) ==> a.1[pos] == b.1[pos]
}

proof fn lemma_other_positions(m: CellMaps, ws: Seq<CellWrite>, pos: (u32, u16))
    requires
        forall|k: int| 0 <= k < ws.len() ==> (#[trigger] ws[k]).0 != pos,
    ensures
        same_at(apply_writes(m, ws), m, pos),
    decreases ws.len(),
{
    if ws.len() > 0 {
        let init = ws.drop_last();
        assert forall|k: int| 0 <= k < init.len() implies (#[trigger] init[k]).0 != pos by {
            assert(init[k] == ws[k]);
        }
        lemma_other_positions(m, init, pos);
        assert(ws.last().0 != pos);
    }
}

proof fn lemma_row_writes_drop_last(values: Seq<CellValue>, row: nat, h: BlobHandling)
    requires
        values.len() > 0,
    ensures
        row_writes(values, row, h).drop_last() == row_writes(values.drop_last(), row, h),
        row_writes(values, row, h).last() == (((row as u32, (values.len() - 1) as u16)), value_content(
            values.last(),
            h,
        )),
{
    assert(row_writes(values, row, h).drop_last() =~= row_writes(values.drop_last(), row, h));
}

proof fn lemma_row_cells(m: CellMaps, values: Seq<CellValue>, row: nat, h: BlobHandling)
    requires
        values.len() <= 65536,
        forall|j: int|
            0 <= j < values.len() ==> !#[trigger] m.0.contains_key((row as u32, j as u16))
                && !m.1.contains_key((row as u32, j as u16)),
    ensures
        forall|j: int|
            0 <= j < values.len() ==> #[trigger] cell_holds(
                apply_writes(m, row_writes(values, row, h)),
                (row as u32, j as u16),
                value_content(values[j], h),
            ),
    decreases values.len(),
{
    if values.len() > 0 {
        let init = values.drop_last();
        let n = values.len() - 1;
        lemma_row_writes_drop_last(values, row, h);
        assert forall|j: int| 0 <= j < init.len() implies !#[trigger] m.0.contains_key((row as u32, j as u16)) && !m.1.contains_key((row as u32, j as u16)) by {}
        lemma_row_cells(m, init, row, h);
        let before = apply_writes(m, row_writes(init, row, h));
        let last = row_writes(values, row, h).last();
        assert forall|j: int| 0 <= j < values.len() implies #[trigger] cell_holds(
            apply_writes(m, row_writes(values, row, h)),
            (row as u32, j as u16),
            value_content(values[j], h),
        ) by {
            if j < n {
                assert(init[j] == values[j]);
                assert((row as u32, j as u16) != (row as u32, n as u16));
                assert(cell_holds(before, (row as u32, j as u16), value_content(init[j], h)));
            } else {
                lemma_other_positions(m, row_writes(init, row, h), (row as u32, n as u16));
            }
        }
    }
}

/// Every write of the rows lies in rows `first .. first + rows.len()`.
proof fn lemma_rows_positions(rows: Seq<Vec<CellValue>>, first: nat, h: BlobHandling)
    requires
        first + rows.len() <= u32::MAX + 1,
    ensures
        forall|k: int|
            0 <= k < rows_writes(rows, first, h).len() ==> first <= (#[trigger] rows_writes(
                rows,
                first,
                h,
            )[k]).0.0 < first + rows.len(),
    decreases rows.len(),
{
    if rows.len() > 0 {
        let init = rows.drop_last();
        lemma_rows_positions(init, first, h);
        let a = rows_writes(init, first, h);
        let b = row_writes(rows.last()@, (first + rows.len() - 1) as nat, h);
        assert forall|k: int| 0 <= k < (a + b).len() implies first <= (#[trigger] (a + b)[k]).0.0
            < first + rows.len() by {
            if k < a.len() {
                assert((a + b)[k] == a[k]);
            } else {
                assert((a + b)[k] == b[k - a.len()]);
            }
        }
    }
}

proof fn lemma_rows_cells(rows: Seq<Vec<CellValue>>, first: nat, h: BlobHandling, m: CellMaps)
    requires
        first + rows.len() <= u32::MAX + 1,
        forall|i: int| 0 <= i < rows.len() ==> (#[trigger] rows[i])@.len() <= 65536,
        m.0 == Map::<(u32, u16), Seq<char>>::empty(),
        m.1 == Map::<(u32, u16), int>::empty(),
    ensures
        forall|i: int, j: int|
            0 <= i < rows.len() && 0 <= j < rows[i]@.len() ==> #[trigger] cell_holds(
                apply_writes(m, rows_writes(rows, first, h)),
                ((first + i) as u32, j as u16),
                value_content(rows[i]@[j], h),
            ),
    decreases rows.len(),
{
    if rows.len() > 0 {
        let init = rows.drop_last();
        let n = rows.len() - 1;
        assert forall|i: int| 0 <= i < init.len() implies (#[trigger] init[i])@.len() <= 65536 by {
            assert(init[i] == rows[i]);
        }
        lemma_rows_cells(init, first, h, m);
        lemma_rows_positions(init, first, h);
        let a = rows_writes(init, first, h);
        let mid = apply_writes(m, a);
        let row = (first + n) as nat;
        let b = row_writes(rows.last()@, row, h);
        lemma_apply_writes_concat(m, a, b);
        assert forall|j: int| 0 <= j < rows.last()@.len() implies !#[trigger] mid.0.contains_key((row as u32, j as u16)) && !mid.1.contains_key((row as u32, j as u16)) by {
            lemma_other_positions(m, a, (row as u32, j as u16));
        }
        lemma_row_cells(mid, rows.last()@, row, h);
        assert forall|i: int, j: int| 0 <= i < rows.len() && 0 <= j < rows[i]@.len() implies #[trigger] cell_holds(
            apply_writes(m, rows_writes(rows, first, h)),
            ((first + i) as u32, j as u16),
            value_content(rows[i]@[j], h),
        ) by {
            if i < n {
                assert(init[i] == rows[i]);
                assert(cell_holds(mid, ((first + i) as u32, j as u16), value_content(init[i]@[j], h)));
                assert forall|k: int| 0 <= k < b.len() implies (#[trigger] b[k]).0 != (
                    (first + i) as u32,
                    j as u16,
                ) by {}
                lemma_other_positions(mid, b, ((first + i) as u32, j as u16));
            } else {
                assert(rows[i] == rows.last());
            }
        }
    }
}

/// A table written on a new sheet reads back cell by cell: with headers, row
/// 0 holds the column names (cut to Excel's limit) and row `i + 1` the `i`-th
/// row; without, row `i` holds the `i`-th row. Each cell holds what its value
/// becomes (`value_content`): the text, the whole number, or nothing.
pub proof fn table_cells_law(
    columns: Seq<String>,
    rows: Seq<Vec<CellValue>>,
    write_headers: bool,
    h: BlobHandling,
)
    requires
        table_fits(columns, rows, h),
    ensures
        write_headers ==> forall|j: int|
            0 <= j < columns.len() ==> #[trigger] cell_holds(
                apply_writes(
                    (Map::<(u32, u16), Seq<char>>::empty(), Map::<(u32, u16), int>::empty()),
                    table_writes(columns, rows, write_headers, h),
                ),
                (0u32, j as u16),
                string_content(columns[j]@),
            ),
        write_headers ==> forall|i: int, j: int|
            0 <= i < rows.len() && 0 <= j < rows[i]@.len() ==> #[trigger] cell_holds(
                apply_writes(
                    (Map::<(u32, u16), Seq<char>>::empty(), Map::<(u32, u16), int>::empty()),
                    table_writes(columns, rows, write_headers, h),
                ),
                ((1 + i) as u32, j as u16),
                value_content(rows[i]@[j], h),
            ),
        !write_headers ==> forall|i: int, j: int|
            0 <= i < rows.len() && 0 <= j < rows[i]@.len() ==> #[trigger] cell_holds(
                apply_writes(
                    (Map::<(u32, u16), Seq<char>>::empty(), Map::<(u32, u16), int>::empty()),
                    table_writes(columns, rows, write_headers, h),
                ),
                (i as u32, j as u16),
                value_content(rows[i]@[j], h),
            ),
{
    let e = (Map::<(u32, u16), Seq<char>>::empty(), Map::<(u32, u16), int>::empty());
    assert forall|i: int| 0 <= i < rows.len() implies (#[trigger] rows[i])@.len() <= 65536 by {
        assert(row_fits(rows[i]@, h));
    }
    if write_headers {
        let hw = header_writes(columns);
        let rw = rows_writes(rows, 1, h);
        lemma_apply_writes_concat(e, hw, rw);
        let mid = apply_writes(e, hw);
        // The header row, as a row of text values.
        let as_values = Seq::new(columns.len(), |j: int| CellValue::Text(columns[j]));
        assert(hw =~= row_writes(as_values, 0, h));
        lemma_row_cells(e, as_values, 0, h);
        lemma_rows_positions(rows, 1, h);
        assert forall|j: int| 0 <= j < columns.len() implies #[trigger] cell_holds(
            apply_writes(e, hw + rw),
            (0u32, j as u16),
            string_content(columns[j]@),
        ) by {
            assert(value_content(as_values[j], h) == string_content(columns[j]@));
            assert(cell_holds(apply_writes(e, row_writes(as_values, 0, h)), ((0nat) as u32, j as u16), value_content(as_values[j], h)));
            assert(cell_holds(mid, (0u32, j as u16), string_content(columns[j]@)));
            assert forall|k: int| 0 <= k < rw.len() implies (#[trigger] rw[k]).0 != (0u32, j as u16) by {}
            lemma_other_positions(mid, rw, (0u32, j as u16));
        }
        // The rows: build them on the empty sheet, then compare with the
        // sheet that already holds the header row.
        lemma_rows_cells(rows, 1, h, e);
        assert forall|i: int, j: int| 0 <= i < rows.len() && 0 <= j < rows[i]@.len() implies #[trigger] cell_holds(
            apply_writes(e, hw + rw),
            ((1 + i) as u32, j as u16),
            value_content(rows[i]@[j], h),
        ) by {
            let pos = ((1 + i) as u32, j as u16);
            lemma_other_positions(e, hw, pos);
            lemma_rows_over(mid, e, rw, pos);
            assert(cell_holds(apply_writes(e, rw), (((1nat + i) as u32), j as u16), value_content(rows[i]@[j], h)));
            assert(cell_holds(apply_writes(e, rw), pos, value_content(rows[i]@[j], h)));
            assert(same_at(apply_writes(mid, rw), apply_writes(e, rw), pos));
            assert(apply_writes(e, hw + rw) == apply_writes(mid, rw));
        }
    } else {
        lemma_rows_cells(rows, 0, h, e);
        assert forall|i: int, j: int| 0 <= i < rows.len() && 0 <= j < rows[i]@.len() implies #[trigger] cell_holds(
            apply_writes(e, rows_writes(rows, 0, h)),
            (i as u32, j as u16),
            value_content(rows[i]@[j], h),
        ) by {
            assert(cell_holds(apply_writes(e, rows_writes(rows, 0, h)), ((0nat + i) as u32, j as u16), value_content(rows[i]@[j], h)));
        }
    }
}

/// Writes replay the same way on two sheets that agree at a position.
proof fn lemma_rows_over(a: CellMaps, b: CellMaps, ws: Seq<CellWrite>, pos: (u32, u16))
    requires
        same_at(a, b, pos),
    ensures
        same_at(apply_writes(a, ws), apply_writes(b, ws), pos),
    decreases ws.len(),
{
    if ws.len() > 0 {
        lemma_rows_over(a, b, ws.drop_last(), pos);
    }
}

// ---------------------------------------------------------------------------
// The conversion
// ---------------------------------------------------------------------------

/// What to convert and how.
pub struct ConvertOptions {
    /// Only these tables, when given.
    pub tables: Option<Vec<String>>,
    /// Not these tables, when given.
    pub exclude: Option<Vec<String>>,
    /// How BLOB values are written.
    pub blob_handling: BlobHandling,
    /// Whether each sheet starts with a row of column names.
    pub write_headers: bool,
    /// Whether progress and summary output is suppressed.
    pub quiet: bool,
}

impl Default for ConvertOptions {
    fn default() -> (r: Self)
        ensures
            r.tables is None,
            r.exclude is None,
            r.blob_handling == BlobHandling::Placeholder,
            r.write_headers,
            !r.quiet,
    {
        ConvertOptions {
            tables: None,
            exclude: None,
            blob_handling: BlobHandling::Placeholder,
            write_headers: true,
            quiet: false,
        }
    }
}

/// What a conversion did.
pub struct ConvertStats {
    /// Number of tables written, one sheet each.
    pub tables_exported: usize,
    /// Number of data rows written over all sheets.
    pub total_rows: usize,
}

/// A table as read from the database: its name, its column names, and its
/// rows in the order the database gave them.
pub struct TableData {
    pub name: String,
    pub columns: Vec<String>,
    pub rows: Vec<Vec<CellValue>>,
}

/// Whether a table is converted: it is among the tables asked for, if any
/// were, and not among those excluded.
pub open spec fn table_selected(name: Seq<char>, options: ConvertOptions) -> bool {
    &&& (options.tables matches Some(l) ==> texts_of(l@).contains(name))
    &&& (options.exclude matches Some(e) ==> !texts_of(e@).contains(name))
}

/// The names of the tables to convert, in order.
pub open spec fn selected_names(names: Seq<String>, options: ConvertOptions) -> Seq<String>
    decreases names.len(),
{
    if names.len() == 0 {
        seq![]
    } else if table_selected(names.last()@, options) {
        selected_names(names.drop_last(), options).push(names.last())
    } else {
        selected_names(names.drop_last(), options)
    }
}

/// The tables to convert, in order.
pub open spec fn selected_tables(tables: Seq<TableData>, options: ConvertOptions) -> Seq<TableData>
    decreases tables.len(),
{
    if tables.len() == 0 {
        seq![]
    } else if table_selected(tables.last().name@, options) {
        selected_tables(tables.drop_last(), options).push(tables.last())
    } else {
        selected_tables(tables.drop_last(), options)
    }
}

/// Whether the table named `name` is converted.
pub fn is_table_selected(name: &str, options: &ConvertOptions) -> (r: bool)
    ensures
        r == table_selected(name@, *options),
        r <==> ((options.tables matches Some(l) ==> texts_of(l@).contains(name@)) && (
        options.exclude matches Some(e) ==> !texts_of(e@).contains(name@))),
{
    let wanted = match &options.tables {
        Some(list) => is_listed(list, name),
        None => true,
    };
    let excluded = match &options.exclude {
        Some(list) => is_listed(list, name),
        None => false,
    };
    wanted && !excluded
}

/// The tables chosen are exactly those whose name is one of the names asked
/// for (when names are asked for) and none of the names excluded: each chosen
/// name is one of the tables, meets both conditions, and every table that
/// meets them is chosen.
pub proof fn selection_law(names: Seq<String>, options: ConvertOptions)
    ensures
        forall|k: int| 0 <= k < selected_names(names, options).len() ==> exists|j: int|
            0 <= j < names.len() && #[trigger] selected_names(names, options)[k] == names[j],
        forall|k: int| #![trigger selected_names(names, options)[k]]
            0 <= k < selected_names(names, options).len() ==> {
            &&& (options.tables matches Some(l) ==> texts_of(l@).contains(
                selected_names(names, options)[k]@,
            ))
            &&& (options.exclude matches Some(e) ==> !texts_of(e@).contains(
                selected_names(names, options)[k]@,
            ))
        },
        forall|j: int|
            #![trigger names[j]]
            0 <= j < names.len() && (options.tables matches Some(l) ==> texts_of(l@).contains(
                names[j]@,
            )) && (options.exclude matches Some(e) ==> !texts_of(e@).contains(names[j]@))
                ==> selected_names(names, options).contains(names[j]),
    decreases names.len(),
{
    if names.len() > 0 {
        let init = names.drop_last();
        selection_law(init, options);
        let p = selected_names(init, options);
        let s = selected_names(names, options);
        assert forall|k: int| 0 <= k < s.len() implies exists|j: int|
            0 <= j < names.len() && #[trigger] s[k] == names[j] by {
            if k < p.len() {
                assert(s[k] == p[k]);
                let j = choose|j: int| 0 <= j < init.len() && p[k] == init[j];
                assert(names[j] == init[j]);
            } else {
                assert(s[k] == names[names.len() - 1]);
            }
        }
        assert forall|k: int| #![trigger s[k]] 0 <= k < s.len() implies {
            &&& (options.tables matches Some(l) ==> texts_of(l@).contains(s[k]@))
            &&& (options.exclude matches Some(e) ==> !texts_of(e@).contains(s[k]@))
        } by {
            if k < p.len() {
                assert(s[k] == p[k]);
            }
        }
        assert forall|j: int|
            #![trigger names[j]]
            0 <= j < names.len() && (options.tables matches Some(l) ==> texts_of(l@).contains(
                names[j]@,
            )) && (options.exclude matches Some(e) ==> !texts_of(e@).contains(names[j]@))
            implies s.contains(names[j]) by {
            if j < init.len() {
                assert(names[j] == init[j]);
                assert(init[j]@ == names[j]@);
                assert(p.contains(init[j]));
                let k = choose|k: int| 0 <= k < p.len() && p[k] == init[j];
                assert(s[k] == p[k]);
            } else {
                assert(s[s.len() - 1] == names[j]);
            }
        }
    }
}

/// The same for whole tables, by their names: each chosen table is one of the
/// tables and its name meets both conditions, and every table whose name meets
/// them is chosen.
pub proof fn table_selection_law(tables: Seq<TableData>, options: ConvertOptions)
    ensures
        forall|k: int| 0 <= k < selected_tables(tables, options).len() ==> exists|j: int|
            0 <= j < tables.len() && #[trigger] selected_tables(tables, options)[k] == tables[j],
        forall|k: int| #![trigger selected_tables(tables, options)[k]]
            0 <= k < selected_tables(tables, options).len() ==> {
            &&& (options.tables matches Some(l) ==> texts_of(l@).contains(
                selected_tables(tables, options)[k].name@,
            ))
            &&& (options.exclude matches Some(e) ==> !texts_of(e@).contains(
                selected_tables(tables, options)[k].name@,
            ))
        },
        forall|j: int|
            #![trigger tables[j]]
            0 <= j < tables.len() && (options.tables matches Some(l) ==> texts_of(l@).contains(
                tables[j].name@,
            )) && (options.exclude matches Some(e) ==> !texts_of(e@).contains(tables[j].name@))
                ==> selected_tables(tables, options).contains(tables[j]),
    decreases tables.len(),
{
    if tables.len() > 0 {
        let init = tables.drop_last();
        table_selection_law(init, options);
        let p = selected_tables(init, options);
        let s = selected_tables(tables, options);
        assert forall|k: int| 0 <= k < s.len() implies exists|j: int|
            0 <= j < tables.len() && #[trigger] s[k] == tables[j] by {
            if k < p.len() {
                assert(s[k] == p[k]);
                let j = choose|j: int| 0 <= j < init.len() && p[k] == init[j];
                assert(tables[j] == init[j]);
            } else {
                assert(s[k] == tables[tables.len() - 1]);
            }
        }
        assert forall|k: int| #![trigger s[k]] 0 <= k < s.len() implies {
            &&& (options.tables matches Some(l) ==> texts_of(l@).contains(s[k].name@))
            &&& (options.exclude matches Some(e) ==> !texts_of(e@).contains(s[k].name@))
        } by {
            if k < p.len() {
                assert(s[k] == p[k]);
            }
        }
        assert forall|j: int|
            #![trigger tables[j]]
            0 <= j < tables.len() && (options.tables matches Some(l) ==> texts_of(l@).contains(
                tables[j].name@,
            )) && (options.exclude matches Some(e) ==> !texts_of(e@).contains(tables[j].name@))
            implies s.contains(tables[j]) by {
            if j < init.len() {
                assert(tables[j] == init[j]);
                assert(init[j].name@ == tables[j].name@);
                assert(p.contains(init[j]));
                let k = choose|k: int| 0 <= k < p.len() && p[k] == init[j];
                assert(s[k] == p[k]);
            } else {
                assert(s[s.len() - 1] == tables[j]);
            }
        }
    }
}

/// The names of the tables to convert, in order.
pub fn select_tables(names: &Vec<String>, options: &ConvertOptions) -> (r: Vec<String>)
    ensures
        r@ == selected_names(names@, *options),
{
    let mut r: Vec<String> = Vec::new();
    let mut i: usize = 0;
    while i < names.len()
        invariant
            i <= names@.len(),
            r@ == selected_names(names@.take(i as int), *options),
        decreases names.len() - i,
    {
        assert(names@.take(i + 1).drop_last() =~= names@.take(i as int));
        if is_table_selected(names[i].as_str(), options) {
            r.push(names[i].clone());
        }
        i += 1;
    }
    assert(names@.take(names@.len() as int) =~= names@);
    r
}

/// The first requested table that the database does not have, if any.
pub fn missing_table(available: &Vec<String>, requested: &Option<Vec<String>>) -> (r: Option<String>)
    ensures
        requested is None ==> r is None,
        requested matches Some(l) ==> (r is None <==> forall|i: int|
            0 <= i < l@.len() ==> texts_of(available@).contains(#[trigger] texts_of(l@)[i])),
        requested matches Some(l) ==> (r matches Some(n) ==> exists|i: int|
            0 <= i < l@.len() && n@ == #[trigger] texts_of(l@)[i] && !texts_of(available@).contains(
                texts_of(l@)[i],
            ) && forall|j: int| 0 <= j < i ==> texts_of(available@).contains(#[trigger] texts_of(l@)[j])),
{
    match requested {
        None => None,
        Some(list) => {
            let mut i: usize = 0;
            while i < list.len()
                invariant
                    i <= list@.len(),
                    *requested == Some(*list),
                    forall|j: int| 0 <= j < i ==> texts_of(available@).contains(#[trigger] texts_of(list@)[j]),
                decreases list.len() - i,
            {
                if !is_listed(available, list[i].as_str()) {
                    let name = list[i].clone();
                    assert(name@ == list@[i as int]@);
                    assert(texts_of(list@)[i as int] == list@[i as int]@);
                    assert(!texts_of(available@).contains(texts_of(list@)[i as int]));
                    assert(requested->0@ == list@);
                    assert(!(forall|k: int|
                        0 <= k < list@.len() ==> texts_of(available@).contains(
                            #[trigger] texts_of(list@)[k],
                        )));
                    return Some(name);
                }
                assert(texts_of(list@)[i as int] == list@[i as int]@);
                i += 1;
            }
            None
        },
    }
}

pub open spec fn names_of(tables: Seq<TableData>) -> Seq<Seq<char>> {
    tables.map_values(|t: TableData| t.name@)
}

pub open spec fn rows_total(tables: Seq<TableData>) -> nat
    decreases tables.len(),
{
    if tables.len() == 0 {
        0
    } else {
        rows_total(tables.drop_last()) + tables.last().rows@.len()
    }
}

/// The rows counted over no table are none, and one table more adds its rows.
pub proof fn rows_total_law(tables: Seq<TableData>, table: TableData)
    ensures
        rows_total(Seq::<TableData>::empty()) == 0,
        rows_total(tables.push(table)) == rows_total(tables) + table.rows@.len(),
{
    assert(tables.push(table).drop_last() =~= tables);
}

pub open spec fn tables_fit(tables: Seq<TableData>, handling: BlobHandling) -> bool {
    forall|i: int| 0 <= i < tables.len() ==> table_fits(
        #[trigger] tables[i].columns@,
        tables[i].rows@,
        handling,
    )
}

/// The cells a table's sheet holds once written on a new sheet.
pub open spec fn sheet_cells_for(table: TableData, options: ConvertOptions) -> CellMaps {
    apply_writes(
        (Map::empty(), Map::empty()),
        table_writes(table.columns@, table.rows@, options.write_headers, options.blob_handling),
    )
}

/// The sheet names for the tables to convert, as `unique_sheet_names` chooses
/// them; `None` when it cannot.
pub open spec fn sheet_names_for(chosen: Seq<TableData>) -> Option<Seq<Seq<char>>> {
    chosen_names(names_of(chosen), naming_limit(chosen.len()))
}

/// The error of the first cell of a table that the sheet refuses, if any.
pub open spec fn table_error(table: TableData, options: ConvertOptions) -> Option<ConvertError> {
    first_error(table_writes(table.columns@, table.rows@, options.write_headers, options.blob_handling))
}

pub open spec fn table_ok(table: TableData, options: ConvertOptions) -> bool {
    writes_ok(table_writes(table.columns@, table.rows@, options.write_headers, options.blob_handling))
}

/// The sheets a workbook is saved with: the converted ones, or, when no table
/// was converted, a single empty sheet named by `generate_sheet_name`, since a
/// workbook needs at least one sheet.
pub fn workbook_sheets(sheets: Vec<Worksheet>) -> (r: Result<Vec<Worksheet>, ConvertError>)
    ensures
        r is Ok,
        r matches Ok(v) ==> (sheets@.len() > 0 ==> v@ == sheets@),
        r matches Ok(v) ==> (sheets@.len() == 0 ==> v@.len() == 1 && sheet_name_of(v@[0])
            == "Sheet1"@ && cells_of(v@[0]) == (
            Map::<(u32, u16), Seq<char>>::empty(),
            Map::<(u32, u16), int>::empty(),
        )),
{
    if sheets.len() > 0 {
        return Ok(sheets);
    }
    let name = match generate_sheet_name() {
        Ok(name) => name,
        Err(e) => {
            return Err(e);
        },
    };
    let mut sheet = new_worksheet();
    proof {
        reveal_strlit("Sheet1");
        assert(is_ascii_chars(name@));
        lemma_utf16_len_ascii(name@);
        assert(name@[0] == 'S');
        assert(name@[5] == '1');
        assert(accepted_sheet_name(name@));
    }
    let named = set_sheet_name(&mut sheet, name.as_str());
    if named.is_err() {
        return Err(ConvertError::SheetName);
    }
    assert(cells_of(sheet) == (
        Map::<(u32, u16), Seq<char>>::empty(),
        Map::<(u32, u16), int>::empty(),
    ));
    let mut v: Vec<Worksheet> = Vec::new();
    v.push(sheet);
    Ok(v)
}

/// A table's sheet is laid out as `options.write_headers` asks: the header row
/// at row 0 and the data from row 1 with headers, the data from row 0 without.
pub proof fn table_layout_law(table: TableData, options: ConvertOptions)
    requires
        table_fits(table.columns@, table.rows@, options.blob_handling),
    ensures
        options.write_headers ==> forall|j: int|
            #![trigger table.columns@[j]]
            0 <= j < table.columns@.len() && 0 < table.columns@[j]@.len() <= MAX_STRING_LENGTH
                ==> sheet_cells_for(table, options).0.contains_key((0u32, j as u16))
                && sheet_cells_for(table, options).0[(0u32, j as u16)] == table.columns@[j]@,
        options.write_headers ==> forall|i: int, j: int|
            0 <= i < table.rows@.len() && 0 <= j < table.rows@[i]@.len() ==> #[trigger] cell_holds(
                sheet_cells_for(table, options),
                ((1 + i) as u32, j as u16),
                value_content(table.rows@[i]@[j], options.blob_handling),
            ),
        !options.write_headers ==> forall|i: int, j: int|
            0 <= i < table.rows@.len() && 0 <= j < table.rows@[i]@.len() ==> #[trigger] cell_holds(
                sheet_cells_for(table, options),
                (i as u32, j as u16),
                value_content(table.rows@[i]@[j], options.blob_handling),
            ),
{
    table_cells_law(table.columns@, table.rows@, options.write_headers, options.blob_handling);
    let m = sheet_cells_for(table, options);
    if options.write_headers {
        assert forall|j: int|
            #![trigger table.columns@[j]]
            0 <= j < table.columns@.len() && 0 < table.columns@[j]@.len() <= MAX_STRING_LENGTH
            implies m.0.contains_key((0u32, j as u16)) && m.0[(0u32, j as u16)]
            == table.columns@[j]@ by {
            let c = table.columns@[j]@;
            assert(cell_holds(m, (0u32, j as u16), string_content(c)));
            assert(truncated(c, MAX_STRING_LENGTH as nat) == c);
            assert(m.0[(0u32, j as u16)] == c);
        }
    }
}

/// Sheets holding what their tables' writes give are laid out as
/// `options.write_headers` asks.
proof fn lemma_sheets_layout(sheets: Seq<Worksheet>, chosen: Seq<TableData>, options: ConvertOptions)
    requires
        sheets.len() == chosen.len(),
        forall|i: int| 0 <= i < chosen.len() ==> cells_of(#[trigger] sheets[i]) == sheet_cells_for(
            chosen[i],
            options,
        ) && table_fits(chosen[i].columns@, chosen[i].rows@, options.blob_handling),
    ensures
        options.write_headers ==> forall|i: int, j: int|
            #![trigger chosen[i].columns@[j]]
            0 <= i < chosen.len() && 0 <= j < chosen[i].columns@.len() && 0
                < chosen[i].columns@[j]@.len() <= MAX_STRING_LENGTH ==> sheet_text_cells(
                sheets[i],
            ).contains_key((0u32, j as u16)) && sheet_text_cells(sheets[i])[(0u32, j as u16)]
                == chosen[i].columns@[j]@,
        options.write_headers ==> forall|i: int, k: int, j: int|
            0 <= i < chosen.len() && 0 <= k < chosen[i].rows@.len() && 0 <= j
                < chosen[i].rows@[k]@.len() ==> #[trigger] cell_holds(
                cells_of(sheets[i]),
                ((1 + k) as u32, j as u16),
                value_content(chosen[i].rows@[k]@[j], options.blob_handling),
            ),
        !options.write_headers ==> forall|i: int, k: int, j: int|
            0 <= i < chosen.len() && 0 <= k < chosen[i].rows@.len() && 0 <= j
                < chosen[i].rows@[k]@.len() ==> #[trigger] cell_holds(
                cells_of(sheets[i]),
                (k as u32, j as u16),
                value_content(chosen[i].rows@[k]@[j], options.blob_handling),
            ),
{
    if options.write_headers {
        assert forall|i: int, j: int|
            #![trigger chosen[i].columns@[j]]
            0 <= i < chosen.len() && 0 <= j < chosen[i].columns@.len() && 0
                < chosen[i].columns@[j]@.len() <= MAX_STRING_LENGTH implies sheet_text_cells(
            sheets[i],
        ).contains_key((0u32, j as u16)) && sheet_text_cells(sheets[i])[(0u32, j as u16)]
            == chosen[i].columns@[j]@ by {
            assert(cells_of(sheets[i]) == sheet_cells_for(chosen[i], options));
            table_layout_law(chosen[i], options);
            assert(sheet_cells_for(chosen[i], options).0[(0u32, j as u16)] == chosen[i].columns@[j]@);
        }
        assert forall|i: int, k: int, j: int|
            0 <= i < chosen.len() && 0 <= k < chosen[i].rows@.len() && 0 <= j
                < chosen[i].rows@[k]@.len() implies #[trigger] cell_holds(
            cells_of(sheets[i]),
            ((1 + k) as u32, j as u16),
            value_content(chosen[i].rows@[k]@[j], options.blob_handling),
        ) by {
            assert(cells_of(sheets[i]) == sheet_cells_for(chosen[i], options));
            table_layout_law(chosen[i], options);
        }
    } else {
        assert forall|i: int, k: int, j: int|
            0 <= i < chosen.len() && 0 <= k < chosen[i].rows@.len() && 0 <= j
                < chosen[i].rows@[k]@.len() implies #[trigger] cell_holds(
            cells_of(sheets[i]),
            (k as u32, j as u16),
            value_content(chosen[i].rows@[k]@[j], options.blob_handling),
        ) by {
            assert(cells_of(sheets[i]) == sheet_cells_for(chosen[i], options));
            table_layout_law(chosen[i], options);
        }
    }
}

/// A table is written whole exactly when none of its cells is refused.
pub proof fn table_error_law(table: TableData, options: ConvertOptions)
    ensures
        table_ok(table, options) <==> table_error(table, options) is None,
{
    lemma_first_error_ok(
        table_writes(table.columns@, table.rows@, options.write_headers, options.blob_handling),
    );
}

proof fn lemma_selected_tables_prefix(tables: Seq<TableData>, options: ConvertOptions)
    ensures
        rows_total(selected_tables(tables, options)) <= rows_total(tables),
        forall|i: int| 0 <= i < selected_tables(tables, options).len() ==> exists|j: int|
            0 <= j < tables.len() && #[trigger] selected_tables(tables, options)[i] == tables[j],
        names_of(selected_tables(tables, options)).len() == selected_tables(tables, options).len(),
    decreases tables.len(),
{
    if tables.len() > 0 {
        lemma_selected_tables_prefix(tables.drop_last(), options);
        let s = selected_tables(tables, options);
        let p = selected_tables(tables.drop_last(), options);
        if table_selected(tables.last().name@, options) {
            assert(s.drop_last() =~= p);
            assert(s.last() == tables.last());
        }
        assert forall|i: int| 0 <= i < s.len() implies exists|j: int|
            0 <= j < tables.len() && #[trigger] s[i] == tables[j] by {
            if i < p.len() {
                assert(s[i] == p[i]);
                let j = choose|j: int| 0 <= j < tables.drop_last().len() && p[i] == tables.drop_last()[j];
                assert(tables[j] == tables.drop_last()[j]);
            } else {
                assert(s[i] == tables[tables.len() - 1]);
            }
        }
    }
}

/// Converts the tables to sheets, one per selected table, in order: each
/// sheet is named as `unique_sheet_names` chooses for the table names, holds
/// the header row (when asked for) and the table's rows as `write_table`
/// writes them, and the statistics count the sheets and the data rows.
///
/// A conversion stops at the first cell or sheet name that is refused.
pub fn convert(tables: &Vec<TableData>, options: &ConvertOptions) -> (r: Result<
    (Vec<Worksheet>, ConvertStats),
    ConvertError,
>)
    requires
        tables_fit(tables@, options.blob_handling),
        rows_total(tables@) <= usize::MAX,
    ensures
        r matches Ok((sheets, stats)) ==> ({
            let chosen = selected_tables(tables@, *options);
            &&& sheets@.len() == chosen.len()
            &&& stats.tables_exported == chosen.len()
            &&& stats.total_rows == rows_total(chosen)
            &&& names_chosen(names_of(chosen), sheets@.map_values(|s: Worksheet| sheet_name_of(s)))
            &&& forall|i: int| 0 <= i < sheets@.len() ==> valid_sheet_name(
                #[trigger] sheet_name_of(sheets@[i]),
            )
            &&& forall|i: int, j: int|
                0 <= i < j < sheets@.len() ==> lowercase(#[trigger] sheet_name_of(sheets@[i]))
                    != lowercase(#[trigger] sheet_name_of(sheets@[j]))
            &&& forall|i: int| 0 <= i < chosen.len() ==> {
                &&& #[trigger] table_ok(chosen[i], *options)
                &&& cells_of(sheets@[i]) == sheet_cells_for(chosen[i], *options)
            }
            &&& options.write_headers ==> forall|i: int, j: int|
                #![trigger chosen[i].columns@[j]]
                0 <= i < chosen.len() && 0 <= j < chosen[i].columns@.len() && 0
                    < chosen[i].columns@[j]@.len() <= MAX_STRING_LENGTH ==> sheet_text_cells(
                    sheets@[i],
                ).contains_key((0u32, j as u16)) && sheet_text_cells(sheets@[i])[(0u32, j as u16)]
                    == chosen[i].columns@[j]@
            &&& options.write_headers ==> forall|i: int, k: int, j: int|
                0 <= i < chosen.len() && 0 <= k < chosen[i].rows@.len() && 0 <= j
                    < chosen[i].rows@[k]@.len() ==> #[trigger] cell_holds(
                    cells_of(sheets@[i]),
                    ((1 + k) as u32, j as u16),
                    value_content(chosen[i].rows@[k]@[j], options.blob_handling),
                )
            &&& !options.write_headers ==> forall|i: int, k: int, j: int|
                0 <= i < chosen.len() && 0 <= k < chosen[i].rows@.len() && 0 <= j
                    < chosen[i].rows@[k]@.len() ==> #[trigger] cell_holds(
                    cells_of(sheets@[i]),
                    (k as u32, j as u16),
                    value_content(chosen[i].rows@[k]@[j], options.blob_handling),
                )
        }),
        r matches Ok((sheets, stats)) ==> sheet_names_for(selected_tables(tables@, *options))
            == Some(sheets@.map_values(|s: Worksheet| sheet_name_of(s))),
        sheet_names_for(selected_tables(tables@, *options)) is None ==> r == Err::<
            (Vec<Worksheet>, ConvertStats),
            ConvertError,
        >(ConvertError::SheetName),
        sheet_names_for(selected_tables(tables@, *options)) is Some && (forall|i: int|
            0 <= i < selected_tables(tables@, *options).len() ==> #[trigger] table_ok(
                selected_tables(tables@, *options)[i],
                *options,
            )) ==> r is Ok,
        r matches Err(e) ==> (sheet_names_for(selected_tables(tables@, *options)) is None && e
            == ConvertError::SheetName) || (sheet_names_for(selected_tables(tables@, *options)) is Some
            && exists|i: int|
            0 <= i < selected_tables(tables@, *options).len() && (forall|q: int|
                0 <= q < i ==> #[trigger] table_ok(selected_tables(tables@, *options)[q], *options))
                && #[trigger] table_error(selected_tables(tables@, *options)[i], *options) == Some(e)),
{
    let ghost chosen = selected_tables(tables@, *options);
    proof {
        lemma_selected_tables_prefix(tables@, *options);
    }
    let mut picked: Vec<usize> = Vec::new();
    let mut picked_names: Vec<String> = Vec::new();
    let mut i: usize = 0;
    while i < tables.len()
        invariant
            i <= tables@.len(),
            picked@.len() == picked_names@.len(),
            picked@.len() == selected_tables(tables@.take(i as int), *options).len(),
            forall|k: int| 0 <= k < picked@.len() ==> #[trigger] picked@[k] < i,
            forall|k: int| 0 <= k < picked@.len() ==> tables@[#[trigger] picked@[k] as int]
                == selected_tables(tables@.take(i as int), *options)[k],
            texts_of(picked_names@) == names_of(selected_tables(tables@.take(i as int), *options)),
        decreases tables.len() - i,
    {
        let ghost before = selected_tables(tables@.take(i as int), *options);
        assert(tables@.take(i + 1).drop_last() =~= tables@.take(i as int));
        assert(tables@.take(i + 1).last() == tables@[i as int]);
        let ghost old_names = texts_of(picked_names@);
        if is_table_selected(tables[i].name.as_str(), options) {
            picked.push(i);
            picked_names.push(tables[i].name.clone());
            assert(selected_tables(tables@.take(i + 1), *options) == before.push(tables@[i as int]));
            assert(texts_of(picked_names@) =~= old_names.push(tables@[i as int].name@));
            assert(names_of(before.push(tables@[i as int])) =~= names_of(before).push(
                tables@[i as int].name@,
            ));
        } else {
            assert(selected_tables(tables@.take(i + 1), *options) == before);
        }
        i += 1;
    }
    assert(tables@.take(tables@.len() as int) =~= tables@);
    let names = match unique_sheet_names(&picked_names) {
        Ok(names) => names,
        Err(e) => {
            return Err(e);
        },
    };
    proof {
        sheet_names_law(names_of(chosen), texts_of(names@));
    }
    let mut sheets: Vec<Worksheet> = Vec::new();
    let mut total: usize = 0;
    let mut k: usize = 0;
    while k < picked.len()
        invariant
            k <= picked@.len(),
            forall|q: int| 0 <= q < names@.len() ==> valid_sheet_name(#[trigger] texts_of(names@)[q]),
            sheet_names_for(chosen) == Some(texts_of(names@)),
            picked@.len() == chosen.len(),
            names@.len() == chosen.len(),
            chosen == selected_tables(tables@, *options),
            forall|q: int| 0 <= q < picked@.len() ==> #[trigger] picked@[q] < tables@.len(),
            forall|q: int| 0 <= q < picked@.len() ==> tables@[#[trigger] picked@[q] as int] == chosen[q],
            tables_fit(tables@, options.blob_handling),
            rows_total(chosen) <= usize::MAX,
            sheets@.len() == k,
            total == rows_total(chosen.take(k as int)),
            forall|q: int| 0 <= q < k ==> sheet_name_of(#[trigger] sheets@[q]) == names@[q]@,
            forall|q: int| 0 <= q < k ==> {
                &&& #[trigger] table_ok(chosen[q], *options)
                &&& cells_of(sheets@[q]) == sheet_cells_for(chosen[q], *options)
            },
        decreases picked.len() - k,
    {
        let t = &tables[picked[k]];
        assert(*t == chosen[k as int]);
        let mut sheet = new_worksheet();
        assert(cells_of(sheet) == (Map::<(u32, u16), Seq<char>>::empty(), Map::<(u32, u16), int>::empty()));
        assert(table_fits(t.columns@, t.rows@, options.blob_handling));
        let written = write_table(&mut sheet, &t.columns, &t.rows, options.write_headers, options.blob_handling);
        match written {
            Ok(n) => {
                proof {
                    lemma_rows_total_step(chosen, k as int);
                }
                total = total + n;
            },
            Err(e) => {
                assert(!table_ok(chosen[k as int], *options));
                assert(table_error(chosen[k as int], *options) == Some(e));
                return Err(e);
            },
        }
        assert(accepted_sheet_name(names@[k as int]@)) by {
            assert(texts_of(names@)[k as int] == names@[k as int]@);
        }
        let named = set_sheet_name(&mut sheet, names[k].as_str());
        if named.is_err() {
            return Err(ConvertError::SheetName);
        }
        sheets.push(sheet);
        k += 1;
    }
    assert(chosen.take(chosen.len() as int) =~= chosen);
    proof {
        let shown = sheets@.map_values(|s: Worksheet| sheet_name_of(s));
        assert(shown =~= texts_of(names@));
        sheet_names_law(names_of(chosen), shown);
        assert forall|i: int| 0 <= i < sheets@.len() implies valid_sheet_name(
            #[trigger] sheet_name_of(sheets@[i]),
        ) by {
            assert(shown[i] == sheet_name_of(sheets@[i]));
        }
        assert forall|i: int, j: int| 0 <= i < j < sheets@.len() implies lowercase(
            #[trigger] sheet_name_of(sheets@[i]),
        ) != lowercase(#[trigger] sheet_name_of(sheets@[j])) by {
            assert(shown[i] == sheet_name_of(sheets@[i]));
            assert(shown[j] == sheet_name_of(sheets@[j]));
        }
    }
    proof {
        assert forall|i: int| 0 <= i < chosen.len() implies cells_of(#[trigger] sheets@[i])
            == sheet_cells_for(chosen[i], *options) && table_fits(
            chosen[i].columns@,
            chosen[i].rows@,
            options.blob_handling,
        ) by {
            let j = choose|j: int| 0 <= j < tables@.len() && chosen[i] == tables@[j];
            assert(table_fits(tables@[j].columns@, tables@[j].rows@, options.blob_handling));
            assert(table_ok(chosen[i], *options));
        }
        lemma_sheets_layout(sheets@, chosen, *options);
    }
    Ok((sheets, ConvertStats { tables_exported: picked.len(), total_rows: total }))
}

proof fn lemma_rows_total_step(tables: Seq<TableData>, k: int)
    requires
        0 <= k < tables.len(),
    ensures
        rows_total(tables.take(k + 1)) == rows_total(tables.take(k)) + tables[k].rows@.len(),
        rows_total(tables.take(k + 1)) <= rows_total(tables),
    decreases tables.len() - k,
{
    assert(tables.take(k + 1).drop_last() =~= tables.take(k));
    if k + 1 < tables.len() {
        lemma_rows_total_step(tables, k + 1);
    } else {
        assert(tables.take(k + 1) =~= tables);
    }
}

} // verus!
