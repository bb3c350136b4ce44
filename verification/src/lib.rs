//! Verified core of a SQLite-to-XLSX converter: how database values become
//! worksheet cells, which tables become which sheets, how long text is cut to
//! Excel's limit, how BLOBs are rendered, how table schemas are collected, and
//! how command-line input and errors are interpreted.

pub mod text;
pub mod encoding;
pub mod convert;
pub mod sheet_name;
pub mod types;
pub mod cli;

pub use cli::parse_blob_handling;
pub use convert::{
    convert, BlobHandling, CellValue, ConvertError, ConvertOptions, ConvertStats, TableData,
};
pub use sheet_name::{generate_sheet_name, sanitize_sheet_name};
pub use types::{ColumnInfo, TableInfo};
