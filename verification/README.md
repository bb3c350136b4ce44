# sqlite_to_xlsx

The verified core of a command-line tool that turns a SQLite database into an
Excel workbook.

- `src/text.rs` — decimal rendering, lower-case hex dumps, UTF-16 lengths, and
  cutting text to Excel's limit of 32,767 characters with a `... [truncated]`
  marker.
- `src/encoding.rs` — standard padded base64, stated as a function on bytes,
  with its shape and its inverse.
- `src/convert.rs` — how each database value becomes a worksheet cell (numbers,
  text, BLOBs as placeholder / hex / base64 / nothing), how a table becomes a
  sheet (header row, rows below it), and the whole conversion: which tables are
  exported, one sheet per table with a unique valid name, and the counts
  reported. Everything is stated over the cells a `rust_xlsxwriter` worksheet
  holds.
- `src/sheet_name.rs` — turning table names into valid, distinct sheet names.
- `src/types.rs` — table and column descriptions and the SQL that asks for them.
- `src/cli.rs` — the BLOB mode named on the command line and the messages shown
  for errors.
- `app/main.rs` — argument parsing, the SQLite connection, floating-point cells,
  saving the workbook and printing.

Custom SQL queries as sheets (`--query` / `--sheet`) are not supported: every
sheet is a whole table.
