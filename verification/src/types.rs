//! Schema information about the tables of a SQLite database, and the SQL text
//! that asks SQLite for it.

use vstd::prelude::*;
use vstd::string::*;

use crate::text::push_char;

verus! {

/// Information about a table in the SQLite database.
pub struct TableInfo {
    pub name: String,
    pub columns: Vec<ColumnInfo>,
}

/// Information about a column in a SQLite table.
pub struct ColumnInfo {
    pub name: String,
    pub sqlite_type: String,
    pub is_primary_key: bool,
}

/// One row of `PRAGMA table_info`: the column's name, its declared type, and
/// its position in the primary key (0 when it is not part of it).
pub struct PragmaRow {
    pub name: String,
    pub sqlite_type: String,
    pub pk: i32,
}

/// Lists the user tables (not SQLite's own `sqlite_*` tables) in name order.
pub const TABLE_LIST_SQL: &'static str =
    "SELECT name FROM sqlite_master
         WHERE type = 'table'
         AND name NOT LIKE 'sqlite\\_%' ESCAPE '\\'
         ORDER BY name";

/// The items that are present, in order.
pub open spec fn present<T>(s: Seq<Option<T>>) -> Seq<T>
    decreases s.len(),
{
    if s.len() == 0 {
        seq![]
    } else {
        match s.last() {
            Some(x) => present(s.drop_last()).push(x),
            None => present(s.drop_last()),
        }
    }
}

/// The column described by one `PRAGMA table_info` row.
pub open spec fn column_of(row: PragmaRow) -> ColumnInfo {
    ColumnInfo { name: row.name, sqlite_type: row.sqlite_type, is_primary_key: row.pk > 0 }
}

/// Builds the column description of one `PRAGMA table_info` row: a column is
/// part of the primary key when its key position is positive.
pub fn column_from_pragma_row(row: &PragmaRow) -> (c: ColumnInfo)
    ensures
        c == column_of(*row),
{
    ColumnInfo {
        name: row.name.clone(),
        sqlite_type: row.sqlite_type.clone(),
        is_primary_key: row.pk > 0,
    }
}

/// The columns of a table from the rows SQLite returned, in order, leaving out
/// the rows that could not be read.
pub fn collect_columns(rows: &Vec<Option<PragmaRow>>) -> (columns: Vec<ColumnInfo>)
    ensures
        columns@ == columns_of(rows@),
{
    let mut columns: Vec<ColumnInfo> = Vec::new();
    let mut i: usize = 0;
    while i < rows.len()
        invariant
            i <= rows.len(),
            columns@ == present(rows@.take(i as int)).map_values(|row: PragmaRow| column_of(row)),
        decreases rows.len() - i,
    {
        assert(rows@.take(i + 1).drop_last() =~= rows@.take(i as int));
        match &rows[i] {
            Some(row) => {
                columns.push(column_from_pragma_row(row));
            },
            None => {},
        }
        proof {
            let f = |row: PragmaRow| column_of(row);
            let p = present(rows@.take(i as int));
            assert(present(rows@.take(i + 1)).map_values(f) =~= columns@) by {
                match rows@[i as int] {
                    Some(x) => {
                        assert(present(rows@.take(i + 1)) == p.push(x));
                        assert(p.push(x).map_values(f) =~= p.map_values(f).push(f(x)));
                    },
                    None => {
                        assert(present(rows@.take(i + 1)) == p);
                    },
                }
            }
        }
        i += 1;
    }
    assert(rows@.take(rows.len() as int) =~= rows@);
    columns
}

/// When every row could be read, nothing is left out: the items come out one
/// for one, in the same order.
pub proof fn all_present_law<T>(s: Seq<Option<T>>)
    requires
        forall|i: int| 0 <= i < s.len() ==> (#[trigger] s[i]) is Some,
    ensures
        present(s).len() == s.len(),
        forall|i: int| 0 <= i < s.len() ==> Some(#[trigger] present(s)[i]) == s[i],
    decreases s.len(),
{
    if s.len() > 0 {
        let t = s.drop_last();
        assert forall|i: int| 0 <= i < t.len() implies (#[trigger] t[i]) is Some by {
            assert(t[i] == s[i]);
        }
        all_present_law(t);
        assert(s.last() == s[s.len() - 1]);
        assert forall|i: int| 0 <= i < s.len() implies Some(#[trigger] present(s)[i]) == s[i] by {
            if i < s.len() - 1 {
                assert(t[i] == s[i]);
            }
        }
    }
}

/// The columns described by the rows that could be read, in order.
pub open spec fn columns_of(rows: Seq<Option<PragmaRow>>) -> Seq<ColumnInfo> {
    present(rows).map_values(|row: PragmaRow| column_of(row))
}

/// When every `PRAGMA table_info` row could be read, the table has one column
/// per row, in order, each described by its row.
pub proof fn readable_columns_law(rows: Seq<Option<PragmaRow>>)
    requires
        forall|i: int| 0 <= i < rows.len() ==> (#[trigger] rows[i]) is Some,
    ensures
        columns_of(rows).len() == rows.len(),
        forall|i: int| 0 <= i < rows.len() ==> #[trigger] columns_of(rows)[i] == column_of(rows[i]->0),
{
    all_present_law(rows);
    assert forall|i: int| 0 <= i < rows.len() implies #[trigger] columns_of(rows)[i] == column_of(
        rows[i]->0,
    ) by {
        assert(Some(present(rows)[i]) == rows[i]);
    }
}

/// The names of the tables that could be read, in order.
pub fn collect_table_names(names: &Vec<Option<String>>) -> (tables: Vec<String>)
    ensures
        tables@ == present(names@),
{
    let mut tables: Vec<String> = Vec::new();
    let mut i: usize = 0;
    while i < names.len()
        invariant
            i <= names.len(),
            tables@ == present(names@.take(i as int)),
        decreases names.len() - i,
    {
        assert(names@.take(i + 1).drop_last() =~= names@.take(i as int));
        match &names[i] {
            Some(name) => {
                tables.push(name.clone());
            },
            None => {},
        }
        i += 1;
    }
    assert(names@.take(names.len() as int) =~= names@);
    tables
}

// ---------------------------------------------------------------------------
// Quoting a name inside SQL quotes
// ---------------------------------------------------------------------------

/// Every `q` doubled, as a SQL string literal (`'`) or quoted identifier (`"`) needs.
pub open spec fn quote_escaped(s: Seq<char>, q: char) -> Seq<char>
    decreases s.len(),
{
    if s.len() == 0 {
        seq![]
    } else if s[0] == q {
        seq![q, q] + quote_escaped(s.drop_first(), q)
    } else {
        seq![s[0]] + quote_escaped(s.drop_first(), q)
    }
}

/// How SQL reads the body of a quoted text: `qq` stands for one `q`.
pub open spec fn quote_unescaped(t: Seq<char>, q: char) -> Seq<char>
    decreases t.len(),
{
    if t.len() == 0 {
        seq![]
    } else if t.len() >= 2 && t[0] == q && t[1] == q {
        seq![q] + quote_unescaped(t.skip(2), q)
    } else {
        seq![t[0]] + quote_unescaped(t.skip(1), q)
    }
}

/// Quoting distributes over concatenation.
pub proof fn lemma_quote_escaped_concat(a: Seq<char>, b: Seq<char>, q: char)
    ensures
        quote_escaped(a + b, q) == quote_escaped(a, q) + quote_escaped(b, q),
    decreases a.len(),
{
    if a.len() > 0 {
        lemma_quote_escaped_concat(a.drop_first(), b, q);
        assert((a + b).drop_first() =~= a.drop_first() + b);
        assert((a + b)[0] == a[0]);
        if a[0] == q {
            assert(quote_escaped(a + b, q) =~= quote_escaped(a, q) + quote_escaped(b, q));
        } else {
            assert(quote_escaped(a + b, q) =~= quote_escaped(a, q) + quote_escaped(b, q));
        }
    } else {
        assert(a + b =~= b);
        assert(quote_escaped(a, q) =~= Seq::<char>::empty());
    }
}

/// Doubles every `q` of `s` (`str::replace` of `q` by `qq`).
pub fn escape_quotes(s: &str, q: char) -> (r: String)
    ensures
        r@ == quote_escaped(s@, q),
{
    let n: usize = s.unicode_len();
    let mut r = String::new();
    let mut i: usize = 0;
    while i < n
        invariant
            i <= n,
            n == s@.len(),
            r@ == quote_escaped(s@.take(i as int), q),
        decreases n - i,
    {
        let c = s.get_char(i);
        proof {
            lemma_quote_escaped_concat(s@.take(i as int), seq![c], q);
            assert(s@.take(i + 1) =~= s@.take(i as int) + seq![c]);
            assert(seq![c].drop_first() =~= Seq::<char>::empty());
            assert(quote_escaped(Seq::<char>::empty(), q) =~= Seq::<char>::empty());
            if c == q {
                assert(quote_escaped(seq![c], q) =~= seq![q, q]);
            } else {
                assert(quote_escaped(seq![c], q) =~= seq![c]);
            }
        }
        push_char(&mut r, c);
        if c == q {
            push_char(&mut r, c);
        }
        i += 1;
    }
    assert(s@.take(n as int) =~= s@);
    r
}

/// The statement that lists the columns of `table_name`, with the name quoted
/// as a SQL string literal.
pub fn table_info_sql(table_name: &str) -> (sql: String)
    ensures
        sql@ == "PRAGMA table_info('"@ + quote_escaped(table_name@, '\'') + "')"@,
{
    let escaped = escape_quotes(table_name, '\'');
    let mut sql = String::from_str("PRAGMA table_info('");
    sql.append(escaped.as_str());
    sql.append("')");
    sql
}

/// The statement that reads every row of `table_name`, with the name quoted
/// as a SQL identifier.
pub fn select_all_sql(table_name: &str) -> (sql: String)
    ensures
        sql@ == "SELECT * FROM \""@ + quote_escaped(table_name@, '"') + "\""@,
{
    let escaped = escape_quotes(table_name, '"');
    let mut sql = String::from_str("SELECT * FROM \"");
    sql.append(escaped.as_str());
    sql.append("\"");
    sql
}

/// SQL reads the quoted name back as the name itself.
pub proof fn quote_round_trip_law(s: Seq<char>, q: char)
    ensures
        quote_unescaped(quote_escaped(s, q), q) == s,
    decreases s.len(),
{
    if s.len() > 0 {
        quote_round_trip_law(s.drop_first(), q);
        let e = quote_escaped(s, q);
        let rest = quote_escaped(s.drop_first(), q);
        if s[0] == q {
            assert(e.skip(2) =~= rest);
        } else {
            assert(e.skip(1) =~= rest);
            if e.len() >= 2 && e[0] == q {
                assert(false);
            }
        }
        assert(quote_unescaped(e, q) =~= s);
    }
}

} // verus!
