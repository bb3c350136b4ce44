//! What the command line's text means: the BLOB mode a user names, and the
//! messages shown for an error.

use vstd::prelude::*;
use vstd::string::*;

use crate::convert::BlobHandling;
use crate::text::push_char;

verus! {

// ---------------------------------------------------------------------------
// Comparing and searching text
// ---------------------------------------------------------------------------

/// The characters of `s`, in order.
pub(crate) fn chars_of(s: &str) -> (v: Vec<char>)
    ensures
        v@ == s@,
{
    let n: usize = s.unicode_len();
    let mut v: Vec<char> = Vec::new();
    let mut i: usize = 0;
    while i < n
        invariant
            i <= n,
            n == s@.len(),
            v@ == s@.take(i as int),
        decreases n - i,
    {
        v.push(s.get_char(i));
        assert(s@.take(i + 1) =~= s@.take(i as int).push(s@[i as int]));
        i += 1;
    }
    assert(s@.take(n as int) =~= s@);
    v
}

/// Whether two texts are the same.
pub fn str_eq(a: &str, b: &str) -> (r: bool)
    ensures
        r == (a@ == b@),
{
    let x = chars_of(a);
    let y = chars_of(b);
    if x.len() != y.len() {
        return false;
    }
    let mut i: usize = 0;
    while i < x.len()
        invariant
            i <= x@.len(),
            x@.len() == y@.len(),
            x@ == a@,
            y@ == b@,
            forall|k: int| 0 <= k < i ==> x@[k] == y@[k],
        decreases x.len() - i,
    {
        if x[i] != y[i] {
            return false;
        }
        i += 1;
    }
    assert(x@ =~= y@);
    true
}

/// Whether `needle` occurs in `hay`.
pub open spec fn contains_text(hay: Seq<char>, needle: Seq<char>) -> bool {
    exists|i: int|
        0 <= i && i + needle.len() <= hay.len() && #[trigger] hay.subrange(i, i + needle.len())
            == needle
}

/// Whether `needle` occurs in `hay` (`str::contains`).
pub fn str_contains(hay: &str, needle: &str) -> (r: bool)
    ensures
        r == contains_text(hay@, needle@),
{
    let h = chars_of(hay);
    let n = chars_of(needle);
    if n.len() > h.len() {
        return false;
    }
    let last: usize = h.len() - n.len();
    assert(h@.len() == h.len());
    let mut i: usize = 0;
    loop
        invariant
            h@ == hay@,
            n@ == needle@,
            last == h@.len() - n@.len(),
            h@.len() <= usize::MAX,
            i <= last,
            forall|k: int| 0 <= k < i ==> #[trigger] h@.subrange(k, k + n@.len()) != n@,
        decreases last - i,
    {
        let mut j: usize = 0;
        let mut same = true;
        while j < n.len()
            invariant
                h@ == hay@,
                n@ == needle@,
                i <= last,
                last == h@.len() - n@.len(),
                h@.len() <= usize::MAX,
                j <= n@.len(),
                same == (forall|k: int| 0 <= k < j ==> h@[i + k] == n@[k]),
            decreases n.len() - j,
        {
            if h[i + j] != n[j] {
                same = false;
            }
            j += 1;
        }
        if same {
            assert(h@.subrange(i as int, i + n@.len()) =~= n@);
            return true;
        }
        assert(h@.subrange(i as int, i + n@.len()) != n@) by {
            let k = choose|k: int| 0 <= k < n@.len() && h@[i + k] != n@[k];
            assert(h@.subrange(i as int, i + n@.len())[k] == h@[i + k]);
        }
        if i == last {
            return false;
        }
        i += 1;
    }
}

// ---------------------------------------------------------------------------
// The BLOB mode a user names
// ---------------------------------------------------------------------------

/// Unicode lower case of a text.
pub uninterp spec fn lowercase(s: Seq<char>) -> Seq<char>;

/// Whether every character of a text is ASCII.
pub open spec fn is_ascii_text(s: Seq<char>) -> bool {
    forall|i: int| 0 <= i < s.len() ==> (#[trigger] s[i] as u32) < 128
}

/// The lower case of one ASCII character: `A`..`Z` become `a`..`z`, every
/// other character stays.
pub open spec fn ascii_lower_char(c: char) -> char {
    if 'A' <= c && c <= 'Z' {
        ((c as u32) + 32) as char
    } else {
        c
    }
}

/// The lower case of an ASCII text, character by character.
pub open spec fn ascii_lowercase(s: Seq<char>) -> Seq<char> {
    s.map_values(|c: char| ascii_lower_char(c))
}

/// `str::to_lowercase`.
///
/// Claims that the result is the Unicode lower case of the argument, a
/// function of its characters alone, and that on ASCII text this is the plain
/// letter mapping `A`..`Z` to `a`..`z` (Unicode's lower case of the ASCII
/// range). What the lower case of other characters is is left unsaid.
#[verifier::external_body]
pub(crate) fn to_lowercase(s: &str) -> (r: String)
    ensures
        r@ == lowercase(s@),
        is_ascii_text(s@) ==> r@ == ascii_lowercase(s@),
{
    s.to_lowercase()
}

/// The mode named by an already lower-cased word, if any.
pub open spec fn blob_mode_named(lower: Seq<char>) -> Option<BlobHandling> {
    if lower == "placeholder"@ {
        Some(BlobHandling::Placeholder)
    } else if lower == "hex"@ {
        Some(BlobHandling::Hex)
    } else if lower == "base64"@ {
        Some(BlobHandling::Base64)
    } else if lower == "skip"@ {
        Some(BlobHandling::Skip)
    } else {
        None
    }
}

/// The message for a word that names no mode.
pub open spec fn invalid_blob_mode_message(given: Seq<char>) -> Seq<char> {
    "Invalid blob mode: "@ + given + ". Valid options are: placeholder, hex, base64, skip"@
}

/// The result of interpreting `given`, whose lower case is `lower`.
pub open spec fn blob_mode_result(lower: Seq<char>, given: Seq<char>, r: Result<BlobHandling, String>) -> bool {
    match blob_mode_named(lower) {
        Some(h) => r matches Ok(x) && x == h,
        None => r matches Err(m) && m@ == invalid_blob_mode_message(given),
    }
}

/// Interprets the lower case `lower` of the user's word `given`.
pub fn blob_handling_from_lowercase(lower: &str, given: &str) -> (r: Result<BlobHandling, String>)
    ensures
        blob_mode_result(lower@, given@, r),
{
    if str_eq(lower, "placeholder") {
        Ok(BlobHandling::Placeholder)
    } else if str_eq(lower, "hex") {
        Ok(BlobHandling::Hex)
    } else if str_eq(lower, "base64") {
        Ok(BlobHandling::Base64)
    } else if str_eq(lower, "skip") {
        Ok(BlobHandling::Skip)
    } else {
        let mut message = String::from_str("Invalid blob mode: ");
        message.append(given);
        message.append(". Valid options are: placeholder, hex, base64, skip");
        Err(message)
    }
}

/// Parses a string into a BlobHandling value, ignoring case.
pub fn parse_blob_handling(s: &str) -> (r: Result<BlobHandling, String>)
    ensures
        blob_mode_result(lowercase(s@), s@, r),
        is_ascii_text(s@) ==> blob_mode_result(ascii_lowercase(s@), s@, r),
{
    let lower = to_lowercase(s);
    blob_handling_from_lowercase(lower.as_str(), s)
}

/// Each mode's lower-case name selects that mode, and no other.
pub proof fn blob_mode_names_law()
    ensures
        blob_mode_named("placeholder"@) == Some(BlobHandling::Placeholder),
        blob_mode_named("hex"@) == Some(BlobHandling::Hex),
        blob_mode_named("base64"@) == Some(BlobHandling::Base64),
        blob_mode_named("skip"@) == Some(BlobHandling::Skip),
{
    reveal_strlit("placeholder");
    reveal_strlit("hex");
    reveal_strlit("base64");
    reveal_strlit("skip");
    assert("placeholder"@[0] == 'p');
    assert("hex"@[0] == 'h');
    assert("base64"@[0] == 'b');
    assert("skip"@[0] == 's');
}

// ---------------------------------------------------------------------------
// Error messages
// ---------------------------------------------------------------------------

/// The items joined with `sep` between them.
pub open spec fn joined(items: Seq<Seq<char>>, sep: Seq<char>) -> Seq<char>
    decreases items.len(),
{
    if items.len() == 0 {
        seq![]
    } else if items.len() == 1 {
        items[0]
    } else {
        joined(items.drop_last(), sep) + sep + items.last()
    }
}

pub open spec fn texts_of(items: Seq<String>) -> Seq<Seq<char>> {
    items.map_values(|s: String| s@)
}

/// Joins the strings with `sep` between them (`[String]::join`).
pub fn join_strings(items: &Vec<String>, sep: &str) -> (r: String)
    ensures
        r@ == joined(texts_of(items@), sep@),
{
    let mut r = String::new();
    let mut i: usize = 0;
    while i < items.len()
        invariant
            i <= items.len(),
            r@ == joined(texts_of(items@).take(i as int), sep@),
        decreases items.len() - i,
    {
        assert(texts_of(items@).take(i + 1).drop_last() =~= texts_of(items@).take(i as int));
        if i != 0 {
            r.append(sep);
        } else {
            assert(r@ =~= Seq::<char>::empty());
        }
        r.append(items[i].as_str());
        i += 1;
    }
    assert(texts_of(items@).take(items.len() as int) =~= texts_of(items@));
    r
}

/// The table names asked for, as texts.
pub open spec fn requested_texts(tables: Option<Vec<String>>) -> Option<Seq<Seq<char>>> {
    match tables {
        Some(v) => Some(texts_of(v@)),
        None => None,
    }
}

/// Whether the error says that a table is missing.
pub open spec fn names_missing_table(msg: Seq<char>) -> bool {
    contains_text(msg, "no such table"@) || contains_text(msg, "does not exist"@)
}

/// The lines shown for an error: a friendlier explanation for a few known
/// errors, followed by the error itself; a missing table that the user asked
/// for is explained alone.
pub open spec fn error_lines(
    msg: Seq<char>,
    input: Seq<char>,
    tables: Option<Seq<Seq<char>>>,
) -> Seq<Seq<char>> {
    let plain = "Error: "@ + msg;
    if contains_text(msg, "Cannot open database"@) {
        seq![
            "Error: Cannot open database: "@ + input
                + "\n\nFile may not be a valid SQLite database or is locked."@,
            plain,
        ]
    } else if contains_text(msg, "Cannot write to output file"@) {
        seq!["Error: "@ + msg + "\n\nCheck directory permissions or try a different location."@, plain]
    } else if contains_text(msg, "No tables found"@) {
        seq![
            "Error: No tables found in database\n\nThe database may be empty or contain only views."@,
            plain,
        ]
    } else if tables is Some && names_missing_table(msg) {
        seq![
            "Error: Table not found: "@ + joined(tables->0, ", "@)
                + "\n\nAvailable tables: [check database contents]"@,
        ]
    } else {
        seq![plain]
    }
}

/// The lines to show on standard error for an error whose text is
/// `error_msg`, for the database at `input_display`, when the user asked for
/// `requested_tables`.
pub fn error_messages(
    error_msg: &str,
    input_display: &str,
    requested_tables: &Option<Vec<String>>,
) -> (lines: Vec<String>)
    ensures
        texts_of(lines@) == error_lines(error_msg@, input_display@, requested_texts(*requested_tables)),
{
    let mut lines: Vec<String> = Vec::new();
    if str_contains(error_msg, "Cannot open database") {
        let mut line = String::from_str("Error: Cannot open database: ");
        line.append(input_display);
        line.append("\n\nFile may not be a valid SQLite database or is locked.");
        lines.push(line);
    } else if str_contains(error_msg, "Cannot write to output file") {
        let mut line = String::from_str("Error: ");
        line.append(error_msg);
        line.append("\n\nCheck directory permissions or try a different location.");
        lines.push(line);
    } else if str_contains(error_msg, "No tables found") {
        lines.push(
            String::from_str(
                "Error: No tables found in database\n\nThe database may be empty or contain only views.",
            ),
        );
    } else if let Some(tables) = requested_tables {
        if str_contains(error_msg, "no such table") || str_contains(error_msg, "does not exist") {
            let mut line = String::from_str("Error: Table not found: ");
            let names = join_strings(tables, ", ");
            line.append(names.as_str());
            line.append("\n\nAvailable tables: [check database contents]");
            lines.push(line);
            assert(texts_of(lines@) =~= error_lines(
                error_msg@,
                input_display@,
                requested_texts(*requested_tables),
            ));
            return lines;
        }
    }
    let mut plain = String::from_str("Error: ");
    plain.append(error_msg);
    lines.push(plain);
    assert(texts_of(lines@) =~= error_lines(
        error_msg@,
        input_display@,
        requested_texts(*requested_tables),
    ));
    lines
}

/// Every error is shown with its own text as the last line, unless it is a
/// missing table the user asked for, which gets one explanatory line alone.
pub proof fn error_lines_law(msg: Seq<char>, input: Seq<char>, tables: Option<Seq<Seq<char>>>)
    ensures
        error_lines(msg, input, tables).len() >= 1,
        error_lines(msg, input, tables).len() <= 2,
        !(tables is Some && names_missing_table(msg)) ==> error_lines(msg, input, tables).last()
            == "Error: "@ + msg,
        tables is None ==> error_lines(msg, input, tables).last() == "Error: "@ + msg,
{
}

} // verus!
