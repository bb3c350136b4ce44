//! Names of the sheets of the output workbook.
//!
//! A table's name becomes a sheet name that Excel accepts: the characters
//! `/ \ ? * : [ ]` become `_`, a name over 31 UTF-16 units is cut to 28, a
//! leading or trailing `'` becomes `_`, an empty name becomes `_`, and
//! `History` (reserved by Excel, in any case) becomes `History_`. A name
//! already taken, compared in lower case as the workbook does, gets the first
//! free suffix `_1`, `_2`, ... (the name is cut further to leave room).

use vstd::prelude::*;
use vstd::string::*;

use crate::cli::chars_of;
use crate::cli::lowercase;
use crate::cli::str_eq;
use crate::cli::texts_of;
use crate::cli::to_lowercase;
use crate::convert::ConvertError;
use crate::text::decimal_digits;
use crate::text::lemma_decimal_digits_are_digits;
use crate::text::lemma_utf16_len_concat;
use crate::text::lemma_decimal_digits_len_u64;
use crate::text::lemma_chars_le_utf16_len;
use crate::text::push_char;
use crate::text::u64_to_decimal;
use crate::text::utf16_len;
use crate::text::utf16_units;

verus! {

/// Generates sheet names for the XLSX file.
pub fn generate_sheet_name() -> (r: Result<String, ConvertError>)
    ensures
        r matches Ok(name) && name@ == "Sheet1"@,
{
    Ok(String::from_str("Sheet1"))
}

/// Longest sheet name, in UTF-16 units.
pub const SHEET_NAME_LIMIT: usize = 31;

/// Length to which an over-long name is cut.
pub const SHEET_NAME_CUT: usize = 28;

/// Characters Excel refuses in a sheet name.
pub open spec fn is_forbidden(c: char) -> bool {
    c == '/' || c == '\\' || c == '?' || c == '*' || c == ':' || c == '[' || c == ']'
}

pub open spec fn replace_forbidden(s: Seq<char>) -> Seq<char> {
    Seq::new(s.len(), |i: int| if is_forbidden(s[i]) { '_' } else { s[i] })
}

/// Number of leading characters of `s` that fit in `budget` UTF-16 units.
pub open spec fn fitting_len(s: Seq<char>, budget: nat) -> nat
    decreases s.len(),
{
    if s.len() == 0 || utf16_units(s[0]) > budget {
        0
    } else {
        1 + fitting_len(s.drop_first(), (budget - utf16_units(s[0])) as nat)
    }
}

/// The longest prefix of `s` that fits in `budget` UTF-16 units.
pub open spec fn utf16_prefix(s: Seq<char>, budget: nat) -> Seq<char> {
    s.take(fitting_len(s, budget) as int)
}

/// A leading and a trailing `'` replaced by `_`.
pub open spec fn fix_apostrophes(s: Seq<char>) -> Seq<char> {
    if s.len() == 0 {
        s
    } else {
        let s1 = if s[0] == '\'' {
            s.update(0, '_')
        } else {
            s
        };
        if s1[s1.len() - 1] == '\'' {
            s1.update(s1.len() - 1, '_')
        } else {
            s1
        }
    }
}

pub open spec fn ascii_lower(c: char) -> char {
    if 'A' <= c <= 'Z' {
        ((c as nat) + 32) as char
    } else {
        c
    }
}

pub open spec fn history() -> Seq<char> {
    seq!['h', 'i', 's', 't', 'o', 'r', 'y']
}

/// Whether `s` is `History` in any mix of ASCII case.
pub open spec fn is_history(s: Seq<char>) -> bool {
    s.len() == 7 && forall|i: int| 0 <= i < 7 ==> ascii_lower(#[trigger] s[i]) == history()[i]
}

/// The sheet name a table's name asks for, before it is made unique.
pub open spec fn base_sheet_name(table: Seq<char>) -> Seq<char> {
    let r = replace_forbidden(table);
    let c = if utf16_len(r) > SHEET_NAME_LIMIT {
        utf16_prefix(r, SHEET_NAME_CUT as nat)
    } else {
        r
    };
    let f = fix_apostrophes(c);
    let e = if f.len() == 0 {
        seq!['_']
    } else {
        f
    };
    if is_history(e) {
        e.push('_')
    } else {
        e
    }
}

/// The `k`-th candidate for a base name: the base itself, then the base cut to
/// leave room for `_k` and followed by it.
pub open spec fn candidate(base: Seq<char>, k: nat) -> Seq<char> {
    if k == 0 {
        base
    } else {
        let d = decimal_digits(k);
        utf16_prefix(base, (SHEET_NAME_LIMIT - 1 - d.len()) as nat) + seq!['_'] + d
    }
}

/// A name that the workbook accepts for a sheet: not empty, at most 31
/// UTF-16 units, none of `/ \ ? * : [ ]`, not starting or ending with `'`.
pub open spec fn accepted_sheet_name(s: Seq<char>) -> bool {
    &&& s.len() > 0
    &&& utf16_len(s) <= SHEET_NAME_LIMIT
    &&& forall|i: int| 0 <= i < s.len() ==> !is_forbidden(#[trigger] s[i])
    &&& s[0] != '\''
    &&& s[s.len() - 1] != '\''
}

/// A name that Excel accepts for a sheet: one the workbook accepts, other
/// than the reserved `History`.
pub open spec fn valid_sheet_name(s: Seq<char>) -> bool {
    accepted_sheet_name(s) && !is_history(s)
}

/// `name` is the first candidate for `base` whose lower case is not taken.
pub open spec fn first_free(base: Seq<char>, taken: Seq<Seq<char>>, k: nat, name: Seq<char>) -> bool {
    &&& k <= 1_000_000
    &&& name == candidate(base, k)
    &&& !taken.contains(lowercase(name))
    &&& forall|j: nat| j < k ==> taken.contains(#[trigger] lowercase(candidate(base, j)))
}

pub open spec fn lowers(names: Seq<Seq<char>>) -> Seq<Seq<char>> {
    names.map_values(|n: Seq<char>| lowercase(n))
}

/// The `i`-th name is the first free candidate for the `i`-th table, given
/// the names before it.
pub open spec fn chosen_at(tables: Seq<Seq<char>>, names: Seq<Seq<char>>, i: int) -> bool {
    exists|k: nat| first_free(base_sheet_name(tables[i]), lowers(names.take(i)), k, names[i])
}

/// `names` are the sheet names chosen, in order, for the tables `tables`.
pub open spec fn names_chosen(tables: Seq<Seq<char>>, names: Seq<Seq<char>>) -> bool {
    &&& names.len() == tables.len()
    &&& forall|i: int| 0 <= i < names.len() ==> #[trigger] chosen_at(tables, names, i)
}

// ---------------------------------------------------------------------------
// Building names
// ---------------------------------------------------------------------------

fn string_of_chars(v: &Vec<char>) -> (s: String)
    ensures
        s@ == v@,
{
    let mut s = String::new();
    let mut i: usize = 0;
    while i < v.len()
        invariant
            i <= v.len(),
            s@ == v@.take(i as int),
        decreases v.len() - i,
    {
        push_char(&mut s, v[i]);
        assert(v@.take(i + 1) =~= v@.take(i as int).push(v@[i as int]));
        i += 1;
    }
    assert(v@.take(v.len() as int) =~= v@);
    s
}

fn units_of(c: char) -> (u: usize)
    ensures
        u == utf16_units(c),
{
    if (c as u32) > 0xFFFF {
        2
    } else {
        1
    }
}

proof fn lemma_utf16_len_skip(s: Seq<char>, i: int)
    requires
        0 <= i < s.len(),
    ensures
        utf16_len(s.skip(i)) == utf16_units(s[i]) + utf16_len(s.skip(i + 1)),
{
    assert(s.skip(i).drop_first() =~= s.skip(i + 1));
}

fn utf16_count(v: &Vec<char>) -> (n: usize)
    requires
        v@.len() <= 1000,
    ensures
        n == utf16_len(v@),
{
    let mut n: usize = 0;
    let mut i: usize = v.len();
    assert(v@.skip(v@.len() as int) =~= Seq::<char>::empty());
    while i > 0
        invariant
            i <= v@.len(),
            v@.len() <= 1000,
            n == utf16_len(v@.skip(i as int)),
            n <= 2 * (v@.len() - i),
        decreases i,
    {
        proof {
            lemma_utf16_len_skip(v@, i - 1);
        }
        n = n + units_of(v[i - 1]);
        i -= 1;
    }
    assert(v@.skip(0) =~= v@);
    n
}

fn fitting_count(v: &Vec<char>, budget: usize) -> (k: usize)
    ensures
        k == fitting_len(v@, budget as nat),
        k <= v@.len(),
{
    let mut i: usize = 0;
    let mut left: usize = budget;
    assert(v@.skip(0) =~= v@);
    while i < v.len() && units_of(v[i]) <= left
        invariant
            i <= v@.len(),
            left <= budget,
            fitting_len(v@, budget as nat) == i + fitting_len(v@.skip(i as int), left as nat),
        decreases v.len() - i,
    {
        assert(v@.skip(i as int).drop_first() =~= v@.skip(i + 1));
        assert(v@.skip(i as int)[0] == v@[i as int]);
        left = left - units_of(v[i]);
        i += 1;
    }
    if i < v.len() {
        assert(v@.skip(i as int)[0] == v@[i as int]);
    } else {
        assert(v@.skip(i as int).len() == 0);
    }
    i
}

fn prefix_chars(v: &Vec<char>, k: usize) -> (p: Vec<char>)
    requires
        k <= v@.len(),
    ensures
        p@ == v@.take(k as int),
{
    let mut p: Vec<char> = Vec::new();
    let mut i: usize = 0;
    while i < k
        invariant
            i <= k,
            k <= v@.len(),
            p@ == v@.take(i as int),
        decreases k - i,
    {
        p.push(v[i]);
        assert(v@.take(i + 1) =~= v@.take(i as int).push(v@[i as int]));
        i += 1;
    }
    p
}

fn is_history_chars(v: &Vec<char>) -> (r: bool)
    ensures
        r == is_history(v@),
{
    if v.len() != 7 {
        return false;
    }
    let word = ['h', 'i', 's', 't', 'o', 'r', 'y'];
    assert(word@ == history());
    let mut i: usize = 0;
    while i < 7
        invariant
            i <= 7,
            v@.len() == 7,
            word@ == history(),
            forall|j: int| 0 <= j < i ==> ascii_lower(#[trigger] v@[j]) == history()[j],
        decreases 7 - i,
    {
        let c = v[i];
        let lower: char = if 'A' <= c && c <= 'Z' {
            ((c as u32 + 32) as u8) as char
        } else {
            c
        };
        if lower != word[i] {
            return false;
        }
        i += 1;
    }
    true
}

/// The sheet name a table's name asks for (see the module's rules).
pub fn sanitize_sheet_name(table: &str) -> (name: String)
    ensures
        name@ == base_sheet_name(table@),
{
    let mut v = chars_of(table);
    let mut i: usize = 0;
    while i < v.len()
        invariant
            i <= v@.len(),
            v@.len() == table@.len(),
            forall|j: int| 0 <= j < i ==> v@[j] == replace_forbidden(table@)[j],
            forall|j: int| i <= j < v@.len() ==> v@[j] == table@[j],
        decreases v.len() - i,
    {
        let c = v[i];
        if c == '/' || c == '\\' || c == '?' || c == '*' || c == ':' || c == '[' || c == ']' {
            v.set(i, '_');
        }
        i += 1;
    }
    assert(v@ =~= replace_forbidden(table@));
    let too_long = if v.len() > 1000 {
        true
    } else {
        utf16_count(&v) > SHEET_NAME_LIMIT
    };
    proof {
        if v@.len() > 1000 {
            lemma_chars_le_utf16_len(v@);
        }
    }
    let mut c = if too_long {
        let k = fitting_count(&v, SHEET_NAME_CUT);
        prefix_chars(&v, k)
    } else {
        v
    };
    let n = c.len();
    if n > 0 {
        if c[0] == '\'' {
            c.set(0, '_');
        }
        if c[n - 1] == '\'' {
            c.set(n - 1, '_');
        }
    } else {
        c.push('_');
    }
    if is_history_chars(&c) {
        c.push('_');
    }
    string_of_chars(&c)
}

/// The `k`-th candidate for the base name `base`.
pub fn candidate_name(base: &str, k: u64) -> (name: String)
    ensures
        name@ == candidate(base@, k as nat),
{
    if k == 0 {
        return String::from_str(base);
    }
    let digits = u64_to_decimal(k);
    let d = chars_of(digits.as_str());
    proof {
        lemma_decimal_digits_len_u64(k as nat);
    }
    let v = chars_of(base);
    let budget: usize = SHEET_NAME_LIMIT - 1 - d.len();
    let keep = fitting_count(&v, budget);
    let mut c = prefix_chars(&v, keep);
    c.push('_');
    let mut i: usize = 0;
    let ghost start = c@;
    while i < d.len()
        invariant
            i <= d@.len(),
            c@ == start + d@.take(i as int),
        decreases d.len() - i,
    {
        c.push(d[i]);
        assert(d@.take(i + 1) =~= d@.take(i as int).push(d@[i as int]));
        i += 1;
    }
    assert(d@.take(d@.len() as int) =~= d@);
    string_of_chars(&c)
}

/// How many suffixes the search tries for `n` tables: `n`, but at most a
/// million.
pub open spec fn naming_limit(n: nat) -> nat {
    if n < 1_000_000 {
        n
    } else {
        1_000_000
    }
}

/// The first `k` from `from` up to `limit` whose candidate's lower case is not
/// taken, if there is one.
pub open spec fn free_from(base: Seq<char>, taken: Seq<Seq<char>>, from: nat, limit: nat) -> Option<nat>
    decreases limit + 1 - from,
{
    if from > limit {
        None
    } else if !taken.contains(lowercase(candidate(base, from))) {
        Some(from)
    } else {
        free_from(base, taken, from + 1, limit)
    }
}

/// The sheet names chosen for the tables, in order, trying the candidates
/// `0..=limit` for each; `None` when some table finds every one of them taken.
pub open spec fn chosen_names(tables: Seq<Seq<char>>, limit: nat) -> Option<Seq<Seq<char>>>
    decreases tables.len(),
{
    if tables.len() == 0 {
        Some(seq![])
    } else {
        match chosen_names(tables.drop_last(), limit) {
            None => None,
            Some(prev) => {
                let base = base_sheet_name(tables.last());
                match free_from(base, lowers(prev), 0, limit) {
                    None => None,
                    Some(k) => Some(prev.push(candidate(base, k))),
                }
            },
        }
    }
}

proof fn lemma_free_from(base: Seq<char>, taken: Seq<Seq<char>>, from: nat, limit: nat)
    ensures
        free_from(base, taken, from, limit) matches Some(k) ==> {
            &&& from <= k <= limit
            &&& !taken.contains(lowercase(candidate(base, k)))
            &&& forall|j: nat| from <= j < k ==> taken.contains(#[trigger] lowercase(candidate(base, j)))
        },
    decreases limit + 1 - from,
{
    if from <= limit && taken.contains(lowercase(candidate(base, from))) {
        lemma_free_from(base, taken, from + 1, limit);
    }
}

proof fn lemma_chosen_names_prefix(tables: Seq<Seq<char>>, limit: nat, i: int)
    requires
        0 <= i <= tables.len(),
        chosen_names(tables.take(i), limit) is None,
    ensures
        chosen_names(tables, limit) is None,
    decreases tables.len() - i,
{
    if i < tables.len() {
        assert(tables.take(i + 1).drop_last() =~= tables.take(i));
        lemma_chosen_names_prefix(tables, limit, i + 1);
    } else {
        assert(tables.take(i) =~= tables);
    }
}

/// Names chosen with at most a million tries each are chosen as
/// `names_chosen` describes.
proof fn lemma_chosen_names_chosen(tables: Seq<Seq<char>>, limit: nat)
    requires
        limit <= 1_000_000,
        chosen_names(tables, limit) is Some,
    ensures
        names_chosen(tables, chosen_names(tables, limit)->0),
    decreases tables.len(),
{
    if tables.len() > 0 {
        let t = tables.drop_last();
        lemma_chosen_names_chosen(t, limit);
        let prev = chosen_names(t, limit)->0;
        let base = base_sheet_name(tables.last());
        lemma_free_from(base, lowers(prev), 0, limit);
        let k = free_from(base, lowers(prev), 0, limit)->0;
        let n = prev.push(candidate(base, k));
        assert(chosen_names(tables, limit)->0 == n);
        assert forall|i: int| 0 <= i < n.len() implies #[trigger] chosen_at(tables, n, i) by {
            if i < prev.len() {
                assert(chosen_at(t, prev, i));
                assert(n.take(i) =~= prev.take(i));
                assert(tables[i] == t[i]);
                assert(n[i] == prev[i]);
            } else {
                assert(n.take(i) =~= prev);
                assert(tables[i] == tables.last());
                assert(first_free(base, lowers(prev), k, n[i]));
            }
        }
    }
}

/// Whether `text` is one of the texts of `list`.
pub fn is_listed(list: &Vec<String>, text: &str) -> (r: bool)
    ensures
        r == texts_of(list@).contains(text@),
{
    let mut i: usize = 0;
    while i < list.len()
        invariant
            i <= list@.len(),
            forall|j: int| 0 <= j < i ==> texts_of(list@)[j] != text@,
        decreases list.len() - i,
    {
        if str_eq(list[i].as_str(), text) {
            assert(texts_of(list@)[i as int] == text@);
            return true;
        }
        i += 1;
    }
    false
}

/// Chooses a sheet name for each table, in order: the table's base name, or
/// its first candidate whose lower case no earlier sheet has taken.
///
/// The search tries as many suffixes as there are tables (at most a million);
/// it fails only if the lower case of every one of them is taken.
pub fn unique_sheet_names(tables: &Vec<String>) -> (r: Result<Vec<String>, ConvertError>)
    ensures
        r matches Ok(names) ==> names_chosen(texts_of(tables@), texts_of(names@)),
        r matches Ok(names) ==> chosen_names(texts_of(tables@), naming_limit(tables@.len()))
            == Some(texts_of(names@)),
        r matches Err(e) ==> e == ConvertError::SheetName,
        r is Err <==> chosen_names(texts_of(tables@), naming_limit(tables@.len())) is None,
{
    let ghost lim = naming_limit(tables@.len());
    let limit: u64 = if tables.len() < 1_000_000 {
        tables.len() as u64
    } else {
        1_000_000
    };
    let mut names: Vec<String> = Vec::new();
    let mut taken: Vec<String> = Vec::new();
    let mut i: usize = 0;
    while i < tables.len()
        invariant
            i <= tables@.len(),
            lim == naming_limit(tables@.len()),
            limit == lim,
            names@.len() == i,
            texts_of(taken@) == lowers(texts_of(names@)),
            chosen_names(texts_of(tables@).take(i as int), lim) == Some(texts_of(names@)),
        decreases tables.len() - i,
    {
        let base = sanitize_sheet_name(tables[i].as_str());
        let ghost b = base@;
        let ghost seen = lowers(texts_of(names@));
        let mut k: u64 = 0;
        let mut found: Option<String> = None;
        let ghost mut found_k: nat = 0;
        while k <= limit && found.is_none()
            invariant
                texts_of(taken@) == seen,
                seen == lowers(texts_of(names@)),
                b == base@,
                limit <= 1_000_000,
                k <= limit + 1,
                found matches Some(n) ==> free_from(b, seen, 0, limit as nat) == Some(found_k)
                    && n@ == candidate(b, found_k),
                found is None ==> free_from(b, seen, 0, limit as nat) == free_from(
                    b,
                    seen,
                    k as nat,
                    limit as nat,
                ),
            decreases limit + 1 - k, (if found is None { 1int } else { 0int }),
        {
            let cand = candidate_name(base.as_str(), k);
            let lower = to_lowercase(cand.as_str());
            if !is_listed(&taken, lower.as_str()) {
                proof {
                    found_k = k as nat;
                }
                found = Some(cand);
            } else {
                k = k + 1;
            }
        }
        let ghost t = texts_of(tables@).take(i + 1);
        assert(t.drop_last() =~= texts_of(tables@).take(i as int));
        assert(t.last() == tables@[i as int]@);
        match found {
            None => {
                proof {
                    assert(chosen_names(t, lim) is None);
                    lemma_chosen_names_prefix(texts_of(tables@), lim, i + 1);
                }
                return Err(ConvertError::SheetName);
            },
            Some(name) => {
                let ghost old_names = texts_of(names@);
                let lower = to_lowercase(name.as_str());
                taken.push(lower);
                names.push(name);
                proof {
                    let n = texts_of(names@);
                    assert(n =~= old_names.push(candidate(b, found_k)));
                    assert(lowers(n) =~= lowers(old_names).push(lowercase(candidate(b, found_k))));
                    assert(texts_of(taken@) =~= lowers(n));
                    assert(chosen_names(t, lim) == Some(n));
                }
            },
        }
        i += 1;
    }
    assert(texts_of(tables@).take(tables@.len() as int) =~= texts_of(tables@));
    proof {
        lemma_chosen_names_chosen(texts_of(tables@), lim);
    }
    Ok(names)
}

// ---------------------------------------------------------------------------
// Laws
// ---------------------------------------------------------------------------

proof fn lemma_same_units(a: Seq<char>, b: Seq<char>)
    requires
        a.len() == b.len(),
        forall|i: int| 0 <= i < a.len() ==> utf16_units(#[trigger] a[i]) == utf16_units(b[i]),
    ensures
        utf16_len(a) == utf16_len(b),
    decreases a.len(),
{
    if a.len() > 0 {
        assert(utf16_units(a[0]) == utf16_units(b[0]));
        assert forall|i: int| 0 <= i < a.drop_first().len() implies utf16_units(
            #[trigger] a.drop_first()[i],
        ) == utf16_units(b.drop_first()[i]) by {
            assert(a.drop_first()[i] == a[i + 1]);
            assert(b.drop_first()[i] == b[i + 1]);
        }
        lemma_same_units(a.drop_first(), b.drop_first());
    }
}

proof fn lemma_prefix_fits(s: Seq<char>, budget: nat)
    ensures
        fitting_len(s, budget) <= s.len(),
        utf16_len(utf16_prefix(s, budget)) <= budget,
    decreases s.len(),
{
    if s.len() == 0 || utf16_units(s[0]) > budget {
        assert(utf16_prefix(s, budget) =~= Seq::<char>::empty());
    } else {
        let u = utf16_units(s[0]);
        let rest = s.drop_first();
        lemma_prefix_fits(rest, (budget - u) as nat);
        let f = fitting_len(s, budget);
        assert(s.take(f as int).drop_first() =~= rest.take(f - 1));
        assert(s.take(f as int)[0] == s[0]);
    }
}

proof fn lemma_no_forbidden_prefix(s: Seq<char>, n: int)
    requires
        0 <= n <= s.len(),
        forall|i: int| 0 <= i < s.len() ==> !is_forbidden(#[trigger] s[i]),
    ensures
        forall|i: int| 0 <= i < s.take(n).len() ==> !is_forbidden(#[trigger] s.take(n)[i]),
{
    assert forall|i: int| 0 <= i < s.take(n).len() implies !is_forbidden(#[trigger] s.take(n)[i]) by {
        assert(s.take(n)[i] == s[i]);
    }
}

proof fn lemma_utf16_underscore()
    ensures
        utf16_len(seq!['_']) == 1,
{
    assert(seq!['_'].drop_first() =~= Seq::<char>::empty());
    assert(utf16_len(Seq::<char>::empty()) == 0);
}

proof fn lemma_base_valid(table: Seq<char>)
    ensures
        valid_sheet_name(base_sheet_name(table)),
{
    let r = replace_forbidden(table);
    assert forall|i: int| 0 <= i < r.len() implies !is_forbidden(#[trigger] r[i]) by {}
    let c = if utf16_len(r) > SHEET_NAME_LIMIT {
        utf16_prefix(r, SHEET_NAME_CUT as nat)
    } else {
        r
    };
    if utf16_len(r) > SHEET_NAME_LIMIT {
        lemma_prefix_fits(r, SHEET_NAME_CUT as nat);
        lemma_no_forbidden_prefix(r, fitting_len(r, SHEET_NAME_CUT as nat) as int);
    }
    assert(utf16_len(c) <= SHEET_NAME_LIMIT);
    assert(forall|i: int| 0 <= i < c.len() ==> !is_forbidden(#[trigger] c[i]));
    let f = fix_apostrophes(c);
    assert(f.len() == c.len());
    assert forall|i: int| 0 <= i < f.len() implies !is_forbidden(#[trigger] f[i]) && utf16_units(f[i])
        == utf16_units(c[i]) by {
        assert(f[i] == c[i] || (c[i] == '\'' && f[i] == '_'));
    }
    lemma_same_units(f, c);
    let e = if f.len() == 0 {
        seq!['_']
    } else {
        f
    };
    assert(forall|i: int| 0 <= i < e.len() ==> !is_forbidden(#[trigger] e[i]));
    lemma_utf16_underscore();
    assert(utf16_len(e) <= SHEET_NAME_LIMIT);
    assert(e[0] != '\'' && e[e.len() - 1] != '\'');
    if is_history(e) {
        let h = e.push('_');
        assert forall|i: int| 0 <= i < e.len() implies utf16_units(#[trigger] e[i]) == 1 by {
            assert(ascii_lower(e[i]) == history()[i]);
        }
        lemma_utf16_underscore();
        lemma_utf16_len_concat(e, seq!['_']);
        assert(e + seq!['_'] =~= h);
        lemma_same_units(e, seq!['a', 'a', 'a', 'a', 'a', 'a', 'a']);
        assert(utf16_len(seq!['a', 'a', 'a', 'a', 'a', 'a', 'a']) == 7) by {
            reveal_with_fuel(utf16_len, 8);
        }
        assert(forall|i: int| 0 <= i < h.len() ==> !is_forbidden(#[trigger] h[i]));
        assert(h[0] == e[0]);
        assert(ascii_lower(e[0]) == 'h');
    }
}

proof fn lemma_candidate_valid(base: Seq<char>, k: nat)
    requires
        valid_sheet_name(base),
        k <= 1_000_000,
    ensures
        valid_sheet_name(candidate(base, k)),
{
    if k > 0 {
        let d = decimal_digits(k);
        lemma_decimal_digits_len_u64(k);
        lemma_decimal_digits_are_digits(k);
        crate::text::lemma_decimal_digits_ascii(k);
        let budget = (SHEET_NAME_LIMIT - 1 - d.len()) as nat;
        lemma_prefix_fits(base, budget);
        let p = utf16_prefix(base, budget);
        lemma_no_forbidden_prefix(base, fitting_len(base, budget) as int);
        let name = p + seq!['_'] + d;
        assert(name == candidate(base, k));
        crate::text::lemma_utf16_len_ascii(d);
        lemma_utf16_underscore();
        lemma_utf16_len_concat(p, seq!['_']);
        lemma_utf16_len_concat(p + seq!['_'], d);
        assert forall|i: int| 0 <= i < name.len() implies !is_forbidden(#[trigger] name[i]) by {
            if i < p.len() {
                assert(name[i] == p[i]);
            } else if i == p.len() {
                assert(name[i] == '_');
            } else {
                assert(name[i] == d[i - p.len() - 1]);
            }
        }
        if p.len() > 0 {
            assert(name[0] == p[0]);
            assert(p[0] == base[0]);
        } else {
            assert(name[0] == '_');
        }
        assert(name[name.len() - 1] == d[d.len() - 1]);
        if name.len() == 7 {
            assert(ascii_lower(name[6]) == name[6]);
        }
    } else {
    }
}

/// Every chosen sheet name is one Excel accepts, and no two are equal in
/// lower case, so the workbook takes them all.
pub proof fn sheet_names_law(tables: Seq<Seq<char>>, names: Seq<Seq<char>>)
    requires
        names_chosen(tables, names),
    ensures
        forall|i: int| 0 <= i < names.len() ==> valid_sheet_name(#[trigger] names[i]),
        forall|i: int, j: int|
            0 <= i < j < names.len() ==> lowercase(#[trigger] names[i]) != lowercase(
                #[trigger] names[j],
            ),
{
    assert forall|i: int| 0 <= i < names.len() implies valid_sheet_name(#[trigger] names[i]) by {
        assert(chosen_at(tables, names, i));
        let k = choose|k: nat|
            first_free(base_sheet_name(tables[i]), lowers(names.take(i)), k, names[i]);
        lemma_base_valid(tables[i]);
        lemma_candidate_valid(base_sheet_name(tables[i]), k);
    }
    assert forall|i: int, j: int| 0 <= i < j < names.len() implies lowercase(#[trigger] names[i])
        != lowercase(#[trigger] names[j]) by {
        assert(chosen_at(tables, names, j));
        let k = choose|k: nat|
            first_free(base_sheet_name(tables[j]), lowers(names.take(j)), k, names[j]);
        assert(lowers(names.take(j))[i] == lowercase(names[i]));
    }
}

} // verus!
