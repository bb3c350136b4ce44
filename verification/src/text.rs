//! Text rendering used for worksheet cells: decimal numbers, lower-case hex
//! dumps of byte strings, UTF-16 lengths, and cutting over-long text down to a
//! byte budget with a visible marker.

use vstd::prelude::*;
use vstd::string::*;
use vstd::utf8::*;

verus! {

broadcast use vstd::utf8::is_ascii_chars_encode_utf8;

/// Appends one character to a string (`String::push`).
/// Claims that the string afterwards is the old one with `c` added at the end.
#[verifier::external_body]
pub(crate) fn push_char(s: &mut String, c: char)
    ensures
        final(s)@ == old(s)@.push(c),
{
    s.push(c);
}

// ---------------------------------------------------------------------------
// Decimal numbers
// ---------------------------------------------------------------------------

/// The character of a decimal digit `0..=9`.
pub open spec fn decimal_digit(d: nat) -> char {
    (48 + d) as char
}

/// Decimal digits of a natural number, most significant first, no leading zeros.
pub open spec fn decimal_digits(n: nat) -> Seq<char>
    decreases n,
{
    if n < 10 {
        seq![decimal_digit(n)]
    } else {
        decimal_digits(n / 10).push(decimal_digit(n % 10))
    }
}

/// Decimal rendering of an integer, with a leading `-` when negative.
pub open spec fn decimal(n: int) -> Seq<char> {
    if n < 0 {
        seq!['-'] + decimal_digits((-n) as nat)
    } else {
        decimal_digits(n as nat)
    }
}

fn decimal_digit_char(d: u64) -> (c: char)
    requires
        d < 10,
    ensures
        c == decimal_digit(d as nat),
{
    let b: u8 = d as u8 + 48;
    b as char
}

/// Decimal rendering of an unsigned integer (as `Display` writes it).
pub fn u64_to_decimal(n: u64) -> (s: String)
    ensures
        s@ == decimal_digits(n as nat),
    decreases n,
{
    if n < 10 {
        let mut s = String::new();
        push_char(&mut s, decimal_digit_char(n));
        s
    } else {
        let mut s = u64_to_decimal(n / 10);
        push_char(&mut s, decimal_digit_char(n % 10));
        s
    }
}

/// Decimal rendering of a signed integer (as `Display` writes it).
pub fn i64_to_decimal(n: i64) -> (s: String)
    ensures
        s@ == decimal(n as int),
{
    if n < 0 {
        let magnitude: u64 = (-(n + 1)) as u64 + 1;
        let digits = u64_to_decimal(magnitude);
        let mut s = String::new();
        push_char(&mut s, '-');
        s.append(digits.as_str());
        s
    } else {
        u64_to_decimal(n as u64)
    }
}

/// Decimal renderings are made of ASCII characters only.
pub proof fn lemma_decimal_digits_ascii(n: nat)
    ensures
        is_ascii_chars(decimal_digits(n)),
        decimal_digits(n).len() >= 1,
    decreases n,
{
    if n >= 10 {
        lemma_decimal_digits_ascii(n / 10);
    }
}

/// Decimal renderings are made of the digits `0` to `9`.
pub proof fn lemma_decimal_digits_are_digits(n: nat)
    ensures
        forall|i: int| 0 <= i < decimal_digits(n).len() ==> '0' <= #[trigger] decimal_digits(n)[i] <= '9',
    decreases n,
{
    if n >= 10 {
        lemma_decimal_digits_are_digits(n / 10);
        let d = decimal_digits(n);
        assert forall|i: int| 0 <= i < d.len() implies '0' <= #[trigger] d[i] <= '9' by {
            if i < d.len() - 1 {
                assert(d[i] == decimal_digits(n / 10)[i]);
            }
        }
    }
}

/// Number of digits is bounded by the number of powers of ten below `n`.
pub proof fn lemma_decimal_digits_len(n: nat, k: nat)
    requires
        n < pow10(k),
        k >= 1,
    ensures
        decimal_digits(n).len() <= k,
    decreases k,
{
    if n >= 10 {
        if k <= 1 {
            assert(pow10(0) == 1);
            assert(pow10(1) == 10);
        } else {
            let k1 = (k - 1) as nat;
            assert(n / 10 < pow10(k1)) by (nonlinear_arith)
                requires
                    n < pow10(k),
                    pow10(k) == 10 * pow10(k1),
            ;
            lemma_decimal_digits_len(n / 10, k1);
        }
    }
}

/// `10` raised to `k`.
pub open spec fn pow10(k: nat) -> nat
    decreases k,
{
    if k == 0 {
        1
    } else {
        10 * pow10((k - 1) as nat)
    }
}

/// A machine-sized number has at most twenty decimal digits.
pub proof fn lemma_decimal_digits_len_u64(n: nat)
    requires
        n <= u64::MAX,
    ensures
        decimal_digits(n).len() <= 20,
{
    reveal_with_fuel(pow10, 21);
    assert(pow10(20) == 100_000_000_000_000_000_000nat);
    lemma_decimal_digits_len(n, 20);
}

/// The decimal text of an `i64` is short ASCII text.
pub proof fn lemma_decimal_i64(n: i64)
    ensures
        is_ascii_chars(decimal(n as int)),
        1 <= decimal(n as int).len() <= 21,
{
    if n < 0 {
        let m = (-(n as int)) as nat;
        lemma_decimal_digits_ascii(m);
        lemma_decimal_digits_len_u64(m);
        lemma_ascii_concat(seq!['-'], decimal_digits(m));
    } else {
        lemma_decimal_digits_ascii(n as nat);
        lemma_decimal_digits_len_u64(n as nat);
    }
}

/// The hex dump is ASCII.
pub proof fn lemma_hex_string_ascii(bytes: Seq<u8>)
    ensures
        is_ascii_chars(hex_string(bytes)),
    decreases bytes.len(),
{
    if bytes.len() > 0 {
        lemma_hex_string_ascii(bytes.drop_last());
        let pair = seq![
            hex_digit((bytes.last() / 16) as nat),
            hex_digit((bytes.last() % 16) as nat),
        ];
        assert(is_ascii_chars(pair));
        lemma_ascii_concat(hex_string(bytes.drop_last()), pair);
        assert(hex_string(bytes) =~= hex_string(bytes.drop_last()) + pair);
    } else {
        assert(is_ascii_chars(hex_string(bytes)));
    }
}

// ---------------------------------------------------------------------------
// UTF-16 length
// ---------------------------------------------------------------------------

/// Number of UTF-16 code units that encode `c` (`char::len_utf16`).
pub open spec fn utf16_units(c: char) -> nat {
    if c as u32 > 0xFFFF {
        2
    } else {
        1
    }
}

/// Number of UTF-16 code units that encode `s`.
pub open spec fn utf16_len(s: Seq<char>) -> nat
    decreases s.len(),
{
    if s.len() == 0 {
        0
    } else {
        utf16_units(s[0]) + utf16_len(s.drop_first())
    }
}

pub proof fn lemma_utf16_len_concat(a: Seq<char>, b: Seq<char>)
    ensures
        utf16_len(a + b) == utf16_len(a) + utf16_len(b),
    decreases a.len(),
{
    if a.len() > 0 {
        assert((a + b).drop_first() =~= a.drop_first() + b);
        assert((a + b)[0] == a[0]);
        lemma_utf16_len_concat(a.drop_first(), b);
    } else {
        assert(a + b =~= b);
    }
}

pub proof fn lemma_utf16_len_ascii(s: Seq<char>)
    requires
        is_ascii_chars(s),
    ensures
        utf16_len(s) == s.len(),
    decreases s.len(),
{
    if s.len() > 0 {
        assert(is_ascii_chars(s.drop_first())) by {
            assert forall|i| 0 <= i < s.drop_first().len() implies '\0' <= #[trigger] s.drop_first()[i]
                <= '\u{7f}' by {
                assert(s.drop_first()[i] == s[i + 1]);
            }
        }
        assert('\0' <= s[0] <= '\u{7f}');
        lemma_utf16_len_ascii(s.drop_first());
    }
}

/// A text has at least as many UTF-16 units as characters.
pub proof fn lemma_chars_le_utf16_len(s: Seq<char>)
    ensures
        s.len() <= utf16_len(s),
    decreases s.len(),
{
    if s.len() > 0 {
        lemma_chars_le_utf16_len(s.drop_first());
    }
}

pub proof fn lemma_ascii_take(s: Seq<char>, n: int)
    requires
        is_ascii_chars(s),
        0 <= n <= s.len(),
    ensures
        is_ascii_chars(s.take(n)),
{
    assert forall|i| 0 <= i < s.take(n).len() implies '\0' <= #[trigger] s.take(n)[i] <= '\u{7f}' by {
        assert(s.take(n)[i] == s[i]);
    }
}

pub proof fn lemma_ascii_concat(a: Seq<char>, b: Seq<char>)
    requires
        is_ascii_chars(a),
        is_ascii_chars(b),
    ensures
        is_ascii_chars(a + b),
{
    assert forall|i| 0 <= i < (a + b).len() implies '\0' <= #[trigger] (a + b)[i] <= '\u{7f}' by {
        if i < a.len() {
            assert((a + b)[i] == a[i]);
        } else {
            assert((a + b)[i] == b[i - a.len()]);
        }
    }
}

// ---------------------------------------------------------------------------
// Cutting long text
// ---------------------------------------------------------------------------

/// Excel's limit on the length of a cell's text.
pub const MAX_STRING_LENGTH: usize = 32_767;

/// Marker appended to text that had to be cut.
pub const TRUNCATION_SUFFIX: &'static str = "... [truncated]";

/// The characters of [`TRUNCATION_SUFFIX`].
pub open spec fn truncation_suffix() -> Seq<char> {
    seq!['.', '.', '.', ' ', '[', 't', 'r', 'u', 'n', 'c', 'a', 't', 'e', 'd', ']']
}

/// What `truncate_string` makes of `s`: unchanged when it has at most
/// `max_len` characters; otherwise the marker alone when `max_len` leaves no
/// room beside it, else the first `max_len - 15` characters followed by the marker.
pub open spec fn truncated(s: Seq<char>, max_len: nat) -> Seq<char> {
    if s.len() <= max_len {
        s
    } else if max_len <= truncation_suffix().len() {
        truncation_suffix()
    } else {
        s.take(max_len - truncation_suffix().len()) + truncation_suffix()
    }
}

pub proof fn lemma_suffix_facts()
    ensures
        TRUNCATION_SUFFIX@ == truncation_suffix(),
        is_ascii_chars(truncation_suffix()),
        truncation_suffix().len() == 15,
{
    reveal_strlit("... [truncated]");
    assert(TRUNCATION_SUFFIX@ =~= truncation_suffix());
}

/// Cuts `s` to at most `max_len` characters, marking the cut.
pub fn truncate_string(s: &str, max_len: usize) -> (r: String)
    ensures
        r@ == truncated(s@, max_len as nat),
{
    let n: usize = s.unicode_len();
    if n <= max_len {
        return String::from_str(s);
    }
    proof {
        lemma_suffix_facts();
    }
    let suffix_len: usize = TRUNCATION_SUFFIX.unicode_len();
    if max_len <= suffix_len {
        return String::from_str(TRUNCATION_SUFFIX);
    }
    let keep: usize = max_len - suffix_len;
    let mut result = String::from_str(s.substring_char(0, keep));
    result.append(TRUNCATION_SUFFIX);
    proof {
        assert(s@.subrange(0, keep as int) =~= s@.take(keep as int));
    }
    result
}

/// Text within the limit is kept as it is; cut text is a prefix of the input
/// followed by the marker; with room for the marker the result has at most
/// `max_len` characters; and cutting twice is cutting once.
pub proof fn truncation_law(s: Seq<char>, max_len: nat)
    ensures
        s.len() <= max_len ==> truncated(s, max_len) == s,
        s.len() > max_len ==> ({
            let t = truncated(s, max_len);
            &&& t.len() >= 15
            &&& t.subrange(t.len() - 15, t.len() as int) == truncation_suffix()
            &&& s.take(t.len() - 15) == t.take(t.len() - 15)
        }),
        max_len >= 15 ==> truncated(s, max_len).len() <= max_len,
        truncated(truncated(s, max_len), max_len) == truncated(s, max_len),
{
    if s.len() > max_len {
        let t = truncated(s, max_len);
        if max_len <= 15 {
            assert(t.subrange(t.len() - 15, t.len() as int) =~= truncation_suffix());
        } else {
            assert(t.subrange(t.len() - 15, t.len() as int) =~= truncation_suffix());
            assert(s.take(t.len() - 15) =~= t.take(t.len() - 15));
        }
    }
}

/// Text that is cut with room for the marker comes out exactly `max_len`
/// characters long; ASCII text stays ASCII.
pub proof fn truncation_exact_law(s: Seq<char>, max_len: nat)
    requires
        s.len() > max_len,
        max_len >= 15,
    ensures
        truncated(s, max_len).len() == max_len,
        is_ascii_chars(s) ==> is_ascii_chars(truncated(s, max_len)),
{
    lemma_suffix_facts();
    if max_len > 15 && is_ascii_chars(s) {
        let k = (max_len - 15) as int;
        lemma_ascii_take(s, k);
        lemma_ascii_concat(s.take(k), truncation_suffix());
    }
}

/// ASCII text, or text within Excel's limit of UTF-16 units, comes out of
/// cutting within that limit.
pub proof fn lemma_truncated_utf16_fits(s: Seq<char>)
    requires
        is_ascii_chars(s) || utf16_len(s) <= MAX_STRING_LENGTH,
    ensures
        utf16_len(truncated(s, MAX_STRING_LENGTH as nat)) <= MAX_STRING_LENGTH,
{
    lemma_chars_le_utf16_len(s);
    if s.len() > MAX_STRING_LENGTH {
        assert(is_ascii_chars(s));
        truncation_exact_law(s, MAX_STRING_LENGTH as nat);
        assert(is_ascii_chars(truncated(s, MAX_STRING_LENGTH as nat)));
        lemma_utf16_len_ascii(truncated(s, MAX_STRING_LENGTH as nat));
    } else {
        truncation_law(s, MAX_STRING_LENGTH as nat);
        if is_ascii_chars(s) {
            lemma_utf16_len_ascii(s);
        }
    }
}

// ---------------------------------------------------------------------------
// Hex dumps
// ---------------------------------------------------------------------------

/// Lower-case hexadecimal digit for `0..=15`.
pub open spec fn hex_digit(d: nat) -> char {
    if d < 10 {
        (48 + d) as char
    } else {
        (87 + d) as char
    }
}

/// Two lower-case hex digits per byte, in order (as `{:02x}` writes each byte).
pub open spec fn hex_pairs(bytes: Seq<u8>) -> Seq<char>
    decreases bytes.len(),
{
    if bytes.len() == 0 {
        seq![]
    } else {
        hex_pairs(bytes.drop_last()) + seq![
            hex_digit((bytes.last() / 16) as nat),
            hex_digit((bytes.last() % 16) as nat),
        ]
    }
}

/// `0x` followed by the hex digits of every byte.
pub open spec fn hex_string(bytes: Seq<u8>) -> Seq<char> {
    seq!['0', 'x'] + hex_pairs(bytes)
}

/// Value of a lower-case hex digit.
pub open spec fn hex_value(c: char) -> int {
    if c as int <= 57 {
        c as int - 48
    } else {
        c as int - 87
    }
}

proof fn lemma_hex_pairs_layout(bytes: Seq<u8>)
    ensures
        hex_pairs(bytes).len() == 2 * bytes.len(),
        forall|i: int|
            0 <= i < bytes.len() ==> {
                &&& #[trigger] hex_pairs(bytes)[2 * i] == hex_digit((bytes[i] / 16) as nat)
                &&& hex_pairs(bytes)[2 * i + 1] == hex_digit((bytes[i] % 16) as nat)
            },
    decreases bytes.len(),
{
    if bytes.len() > 0 {
        let init = bytes.drop_last();
        lemma_hex_pairs_layout(init);
        assert forall|i: int| 0 <= i < bytes.len() implies {
            &&& #[trigger] hex_pairs(bytes)[2 * i] == hex_digit((bytes[i] / 16) as nat)
            &&& hex_pairs(bytes)[2 * i + 1] == hex_digit((bytes[i] % 16) as nat)
        } by {
            if i < init.len() {
                assert(init[i] == bytes[i]);
                assert(hex_pairs(bytes)[2 * i] == hex_pairs(init)[2 * i]);
                assert(hex_pairs(bytes)[2 * i + 1] == hex_pairs(init)[2 * i + 1]);
            }
        }
    }
}

/// The hex dump is `0x` and then, for each byte in order, two digits whose
/// values give back the byte.
pub proof fn hex_string_law(bytes: Seq<u8>)
    ensures
        hex_string(bytes).len() == 2 + 2 * bytes.len(),
        hex_string(bytes)[0] == '0',
        hex_string(bytes)[1] == 'x',
        forall|i: int|
            0 <= i < bytes.len() ==> hex_value(#[trigger] hex_string(bytes)[2 + 2 * i]) * 16
                + hex_value(hex_string(bytes)[3 + 2 * i]) == bytes[i] as int,
{
    lemma_hex_pairs_layout(bytes);
    let h = hex_string(bytes);
    assert forall|i: int| 0 <= i < bytes.len() implies hex_value(#[trigger] h[2 + 2 * i]) * 16
        + hex_value(h[3 + 2 * i]) == bytes[i] as int by {
        assert(h[2 + 2 * i] == hex_pairs(bytes)[2 * i]);
        assert(h[3 + 2 * i] == hex_pairs(bytes)[2 * i + 1]);
        let hi = (bytes[i] / 16) as nat;
        let lo = (bytes[i] % 16) as nat;
        assert(hex_value(hex_digit(hi)) == hi);
        assert(hex_value(hex_digit(lo)) == lo);
    }
}

fn hex_digit_char(d: u8) -> (c: char)
    requires
        d < 16,
    ensures
        c == hex_digit(d as nat),
{
    if d < 10 {
        let b: u8 = d + 48;
        b as char
    } else {
        let b: u8 = d + 87;
        b as char
    }
}

/// Renders bytes as `0x` followed by two lower-case hex digits per byte.
pub fn bytes_to_hex(bytes: &[u8]) -> (r: String)
    ensures
        r@ == hex_string(bytes@),
{
    let mut hex = String::new();
    push_char(&mut hex, '0');
    push_char(&mut hex, 'x');
    let mut i: usize = 0;
    while i < bytes.len()
        invariant
            i <= bytes.len(),
            hex@ == seq!['0', 'x'] + hex_pairs(bytes@.take(i as int)),
        decreases bytes.len() - i,
    {
        let b: u8 = bytes[i];
        push_char(&mut hex, hex_digit_char(b / 16));
        push_char(&mut hex, hex_digit_char(b % 16));
        assert(bytes@.take(i + 1).drop_last() =~= bytes@.take(i as int));
        i += 1;
    }
    assert(bytes@.take(bytes.len() as int) =~= bytes@);
    hex
}

} // verus!
