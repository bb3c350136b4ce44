//! Standard base64 (RFC 4648: alphabet `A-Z a-z 0-9 + /`, `=` padding).

use vstd::prelude::*;
use vstd::utf8::*;

verus! {

/// The base64 symbol for a 6-bit value.
pub open spec fn base64_char(v: nat) -> char {
    if v < 26 {
        (65 + v) as char
    } else if v < 52 {
        (71 + v) as char
    } else if v < 62 {
        (v - 4) as char
    } else if v == 62 {
        '+'
    } else {
        '/'
    }
}

/// The 6-bit value of a base64 symbol.
pub open spec fn base64_value(c: char) -> nat {
    let x = c as nat;
    if 65 <= x <= 90 {
        (x - 65) as nat
    } else if 97 <= x <= 122 {
        (x - 71) as nat
    } else if 48 <= x <= 57 {
        (x + 4) as nat
    } else if c == '+' {
        62
    } else {
        63
    }
}

/// Whether `c` is one of the 64 symbols of the standard alphabet.
pub open spec fn is_base64_symbol(c: char) -> bool {
    ||| 'A' <= c <= 'Z'
    ||| 'a' <= c <= 'z'
    ||| '0' <= c <= '9'
    ||| c == '+'
    ||| c == '/'
}

/// Padded standard base64 of `bytes`: four symbols per group of three bytes;
/// a last group of one or two bytes is padded with `==` or `=`.
pub open spec fn base64_encoding(bytes: Seq<u8>) -> Seq<char>
    decreases bytes.len(),
{
    if bytes.len() == 0 {
        seq![]
    } else if bytes.len() == 1 {
        let b0 = bytes[0] as nat;
        seq![base64_char(b0 / 4), base64_char((b0 % 4) * 16), '=', '=']
    } else if bytes.len() == 2 {
        let b0 = bytes[0] as nat;
        let b1 = bytes[1] as nat;
        seq![
            base64_char(b0 / 4),
            base64_char((b0 % 4) * 16 + b1 / 16),
            base64_char((b1 % 16) * 4),
            '=',
        ]
    } else {
        let b0 = bytes[0] as nat;
        let b1 = bytes[1] as nat;
        let b2 = bytes[2] as nat;
        seq![
            base64_char(b0 / 4),
            base64_char((b0 % 4) * 16 + b1 / 16),
            base64_char((b1 % 16) * 4 + b2 / 64),
            base64_char(b2 % 64),
        ] + base64_encoding(bytes.skip(3))
    }
}

/// Standard padded base64 decoding of a text made of whole groups of four.
pub open spec fn base64_decoding(t: Seq<char>) -> Seq<u8>
    decreases t.len(),
{
    if t.len() < 4 {
        seq![]
    } else {
        let v0 = base64_value(t[0]);
        let v1 = base64_value(t[1]);
        let v2 = base64_value(t[2]);
        let v3 = base64_value(t[3]);
        if t[2] == '=' {
            seq![(v0 * 4 + v1 / 16) as u8]
        } else if t[3] == '=' {
            seq![(v0 * 4 + v1 / 16) as u8, ((v1 % 16) * 16 + v2 / 4) as u8]
        } else {
            seq![
                (v0 * 4 + v1 / 16) as u8,
                ((v1 % 16) * 16 + v2 / 4) as u8,
                ((v2 % 4) * 64 + v3) as u8,
            ] + base64_decoding(t.skip(4))
        }
    }
}

/// Length of the padded base64 encoding of `n` bytes.
pub open spec fn base64_len(n: nat) -> nat {
    4 * ((n + 2) / 3)
}

/// The length of the padded base64 text of `n` bytes, when it fits in `usize`.
pub fn base64_len_checked(n: usize) -> (r: Option<usize>)
    ensures
        r matches Some(l) ==> l == base64_len(n as nat),
        r is None ==> base64_len(n as nat) > usize::MAX,
{
    let groups: usize = if n % 3 > 0 {
        n / 3 + 1
    } else {
        n / 3
    };
    assert(groups == (n + 2) / 3);
    groups.checked_mul(4)
}

/// `base64::engine::general_purpose::STANDARD.encode`.
///
/// Claims: the result is the standard padded base64 of `bytes` (the
/// `STANDARD` engine uses the RFC 4648 alphabet with padding). The crate
/// panics when the encoded length does not fit in `usize`, which `requires`
/// excludes.
#[verifier::external_body]
fn encode_base64_standard(bytes: &[u8]) -> (r: String)
    requires
        base64_len(bytes@.len()) <= usize::MAX,
    ensures
        r@ == base64_encoding(bytes@),
{
    base64::Engine::encode(&base64::engine::general_purpose::STANDARD, bytes)
}

/// Base64 encodes a byte slice (standard alphabet, with padding).
pub fn base64_encode(bytes: &[u8]) -> (r: String)
    requires
        base64_len(bytes@.len()) <= usize::MAX,
    ensures
        r@ == base64_encoding(bytes@),
{
    encode_base64_standard(bytes)
}

proof fn lemma_base64_char(v: nat)
    requires
        v < 64,
    ensures
        is_base64_symbol(base64_char(v)),
        base64_value(base64_char(v)) == v,
        base64_char(v) != '=',
{
}

/// The encoding has four symbols per started group of three bytes; every
/// symbol is from the standard alphabet except `=`, which only pads the end.
pub proof fn base64_shape_law(bytes: Seq<u8>)
    ensures
        base64_encoding(bytes).len() == base64_len(bytes.len()),
        forall|i: int|
            0 <= i < base64_encoding(bytes).len() ==> is_base64_symbol(
                #[trigger] base64_encoding(bytes)[i],
            ) || base64_encoding(bytes)[i] == '=',
        forall|i: int|
            0 <= i < base64_encoding(bytes).len() - 2 ==> #[trigger] base64_encoding(bytes)[i]
                != '=',
        is_ascii_chars(base64_encoding(bytes)),
    decreases bytes.len(),
{
    let e = base64_encoding(bytes);
    if bytes.len() == 0 {
    } else if bytes.len() == 1 {
        let b0 = bytes[0] as nat;
        lemma_base64_char(b0 / 4);
        lemma_base64_char((b0 % 4) * 16);
    } else if bytes.len() == 2 {
        let b0 = bytes[0] as nat;
        let b1 = bytes[1] as nat;
        lemma_base64_char(b0 / 4);
        lemma_base64_char((b0 % 4) * 16 + b1 / 16);
        lemma_base64_char((b1 % 16) * 4);
    } else {
        let b0 = bytes[0] as nat;
        let b1 = bytes[1] as nat;
        let b2 = bytes[2] as nat;
        lemma_base64_char(b0 / 4);
        lemma_base64_char((b0 % 4) * 16 + b1 / 16);
        lemma_base64_char((b1 % 16) * 4 + b2 / 64);
        lemma_base64_char(b2 % 64);
        let rest = bytes.skip(3);
        base64_shape_law(rest);
        let r = base64_encoding(rest);
        assert forall|i: int| 0 <= i < e.len() implies (is_base64_symbol(#[trigger] e[i]) || e[i]
            == '=') && (i < e.len() - 2 ==> e[i] != '=') by {
            if i >= 4 {
                assert(e[i] == r[i - 4]);
            }
        }
    }
    assert forall|i: int| 0 <= i < e.len() implies '\0' <= #[trigger] e[i] <= '\u{7f}' by {
        assert(is_base64_symbol(e[i]) || e[i] == '=');
    }
}

/// Standard base64 decoding gives back the bytes that were encoded.
pub proof fn base64_round_trip_law(bytes: Seq<u8>)
    ensures
        base64_decoding(base64_encoding(bytes)) == bytes,
    decreases bytes.len(),
{
    let e = base64_encoding(bytes);
    if bytes.len() == 0 {
    } else if bytes.len() == 1 {
        let b0 = bytes[0] as nat;
        lemma_base64_char(b0 / 4);
        lemma_base64_char((b0 % 4) * 16);
        assert(base64_decoding(e) =~= bytes);
    } else if bytes.len() == 2 {
        let b0 = bytes[0] as nat;
        let b1 = bytes[1] as nat;
        lemma_base64_char(b0 / 4);
        lemma_base64_char((b0 % 4) * 16 + b1 / 16);
        lemma_base64_char((b1 % 16) * 4);
        assert(base64_decoding(e) =~= bytes);
    } else {
        let b0 = bytes[0] as nat;
        let b1 = bytes[1] as nat;
        let b2 = bytes[2] as nat;
        lemma_base64_char(b0 / 4);
        lemma_base64_char((b0 % 4) * 16 + b1 / 16);
        lemma_base64_char((b1 % 16) * 4 + b2 / 64);
        lemma_base64_char(b2 % 64);
        let rest = bytes.skip(3);
        base64_round_trip_law(rest);
        assert(e.skip(4) =~= base64_encoding(rest));
        assert(bytes =~= seq![bytes[0], bytes[1], bytes[2]] + rest);
        assert(base64_decoding(e) =~= bytes);
    }
}

} // verus!
