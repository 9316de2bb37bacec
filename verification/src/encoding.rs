//! Byte encodings: Base64 (RFC 4648, standard alphabet, padded), lowercase hex and UTF-8.
use base64::Engine;
use vstd::prelude::*;
use vstd::utf8::{decode_utf8, valid_utf8};

verus! {

/// The Base64 digit for a six-bit value.
pub open spec fn base64_digit(v: int) -> char {
    if v < 26 {
        (65 + v) as char
    } else if v < 52 {
        (97 + v - 26) as char
    } else if v < 62 {
        (48 + v - 52) as char
    } else if v == 62 {
        '+'
    } else {
        '/'
    }
}

/// Standard padded Base64 of `b`: every three bytes become four digits; a final
/// group of one or two bytes is completed with `=`.
pub open spec fn base64_encoded(b: Seq<u8>) -> Seq<char>
    decreases b.len(),
{
    if b.len() == 0 {
        seq![]
    } else if b.len() == 1 {
        seq![base64_digit(b[0] as int / 4), base64_digit((b[0] % 4) * 16), '=', '=']
    } else if b.len() == 2 {
        seq![
            base64_digit(b[0] as int / 4),
            base64_digit((b[0] % 4) * 16 + b[1] / 16),
            base64_digit((b[1] % 16) * 4),
            '=',
        ]
    } else {
        seq![
            base64_digit(b[0] as int / 4),
            base64_digit((b[0] % 4) * 16 + b[1] / 16),
            base64_digit((b[1] % 16) * 4 + b[2] / 64),
            base64_digit(b[2] as int % 64),
        ] + base64_encoded(b.skip(3))
    }
}

/// The bytes whose standard padded Base64 is `text`, if any (there is at most one
/// such byte string: see [`lemma_base64_injective`]).
pub open spec fn base64_decoded(text: Seq<char>) -> Option<Seq<u8>> {
    if exists|b: Seq<u8>| #[trigger] base64_encoded(b) == text {
        Some(choose|b: Seq<u8>| #[trigger] base64_encoded(b) == text)
    } else {
        None
    }
}

proof fn lemma_digit(v: int, w: int)
    requires
        0 <= v < 64,
        0 <= w < 64,
    ensures
        base64_digit(v) != '=',
        base64_digit(v) == base64_digit(w) ==> v == w,
{
    let cv = base64_digit(v) as u32;
    let cw = base64_digit(w) as u32;
    assert(cv != 61u32);
    if base64_digit(v) == base64_digit(w) {
        assert(cv == cw);
    }
}

proof fn lemma_group(a0: u8, a1: u8, a2: u8, b0: u8, b1: u8, b2: u8)
    requires
        a0 as int / 4 == b0 as int / 4,
        (a0 % 4) * 16 + a1 / 16 == (b0 % 4) * 16 + b1 / 16,
        (a1 % 16) * 4 + a2 / 64 == (b1 % 16) * 4 + b2 / 64,
        a2 as int % 64 == b2 as int % 64,
    ensures
        a0 == b0 && a1 == b1 && a2 == b2,
{
    assert(a0 % 4 == b0 % 4 && a1 / 16 == b1 / 16) by (nonlinear_arith)
        requires
            (a0 % 4) * 16 + a1 / 16 == (b0 % 4) * 16 + b1 / 16,
            0 <= a1 / 16 < 16,
            0 <= b1 / 16 < 16,
            0 <= a0 % 4 < 4,
            0 <= b0 % 4 < 4,
    ;
    assert(a1 % 16 == b1 % 16 && a2 / 64 == b2 / 64) by (nonlinear_arith)
        requires
            (a1 % 16) * 4 + a2 / 64 == (b1 % 16) * 4 + b2 / 64,
            0 <= a2 / 64 < 4,
            0 <= b2 / 64 < 4,
    ;
}

/// Distinct byte strings have distinct Base64 texts.
pub proof fn lemma_base64_injective(a: Seq<u8>, b: Seq<u8>)
    requires
        base64_encoded(a) == base64_encoded(b),
    ensures
        a == b,
    decreases a.len(),
{
    let ea = base64_encoded(a);
    let eb = base64_encoded(b);
    if a.len() == 0 || b.len() == 0 {
        if a.len() != 0 {
            assert(ea.len() >= 4);
        }
        if b.len() != 0 {
            assert(eb.len() >= 4);
        }
        assert(a =~= b);
    } else {
        assert(ea[0] == eb[0]);
        assert(ea[1] == eb[1]);
        lemma_digit(a[0] as int / 4, b[0] as int / 4);
        if a.len() >= 2 && b.len() >= 2 {
            lemma_digit((a[0] % 4) * 16 + a[1] / 16, (b[0] % 4) * 16 + b[1] / 16);
        }
        if a.len() == 1 {
            lemma_digit((a[0] % 4) * 16, 0);
        }
        if b.len() == 1 {
            lemma_digit((b[0] % 4) * 16, 0);
        }
        if a.len() >= 2 {
            lemma_digit(
                (a[1] % 16) * 4 + if a.len() >= 3 { a[2] / 64 } else { 0 },
                0,
            );
        }
        if b.len() >= 2 {
            lemma_digit(
                (b[1] % 16) * 4 + if b.len() >= 3 { b[2] / 64 } else { 0 },
                0,
            );
        }
        if a.len() >= 3 {
            lemma_digit(a[2] as int % 64, 0);
        }
        if b.len() >= 3 {
            lemma_digit(b[2] as int % 64, 0);
        }
        assert(ea[2] == eb[2]);
        assert(ea[3] == eb[3]);
        assert(a.len() == b.len() || (a.len() >= 3 && b.len() >= 3));
        if a.len() == 1 {
            lemma_digit((a[0] % 4) * 16, (b[0] % 4) * 16);
            assert(a[0] == b[0]) by (nonlinear_arith)
                requires
                    a[0] as int / 4 == b[0] as int / 4,
                    (a[0] % 4) * 16 == (b[0] % 4) * 16,
            ;
            assert(a =~= b);
        } else if a.len() == 2 {
            lemma_digit((a[1] % 16) * 4, (b[1] % 16) * 4);
            lemma_group(a[0], a[1], 0, b[0], b[1], 0);
            assert(a =~= b);
        } else {
            lemma_digit((a[1] % 16) * 4 + a[2] / 64, (b[1] % 16) * 4 + b[2] / 64);
            lemma_digit(a[2] as int % 64, b[2] as int % 64);
            lemma_group(a[0], a[1], a[2], b[0], b[1], b[2]);
            assert(base64_encoded(a.skip(3)) =~= ea.skip(4));
            assert(base64_encoded(b.skip(3)) =~= eb.skip(4));
            lemma_base64_injective(a.skip(3), b.skip(3));
            assert(a =~= a.take(3) + a.skip(3));
            assert(b =~= b.take(3) + b.skip(3));
            assert(a.take(3) =~= b.take(3));
        }
    }
}

/// The Base64 text of `b` decodes to `b`.
pub proof fn lemma_base64_decoded_of(text: Seq<char>, b: Seq<u8>)
    requires
        base64_encoded(b) == text,
    ensures
        base64_decoded(text) == Some(b),
{
    let c = choose|c: Seq<u8>| #[trigger] base64_encoded(c) == text;
    lemma_base64_injective(c, b);
}

/// Calls `base64::engine::general_purpose::STANDARD.encode`. The contract claims that
/// the output is the standard padded Base64 of the input.
#[verifier::external_body]
pub(crate) fn base64_encode(bytes: &[u8]) -> (text: String)
    ensures
        text@ == base64_encoded(bytes@),
{
    base64::engine::general_purpose::STANDARD.encode(bytes)
}

/// Calls `base64::engine::general_purpose::STANDARD.decode` on the bytes of `text`.
/// That engine requires canonical padding and rejects non-zero trailing bits, so the
/// contract claims that it accepts exactly the standard padded Base64 texts, and
/// gives back the bytes that each one encodes.
#[verifier::external_body]
pub(crate) fn base64_decode(text: &str) -> (bytes: Option<Vec<u8>>)
    ensures
        match bytes {
            Some(b) => base64_encoded(b@) == text@,
            None => forall|b: Seq<u8>| #[trigger] base64_encoded(b) != text@,
        },
{
    base64::engine::general_purpose::STANDARD.decode(text.as_bytes()).ok()
}

/// Calls `std::str::from_utf8`. The contract claims what its documentation says: the
/// bytes are accepted exactly when they are valid UTF-8, and then mean the decoded text.
#[verifier::external_body]
pub(crate) fn utf8_text(bytes: &[u8]) -> (text: Option<String>)
    ensures
        text is Some <==> valid_utf8(bytes@),
        text matches Some(t) ==> t@ == decode_utf8(bytes@),
{
    match std::str::from_utf8(bytes) {
        Ok(t) => Some(t.to_owned()),
        Err(_) => None,
    }
}

/// The lowercase hexadecimal digit for a value below 16.
pub open spec fn hex_digit(v: int) -> char {
    if v < 10 {
        (48 + v) as char
    } else {
        (97 + v - 10) as char
    }
}

/// Two lowercase hexadecimal digits per byte, high half first.
pub open spec fn hex_encoded(b: Seq<u8>) -> Seq<char>
    decreases b.len(),
{
    if b.len() == 0 {
        seq![]
    } else {
        seq![hex_digit(b[0] as int / 16), hex_digit(b[0] as int % 16)] + hex_encoded(b.skip(1))
    }
}

/// Calls `hex::encode`. The contract claims what its documentation and source
/// show: two lowercase hexadecimal digits per byte, high half first.
#[verifier::external_body]
pub(crate) fn hex_encode(bytes: &[u8]) -> (text: String)
    ensures
        text@ == hex_encoded(bytes@),
{
    hex::encode(bytes)
}

} // verus!
