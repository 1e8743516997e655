//! Stateless helpers for bytes, text and sequences: a hexadecimal codec,
//! UTF-8 conversion, small text utilities and generic sequence operations.
//!
//! Every function carries a contract over a mathematical model of its
//! arguments: `Seq<u8>` for bytes, `Seq<char>` for text and `Seq<T>` for
//! sequences.
use vstd::prelude::*;
use vstd::utf8::*;

pub mod pattern;
pub mod string;
pub mod vec;

verus! {

/// Why a conversion was refused.
#[derive(Debug, Clone, Copy, PartialEq, Eq, Structural)]
pub enum ConvertError {
    /// The text is not hexadecimal: its length is odd or it holds a
    /// character outside `[0-9a-fA-F]`.
    InvalidFormat,
    /// The bytes are not well-formed UTF-8.
    InvalidEncoding,
}

/// The lowercase hexadecimal digit that stands for `n`, for `n < 16`.
pub open spec fn hex_digit(n: u8) -> char {
    if n < 10 {
        ('0' as u8 + n) as char
    } else {
        ('a' as u8 + (n - 10)) as char
    }
}

/// `c` is one of `0-9`, `a-f`, `A-F`.
pub open spec fn is_hex_digit(c: char) -> bool {
    ('0' <= c && c <= '9') || ('a' <= c && c <= 'f') || ('A' <= c && c <= 'F')
}

/// The value of the hexadecimal digit `c`, in either case.
pub open spec fn hex_value(c: char) -> int {
    if '0' <= c && c <= '9' {
        c as int - '0' as int
    } else if 'a' <= c && c <= 'f' {
        c as int - 'a' as int + 10
    } else {
        c as int - 'A' as int + 10
    }
}

/// Two lowercase digits per byte, high nibble first, in input order.
pub open spec fn hex_encode(bytes: Seq<u8>) -> Seq<char> {
    Seq::new(
        2 * bytes.len(),
        |k: int|
            if k % 2 == 0 {
                hex_digit(bytes[k / 2] / 16)
            } else {
                hex_digit(bytes[k / 2] % 16)
            },
    )
}

/// The text has even length and holds hexadecimal digits only.
pub open spec fn is_hex_text(text: Seq<char>) -> bool {
    &&& text.len() % 2 == 0
    &&& forall|i: int| 0 <= i < text.len() ==> is_hex_digit(#[trigger] text[i])
}

/// One byte per pair of digits, in order.
pub open spec fn hex_decode(text: Seq<char>) -> Seq<u8> {
    Seq::new(
        text.len() / 2,
        |i: int| (hex_value(text[2 * i]) * 16 + hex_value(text[2 * i + 1])) as u8,
    )
}

/// Specification of `String::push`: the character is appended to the text.
pub assume_specification[ String::push ](s: &mut String, c: char)
    ensures
        final(s)@ == old(s)@.push(c),
;

fn hex_digit_of(n: u8) -> (c: char)
    requires
        n < 16,
    ensures
        c == hex_digit(n),
{
    if n < 10 {
        ('0' as u8 + n) as char
    } else {
        ('a' as u8 + (n - 10)) as char
    }
}

/// Renders each byte as two lowercase hexadecimal digits.
pub fn bytes_to_hex(bytes: &[u8]) -> (hex: String)
    ensures
        hex@ == hex_encode(bytes@),
        hex@.len() == 2 * bytes@.len(),
{
    let mut hex = String::new();
    let mut i: usize = 0;
    while i < bytes.len()
        invariant
            i <= bytes.len(),
            hex@ == hex_encode(bytes@.subrange(0, i as int)),
        decreases bytes.len() - i,
    {
        let byte: u8 = bytes[i];
        hex.push(hex_digit_of(byte / 16));
        hex.push(hex_digit_of(byte % 16));
        i += 1;
    }
    hex
}

fn hex_value_of(b: u8) -> (v: Option<u8>)
    ensures
        match v {
            Some(n) => is_hex_digit(b as char) && n == hex_value(b as char),
            None => !is_hex_digit(b as char),
        },
{
    if '0' as u8 <= b && b <= '9' as u8 {
        Some(b - '0' as u8)
    } else if 'a' as u8 <= b && b <= 'f' as u8 {
        Some(b - 'a' as u8 + 10)
    } else if 'A' as u8 <= b && b <= 'F' as u8 {
        Some(b - 'A' as u8 + 10)
    } else {
        None
    }
}

/// Reads hexadecimal text, two digits per byte, in either case.
///
/// Succeeds exactly on text of even length made of hexadecimal digits;
/// every other text is refused as `InvalidFormat`.
pub fn hex_to_bytes(hex: &str) -> (r: Result<Vec<u8>, ConvertError>)
    ensures
        match r {
            Ok(bytes) => is_hex_text(hex@) && bytes@ == hex_decode(hex@),
            Err(e) => !is_hex_text(hex@) && e == ConvertError::InvalidFormat,
        },
{
    if !hex.is_ascii() {
        return Err(ConvertError::InvalidFormat);
    }
    let digits = hex.as_bytes();
    let n = digits.len();
    if n % 2 != 0 {
        return Err(ConvertError::InvalidFormat);
    }
    let mut bytes: Vec<u8> = Vec::with_capacity(n / 2);
    let mut i: usize = 0;
    while i < n
        invariant
            n == digits@.len(),
            n == hex@.len(),
            n % 2 == 0,
            i % 2 == 0,
            i <= n,
            is_ascii_chars(hex@),
            forall|k: int| 0 <= k < n ==> hex@[k] as u8 == #[trigger] digits@[k],
            forall|k: int| 0 <= k < i ==> is_hex_digit(#[trigger] hex@[k]),
            bytes@ == hex_decode(hex@.subrange(0, i as int)),
        decreases n - i,
    {
        let hi = hex_value_of(digits[i]);
        let lo = hex_value_of(digits[i + 1]);
        match (hi, lo) {
            (Some(h), Some(l)) => {
                bytes.push(h * 16 + l);
            },
            _ => {
                return Err(ConvertError::InvalidFormat);
            },
        }
        i += 2;
    }
    Ok(bytes)
}

/// Decodes bytes with `String::from_utf8`: the result is a text exactly
/// when the bytes are well-formed UTF-8, and the text's encoding is then
/// the given bytes.
#[verifier::external_body]
fn utf8_to_string(bytes: &[u8]) -> (r: Option<String>)
    ensures
        match r {
            Some(s) => valid_utf8(bytes@) && encode_utf8(s@) == bytes@,
            None => !valid_utf8(bytes@),
        },
{
    String::from_utf8(bytes.to_vec()).ok()
}

/// Decodes UTF-8 bytes into text.
///
/// Succeeds exactly on well-formed UTF-8; every other byte sequence is
/// refused as `InvalidEncoding`.
pub fn bytes_to_string(bytes: &[u8]) -> (r: Result<String, ConvertError>)
    ensures
        match r {
            Ok(s) => valid_utf8(bytes@) && s@ == decode_utf8(bytes@),
            Err(e) => !valid_utf8(bytes@) && e == ConvertError::InvalidEncoding,
        },
{
    match utf8_to_string(bytes) {
        Some(s) => {
            proof {
                encode_utf8_decode_utf8(s@);
            }
            Ok(s)
        },
        None => Err(ConvertError::InvalidEncoding),
    }
}

/// The UTF-8 encoding of the text.
pub fn string_to_bytes(s: &str) -> (bytes: Vec<u8>)
    ensures
        bytes@ == encode_utf8(s@),
{
    s.as_bytes_vec()
}

/// The hexadecimal rendering of the text's UTF-8 encoding.
pub fn string_to_hex(s: &str) -> (hex: String)
    ensures
        hex@ == hex_encode(encode_utf8(s@)),
{
    bytes_to_hex(s.as_bytes())
}

/// Reads hexadecimal text and decodes the bytes it stands for as UTF-8.
///
/// The hexadecimal format is checked first, so text that is not
/// hexadecimal is always refused as `InvalidFormat`.
pub fn hex_to_string(hex: &str) -> (r: Result<String, ConvertError>)
    ensures
        match r {
            Ok(s) => is_hex_text(hex@) && valid_utf8(hex_decode(hex@)) && s@ == decode_utf8(
                hex_decode(hex@),
            ),
            Err(e) => if is_hex_text(hex@) {
                !valid_utf8(hex_decode(hex@)) && e == ConvertError::InvalidEncoding
            } else {
                e == ConvertError::InvalidFormat
            },
        },
{
    match hex_to_bytes(hex) {
        Ok(bytes) => bytes_to_string(bytes.as_slice()),
        Err(e) => Err(e),
    }
}

/// Hexadecimal text written by `bytes_to_hex` is read back by
/// `hex_to_bytes` as the bytes it was written from.
pub proof fn lemma_hex_round_trip(bytes: Seq<u8>)
    ensures
        is_hex_text(hex_encode(bytes)),
        hex_decode(hex_encode(bytes)) == bytes,
{
    let text = hex_encode(bytes);
    assert forall|i: int| 0 <= i < text.len() implies is_hex_digit(#[trigger] text[i]) by {
        let b = bytes[i / 2];
        assert(b / 16 < 16 && b % 16 < 16);
    }
    assert forall|i: int| 0 <= i < bytes.len() implies #[trigger] hex_decode(text)[i]
        == bytes[i] by {
        let b = bytes[i];
        assert((2 * i) % 2 == 0 && (2 * i) / 2 == i);
        assert((2 * i + 1) % 2 == 1 && (2 * i + 1) / 2 == i);
        assert(text[2 * i] == hex_digit(b / 16));
        assert(text[2 * i + 1] == hex_digit(b % 16));
        assert(hex_value(hex_digit(b / 16)) == b / 16);
        assert(hex_value(hex_digit(b % 16)) == b % 16);
        assert((b / 16) * 16 + b % 16 == b);
    }
    assert(hex_decode(text) =~= bytes);
}

/// Text rendered by `string_to_hex` is read back by `hex_to_string` as the
/// same text: the rendering is hexadecimal, the bytes it stands for are
/// well-formed UTF-8, and they decode to the text.
pub proof fn lemma_text_hex_round_trip(text: Seq<char>)
    ensures
        is_hex_text(hex_encode(encode_utf8(text))),
        valid_utf8(hex_decode(hex_encode(encode_utf8(text)))),
        decode_utf8(hex_decode(hex_encode(encode_utf8(text)))) == text,
{
    lemma_hex_round_trip(encode_utf8(text));
    encode_utf8_valid_utf8(text);
    encode_utf8_decode_utf8(text);
}

/// The encoding written by `string_to_bytes` is read back by
/// `bytes_to_string` as the same text.
pub proof fn lemma_text_bytes_round_trip(text: Seq<char>)
    ensures
        valid_utf8(encode_utf8(text)),
        decode_utf8(encode_utf8(text)) == text,
{
    encode_utf8_valid_utf8(text);
    encode_utf8_decode_utf8(text);
}

} // verus!
