//! The decoders that write requests go through: percent-decoding (from the
//! `percent_encoding` crate), UTF-8 validation (std) and Base64 (from the
//! `base64` crate). Verus takes the contracts below on trust.

use vstd::prelude::*;
use vstd::utf8::{decode_utf8, valid_utf8};
use base64::Engine;

verus! {

#[verifier::external_type_specification]
#[verifier::external_body]
pub struct ExFromUtf8Error(std::string::FromUtf8Error);

#[verifier::external_type_specification]
#[verifier::external_body]
pub struct ExBase64DecodeError(base64::DecodeError);

/// The value of `b` as a hexadecimal digit (`char::to_digit(16)` of the byte).
pub open spec fn hex_digit(b: u8) -> Option<u8> {
    if 0x30 <= b <= 0x39 {
        Some((b - 0x30) as u8)
    } else if 0x41 <= b <= 0x46 {
        Some((b - 0x41 + 10) as u8)
    } else if 0x61 <= b <= 0x66 {
        Some((b - 0x61 + 10) as u8)
    } else {
        None
    }
}

/// Percent-decoding: each `%` followed by two hexadecimal digits stands for
/// the byte they spell; every other byte stands for itself.
pub open spec fn percent_decoded(s: Seq<u8>) -> Seq<u8>
    decreases s.len(),
{
    if s.len() == 0 {
        Seq::empty()
    } else if s.len() >= 3 && s[0] == 0x25u8 && hex_digit(s[1]) is Some && hex_digit(s[2]) is Some {
        seq![(hex_digit(s[1]).unwrap() * 16 + hex_digit(s[2]).unwrap()) as u8] + percent_decoded(
            s.skip(3),
        )
    } else {
        seq![s[0]] + percent_decoded(s.skip(1))
    }
}

/// The hexadecimal digit of a number below 16, in upper or lower case.
pub open spec fn hex_char(n: u8, lower: bool) -> u8 {
    if n < 10 {
        (0x30 + n) as u8
    } else if lower {
        (0x61 + n - 10) as u8
    } else {
        (0x41 + n - 10) as u8
    }
}

/// Law: percent-decoding undoes percent-encoding: `%` followed by the two
/// hexadecimal digits of a byte (in either case) gives that byte back.
pub proof fn lemma_percent_decodes_escape(b: u8, rest: Seq<u8>, lower: bool)
    ensures
        percent_decoded(seq![0x25u8, hex_char(b / 16, lower), hex_char(b % 16, lower)] + rest)
            == seq![b] + percent_decoded(rest),
{
    let h = hex_char(b / 16, lower);
    let l = hex_char(b % 16, lower);
    let s = seq![0x25u8, h, l] + rest;
    assert(s[0] == 0x25u8 && s[1] == h && s[2] == l);
    assert(hex_digit(h) == Some(b / 16));
    assert(hex_digit(l) == Some(b % 16));
    assert(s.skip(3) =~= rest);
    assert((b / 16) * 16 + b % 16 == b);
}

/// Law: text without `%` is left as it is.
pub proof fn lemma_percent_plain(s: Seq<u8>)
    requires
        forall|i: int| 0 <= i < s.len() ==> s[i] != 0x25u8,
    ensures
        percent_decoded(s) == s,
    decreases s.len(),
{
    if s.len() > 0 {
        lemma_percent_plain(s.skip(1));
        assert(s =~= seq![s[0]] + s.skip(1));
    }
}

/// `percent_encoding::percent_decode`, collected: the bytes of `input` with
/// every `%XX` (two hexadecimal digits) replaced by the byte it spells, as the
/// crate documents it.
#[verifier::external_body]
pub fn percent_decode(input: &[u8]) -> (decoded: Vec<u8>)
    ensures
        decoded@ == percent_decoded(input@),
{
    percent_encoding::percent_decode(input).collect()
}

/// `String::from_utf8`: the string that `bytes` encode, or an error when they
/// are not valid UTF-8.
#[verifier::external_body]
pub fn string_from_utf8(bytes: Vec<u8>) -> (res: Result<String, std::string::FromUtf8Error>)
    ensures
        res is Ok <==> valid_utf8(bytes@),
        res matches Ok(s) ==> s@ == decode_utf8(bytes@),
{
    String::from_utf8(bytes)
}

/// `Display` of `std::string::FromUtf8Error` (the text of the underlying
/// `Utf8Error`). Its wording is not stated.
#[verifier::external_body]
pub fn utf8_error_message(e: &std::string::FromUtf8Error) -> String {
    format!("{}", e)
}

/// The bytes that `base64`'s `STANDARD` engine decodes `input` into, or `None`
/// where it refuses `input`.
pub uninterp spec fn base64_standard_decode(input: Seq<u8>) -> Option<Seq<u8>>;

/// `base64::engine::general_purpose::STANDARD.decode`: claimed to succeed
/// exactly where `base64_standard_decode` gives a value, with that value. What
/// that value is, is not stated.
#[verifier::external_body]
pub fn base64_decode(input: &[u8]) -> (res: Result<Vec<u8>, base64::DecodeError>)
    ensures
        res is Ok <==> base64_standard_decode(input@) is Some,
        res matches Ok(v) ==> v@ == base64_standard_decode(input@).unwrap(),
{
    base64::engine::general_purpose::STANDARD.decode(input)
}

/// `Display` of `base64::DecodeError`. Its wording is not stated.
#[verifier::external_body]
pub fn base64_error_message(e: &base64::DecodeError) -> String {
    format!("{}", e)
}

/// Bytes below 0x80 are valid UTF-8.
pub proof fn lemma_ascii_valid_utf8(bytes: Seq<u8>)
    requires
        forall|i: int| 0 <= i < bytes.len() ==> #[trigger] bytes[i] < 0x80,
    ensures
        valid_utf8(bytes),
    decreases bytes.len(),
{
    if bytes.len() > 0 {
        let b = bytes[0];
        assert(b & 0x7f == b) by (bit_vector)
            requires
                b < 0x80,
        ;
        let rest = bytes.subrange(1, bytes.len() as int);
        assert forall|i: int| 0 <= i < rest.len() implies #[trigger] rest[i] < 0x80 by {
            assert(rest[i] == bytes[i + 1]);
        }
        lemma_ascii_valid_utf8(rest);
    }
}

} // verus!
