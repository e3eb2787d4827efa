//! Hex text, through `bitcoin_hashes` and `hex`.
use bitcoin_hashes::hex::{FromHex, ToHex};
use vstd::prelude::*;

verus! {

pub open spec fn is_hex_digit(c: char) -> bool {
    ('0' <= c && c <= '9') || ('a' <= c && c <= 'f') || ('A' <= c && c <= 'F')
}

pub open spec fn hex_value(c: char) -> u8 {
    if '0' <= c && c <= '9' {
        (c as u32 - '0' as u32) as u8
    } else if 'a' <= c && c <= 'f' {
        (c as u32 - 'a' as u32 + 10) as u8
    } else {
        (c as u32 - 'A' as u32 + 10) as u8
    }
}

/// The lowercase hex digit for a value below 16.
pub open spec fn hex_digit(v: u8) -> char {
    if v < 10 {
        (('0' as u32) + (v as u32)) as char
    } else {
        (('a' as u32) + (v as u32) - 10) as char
    }
}

/// Two lowercase hex digits for each byte.
pub open spec fn hex_encoded(b: Seq<u8>) -> Seq<char>
    decreases b.len(),
{
    if b.len() == 0 {
        Seq::empty()
    } else {
        hex_encoded(b.drop_last()) + seq![hex_digit(b.last() / 16), hex_digit(b.last() % 16)]
    }
}

/// Text that hex decoding accepts: an even number of hex digits.
pub open spec fn is_hex_text(s: Seq<char>) -> bool {
    s.len() % 2 == 0 && forall|i: int| 0 <= i < s.len() ==> is_hex_digit(#[trigger] s[i])
}

/// The bytes that hex text stands for, a pair of digits each.
pub open spec fn hex_decoded(s: Seq<char>) -> Seq<u8> {
    Seq::new(
        (s.len() / 2) as nat,
        |i: int| (hex_value(s[2 * i]) * 16 + hex_value(s[2 * i + 1])) as u8,
    )
}

/// Relies on `bitcoin_hashes::hex::ToHex` for byte slices: two lowercase
/// digits per byte (`{:02x}`), in order.
#[verifier::external_body]
pub(crate) fn to_hex(b: &[u8]) -> (r: String)
    ensures
        r@ == hex_encoded(b@),
{
    b.to_hex()
}

/// Relies on `bitcoin_hashes::hex::FromHex` for `Vec<u8>`: fails on text of
/// odd length or with a character that is not a hex digit (either case),
/// and otherwise turns each pair of digits into one byte.
#[verifier::external_body]
pub(crate) fn from_hex(s: &str) -> (r: Option<Vec<u8>>)
    ensures
        r.is_some() <==> is_hex_text(s@),
        r.is_some() ==> r.unwrap()@ == hex_decoded(s@),
{
    <Vec<u8> as FromHex>::from_hex(s).ok()
}

/// Relies on `hex::decode`: fails on text of odd length or with a byte
/// that is not a hex digit, and otherwise turns each pair of digits into
/// one byte.
#[verifier::external_body]
pub(crate) fn hex_decode(s: &str) -> (r: Option<Vec<u8>>)
    ensures
        r.is_some() <==> is_hex_text(s@),
        r.is_some() ==> r.unwrap()@ == hex_decoded(s@),
{
    hex::decode(s).ok()
}

} // verus!
