//! Hashing, message authentication and hex coding.
//!
//! SHA-256 and HMAC-SHA256 are computed by the `sha2` and `hmac` crates and
//! appear in contracts only by name; hex coding is done by the `hex` crate and
//! is specified in full.  The functions that call these crates are not
//! proved: their contracts restate what the crates document.  What is built
//! on them is.

use crate::text::{extend_chars, extend_str, from_chars, slice_chars, to_chars};
use hmac::Mac;
use sha2::Digest;
use vstd::prelude::*;

verus! {

/// The SHA-256 digest of a byte string.
pub uninterp spec fn sha256(data: Seq<u8>) -> Seq<u8>;

/// The HMAC-SHA256 tag of `message` under `key`.
pub uninterp spec fn hmac_sha256(key: Seq<u8>, message: Seq<u8>) -> Seq<u8>;

/// Calls `sha2::Sha256::digest`.  The result is the digest of `data`, which
/// the crate fixes at 32 bytes.
#[verifier::external_body]
pub(crate) fn sha256_digest(data: &[u8]) -> (out: Vec<u8>)
    ensures
        out@ == sha256(data@),
        out@.len() == 32,
{
    sha2::Sha256::digest(data).to_vec()
}

/// Calls `hmac::Mac::verify_slice` on an HMAC-SHA256 keyed with `key` and fed
/// `message`.  The crate accepts a tag exactly when it has the length of the
/// MAC's output, 32 bytes, and equals the computed tag; the comparison does
/// not depend on where the first difference lies.
#[verifier::external_body]
pub(crate) fn hmac_sha256_verify(key: &[u8], message: &[u8], tag: &[u8]) -> (ok: bool)
    ensures
        ok == (tag@ == hmac_sha256(key@, message@)),
        ok ==> tag@.len() == 32,
{
    match hmac::Hmac::<sha2::Sha256>::new_from_slice(key) {
        Ok(mut mac) => {
            mac.update(message);
            mac.verify_slice(tag).is_ok()
        },
        Err(_) => false,
    }
}

/// Calls `uuid::Uuid::new_v4` and returns the 16 bytes of the identifier.
/// Which bytes come back is left open.  The call does not return where the
/// system gives no random bytes.
#[verifier::external_body]
pub(crate) fn fresh_uuid_bytes() -> (out: Vec<u8>)
    ensures
        out@.len() == 16,
{
    uuid::Uuid::new_v4().as_bytes().to_vec()
}

/// Calls `rand::random` for an array of 32 bytes, which draws them from the
/// thread's generator, a cryptographic one seeded by the system.  Which bytes
/// come back is left open.  The call does not return where the system gives
/// no random bytes.
#[verifier::external_body]
pub(crate) fn fresh_random_bytes() -> (out: Vec<u8>)
    ensures
        out@.len() == 32,
{
    rand::random::<[u8; 32]>().to_vec()
}

/// The lower-case hex digit for a value below 16.
pub open spec fn hex_digit(n: int) -> char {
    if 0 <= n < 10 {
        (('0' as u32) + n) as char
    } else {
        (('a' as u32) + (n - 10)) as char
    }
}

/// Lower-case hex encoding: two digits per byte, high nibble first.
pub open spec fn hex_encode(data: Seq<u8>) -> Seq<char> {
    Seq::new(
        2 * data.len(),
        |i: int|
            if i % 2 == 0 {
                hex_digit(data[i / 2] as int / 16)
            } else {
                hex_digit(data[i / 2] as int % 16)
            },
    )
}

/// The value of a hex digit of either case.
pub open spec fn hex_value(c: char) -> Option<int> {
    if '0' <= c <= '9' {
        Some((c as u32) - ('0' as u32))
    } else if 'a' <= c <= 'f' {
        Some((c as u32) - ('a' as u32) + 10)
    } else if 'A' <= c <= 'F' {
        Some((c as u32) - ('A' as u32) + 10)
    } else {
        None
    }
}

/// Whether `text` is an even number of hex digits.
pub open spec fn is_hex(text: Seq<char>) -> bool {
    text.len() % 2 == 0 && forall|i: int| 0 <= i < text.len() ==> hex_value(#[trigger] text[i]).is_some()
}

/// The bytes that well-formed hex text stands for.
pub open spec fn hex_bytes(text: Seq<char>) -> Seq<u8> {
    Seq::new(
        text.len() / 2,
        |i: int| (hex_value(text[2 * i]).unwrap() * 16 + hex_value(text[2 * i + 1]).unwrap()) as u8,
    )
}

/// Hex decoding: defined on an even number of hex digits, upper or lower case.
pub open spec fn hex_decode(text: Seq<char>) -> Option<Seq<u8>> {
    if is_hex(text) {
        Some(hex_bytes(text))
    } else {
        None
    }
}

/// Calls `hex::encode`, which writes each byte as two lower-case hex digits.
#[verifier::external_body]
pub(crate) fn hex_encode_bytes(data: &[u8]) -> (out: String)
    ensures
        out@ == hex_encode(data@),
{
    hex::encode(data)
}

/// Calls `hex::decode`, which fails on an odd number of bytes and on any byte
/// that is not a hex digit, and otherwise pairs the digits into bytes.  A
/// character outside ASCII is encoded in bytes that are no hex digits, so the
/// crate's byte-wise reading and the character-wise one stated here agree.
#[verifier::external_body]
pub(crate) fn hex_decode_text(text: &str) -> (out: Option<Vec<u8>>)
    ensures
        match out {
            Some(bytes) => hex_decode(text@) == Some(bytes@),
            None => hex_decode(text@).is_none(),
        },
{
    match hex::decode(text) {
        Ok(bytes) => Some(bytes),
        Err(_) => None,
    }
}

/// Decoding undoes encoding.
pub proof fn lemma_hex_round_trip(data: Seq<u8>)
    ensures
        hex_decode(hex_encode(data)) == Some(data),
{
    let text = hex_encode(data);
    assert forall|i: int| 0 <= i < text.len() implies hex_value(#[trigger] text[i]).is_some() by {
        lemma_hex_digit_value(data[i / 2] as int / 16);
        lemma_hex_digit_value(data[i / 2] as int % 16);
    }
    assert(is_hex(text));
    assert forall|i: int| 0 <= i < data.len() implies hex_bytes(text)[i] == data[i] by {
        let b = data[i] as int;
        lemma_hex_digit_value(b / 16);
        lemma_hex_digit_value(b % 16);
        assert(text[2 * i] == hex_digit(data[(2 * i) / 2] as int / 16));
        assert(text[2 * i + 1] == hex_digit(data[(2 * i + 1) / 2] as int % 16));
    }
    assert(hex_bytes(text) =~= data);
}

/// A hex digit has the value it was made from.
pub proof fn lemma_hex_digit_value(n: int)
    requires
        0 <= n < 16,
    ensures
        hex_value(hex_digit(n)) == Some(n),
        is_lower_hex_digit(hex_digit(n)),
{
}

/// The text of a 16-byte identifier: its hex digits in groups of 8, 4, 4, 4
/// and 12, joined by hyphens.
pub open spec fn hyphenated(bytes: Seq<u8>) -> Seq<char> {
    let h = hex_encode(bytes);
    h.subrange(0, 8) + "-"@ + h.subrange(8, 12) + "-"@ + h.subrange(12, 16) + "-"@ + h.subrange(
        16,
        20,
    ) + "-"@ + h.subrange(20, 32)
}

/// Writes a 16-byte identifier in its hyphenated form.
pub fn identifier_text(bytes: &Vec<u8>) -> (r: String)
    requires
        bytes.len() == 16,
    ensures
        r@ == hyphenated(bytes@),
        r@.len() == 36,
{
    let hex = to_chars(hex_encode_bytes(bytes.as_slice()).as_str());
    let mut out = slice_chars(&hex, 0, 8);
    extend_str(&mut out, "-");
    extend_chars(&mut out, &slice_chars(&hex, 8, 12));
    extend_str(&mut out, "-");
    extend_chars(&mut out, &slice_chars(&hex, 12, 16));
    extend_str(&mut out, "-");
    extend_chars(&mut out, &slice_chars(&hex, 16, 20));
    extend_str(&mut out, "-");
    extend_chars(&mut out, &slice_chars(&hex, 20, 32));
    proof {
        reveal_strlit("-");
    }
    from_chars(&out)
}

/// A fresh random identifier in its hyphenated form.
pub fn fresh_identifier() -> (r: String)
    ensures
        r@.len() == 36,
        exists|bytes: Seq<u8>| bytes.len() == 16 && r@ == #[trigger] hyphenated(bytes),
{
    let bytes = fresh_uuid_bytes();
    identifier_text(&bytes)
}

/// A character that `hex_encode` can produce.
pub open spec fn is_lower_hex_digit(c: char) -> bool {
    ('0' <= c <= '9') || ('a' <= c <= 'f')
}

} // verus!
