//! Webhook authentication: hashed shared secrets and HMAC-SHA256 signatures.

use crate::digest::{
    hex_decode, hex_decode_text, hex_encode, hex_encode_bytes, hmac_sha256, hmac_sha256_verify,
    is_lower_hex_digit, lemma_hex_digit_value, lemma_hex_round_trip, sha256, sha256_digest,
};
use crate::text::{from_chars, slice_chars, starts_with, starts_with_chars, to_chars};
use vstd::prelude::*;
use vstd::string::StringSliceAdditionalSpecFns;
use vstd::utf8::{encode_utf8, encode_utf8_decode_utf8};

verus! {

/// Compares two byte strings without stopping at the first difference: every
/// position is folded into one accumulator before the answer is read.
pub fn constant_time_eq_bytes(a: &[u8], b: &[u8]) -> (r: bool)
    ensures
        r == (a@ == b@),
{
    if a.len() != b.len() {
        return false;
    }
    let mut acc: u8 = 0;
    let mut i: usize = 0;
    while i < a.len()
        invariant
            i <= a.len(),
            a.len() == b.len(),
            acc == 0 <==> (forall|j: int| 0 <= j < i ==> a@[j] == b@[j]),
        decreases a.len() - i,
    {
        let x: u8 = a[i];
        let y: u8 = b[i];
        let ghost before = acc;
        acc = acc | (x ^ y);
        assert(((before | (x ^ y)) == 0) <==> (before == 0 && x == y)) by (bit_vector);
        i = i + 1;
    }
    if acc == 0 {
        assert(a@ =~= b@);
    }
    acc == 0
}

/// Constant-time equality of two strings, used for tokens, pairing codes and
/// secret hashes.
pub fn constant_time_eq(a: &str, b: &str) -> (r: bool)
    ensures
        r == (a@ == b@),
{
    let r = constant_time_eq_bytes(a.as_bytes(), b.as_bytes());
    proof {
        encode_utf8_decode_utf8(a@);
        encode_utf8_decode_utf8(b@);
    }
    r
}

/// What is stored and compared in place of a webhook secret: the lower-case
/// hex text of its SHA-256 digest.
pub open spec fn webhook_secret_hash(secret: Seq<char>) -> Seq<char> {
    hex_encode(sha256(encode_utf8(secret)))
}

/// Hashes a webhook secret.  The result depends on the secret alone and is
/// always 64 lower-case hex digits.
pub fn hash_webhook_secret(value: &str) -> (r: String)
    ensures
        r@ == webhook_secret_hash(value@),
        r@.len() == 64,
        forall|i: int| 0 <= i < 64 ==> is_lower_hex_digit(#[trigger] r@[i]),
{
    let digest = sha256_digest(value.as_bytes());
    let r = hex_encode_bytes(digest.as_slice());
    proof {
        assert forall|i: int| 0 <= i < 64 implies is_lower_hex_digit(#[trigger] r@[i]) by {
            lemma_hex_digit_value(digest@[i / 2] as int / 16);
            lemma_hex_digit_value(digest@[i / 2] as int % 16);
        }
    }
    r
}

/// Two secrets whose digests differ have different hashes; only a SHA-256
/// collision makes two hashes equal.
pub proof fn lemma_secret_hash_separates(a: Seq<char>, b: Seq<char>)
    requires
        sha256(encode_utf8(a)) != sha256(encode_utf8(b)),
    ensures
        webhook_secret_hash(a) != webhook_secret_hash(b),
{
    lemma_hex_round_trip(sha256(encode_utf8(a)));
    lemma_hex_round_trip(sha256(encode_utf8(b)));
}

/// Whether a presented secret matches a stored hash.
pub fn webhook_secret_matches(stored_hash: &str, presented: &str) -> (r: bool)
    ensures
        r == (webhook_secret_hash(presented@) == stored_hash@),
{
    let hashed = hash_webhook_secret(presented);
    constant_time_eq(hashed.as_str(), stored_hash)
}

/// The hex text that a signature header carries: the header itself, or what
/// follows the required prefix.  `None` where the prefix is required and
/// absent; the prefix is matched exactly, case included.
pub open spec fn signature_text(header: Seq<char>, prefix: Option<Seq<char>>) -> Option<Seq<char>> {
    match prefix {
        None => Some(header),
        Some(p) => if starts_with(header, p) {
            Some(header.skip(p.len() as int))
        } else {
            None
        },
    }
}

/// Whether `header` is, after the optional prefix, the hex text of the
/// HMAC-SHA256 tag of `payload` under `secret`.
pub open spec fn hmac_accepts(
    secret: Seq<u8>,
    payload: Seq<u8>,
    header: Seq<char>,
    prefix: Option<Seq<char>>,
) -> bool {
    match signature_text(header, prefix) {
        Some(text) => hex_decode(text) == Some(hmac_sha256(secret, payload)),
        None => false,
    }
}

/// Checks an HMAC-SHA256 signature header against a payload.  A header is
/// accepted only if, after the prefix, it is the 64 hex digits of the 32-byte
/// tag: shorter and longer ones fail.
pub fn verify_hmac(secret: &[u8], payload: &[u8], header: &str, prefix: Option<&str>) -> (r: bool)
    ensures
        r == hmac_accepts(
            secret@,
            payload@,
            header@,
            match prefix {
                Some(p) => Some(p@),
                None => None,
            },
        ),
        r ==> header@.len() == 64 + match prefix {
            Some(p) => p@.len(),
            None => 0,
        },
        r ==> hmac_sha256(secret@, payload@).len() == 32,
{
    let decoded = match prefix {
        None => hex_decode_text(header),
        Some(p) => {
            let h = to_chars(header);
            let pc = to_chars(p);
            if !starts_with_chars(&h, &pc) {
                return false;
            }
            let tail = slice_chars(&h, pc.len(), h.len());
            let tail_text = from_chars(&tail);
            hex_decode_text(tail_text.as_str())
        },
    };
    match decoded {
        None => false,
        Some(tag) => hmac_sha256_verify(secret, payload, tag.as_slice()),
    }
}

/// The prefix of a signature header in the `X-Hub-Signature-256` format.
pub open spec fn sha256_prefix() -> Seq<char> {
    "sha256="@
}

/// Verifies a webhook signature of the form `sha256=<hex>` over the raw body;
/// an accepted header is the seven characters of the prefix and 64 hex
/// digits.
pub fn verify_whatsapp_signature(app_secret: &str, body: &[u8], signature_header: &str) -> (r:
    bool)
    ensures
        r == hmac_accepts(
            encode_utf8(app_secret@),
            body@,
            signature_header@,
            Some(sha256_prefix()),
        ),
        r ==> signature_header@.len() == 71,
{
    proof {
        reveal_strlit("sha256=");
    }
    verify_hmac(app_secret.as_bytes(), body, signature_header, Some("sha256="))
}

/// The bytes of `salt` followed by the bytes of `body`.
pub fn salted_payload(salt: &str, body: &str) -> (r: Vec<u8>)
    ensures
        r@ == encode_utf8(salt@) + encode_utf8(body@),
{
    let mut r: Vec<u8> = Vec::new();
    r.extend_from_slice(salt.as_bytes());
    r.extend_from_slice(body.as_bytes());
    r
}

/// Verifies a signature computed over the random salt followed by the body;
/// the header is the bare hex tag, 64 digits long.
pub fn verify_nextcloud_talk_signature(secret: &str, random: &str, body: &str, signature: &str) -> (r:
    bool)
    ensures
        r == hmac_accepts(
            encode_utf8(secret@),
            encode_utf8(random@) + encode_utf8(body@),
            signature@,
            None,
        ),
        r ==> signature@.len() == 64,
{
    let payload = salted_payload(random, body);
    verify_hmac(secret.as_bytes(), payload.as_slice(), signature, None)
}

/// Verifies a signature computed over the timestamp followed by the body; the
/// header is the bare hex tag, 64 digits long.  A request without a
/// timestamp is rejected.
pub fn verify_linq_signature(secret: &str, body: &str, timestamp: &str, signature: &str) -> (r:
    bool)
    ensures
        r == (timestamp@.len() > 0 && hmac_accepts(
            encode_utf8(secret@),
            encode_utf8(timestamp@) + encode_utf8(body@),
            signature@,
            None,
        )),
        r ==> signature@.len() == 64,
{
    if timestamp.is_empty() {
        return false;
    }
    let payload = salted_payload(timestamp, body);
    verify_hmac(secret.as_bytes(), payload.as_slice(), signature, None)
}

/// A signature made with the right secret over the right payload is accepted,
/// with or without a prefix in front of the hex text.
pub proof fn lemma_valid_signature_accepted(secret: Seq<u8>, payload: Seq<u8>, prefix: Seq<char>)
    ensures
        hmac_accepts(secret, payload, hex_encode(hmac_sha256(secret, payload)), None),
        hmac_accepts(
            secret,
            payload,
            prefix + hex_encode(hmac_sha256(secret, payload)),
            Some(prefix),
        ),
{
    let text = hex_encode(hmac_sha256(secret, payload));
    lemma_hex_round_trip(hmac_sha256(secret, payload));
    let header = prefix + text;
    assert(header.subrange(0, prefix.len() as int) =~= prefix);
    assert(header.skip(prefix.len() as int) =~= text);
}

/// A header accepted for one secret and payload is rejected for any other
/// secret or payload whose tag differs: tampering with the body, the salt or
/// the secret passes only on an HMAC collision.
pub proof fn lemma_tampering_rejected(
    secret: Seq<u8>,
    payload: Seq<u8>,
    other_secret: Seq<u8>,
    other_payload: Seq<u8>,
    header: Seq<char>,
    prefix: Option<Seq<char>>,
)
    requires
        hmac_accepts(secret, payload, header, prefix),
        hmac_sha256(other_secret, other_payload) != hmac_sha256(secret, payload),
    ensures
        !hmac_accepts(other_secret, other_payload, header, prefix),
{
}

} // verus!
