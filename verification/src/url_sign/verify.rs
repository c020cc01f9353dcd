//! Signatures of the signed text, and their comparison.

use vstd::prelude::*;
use vstd::utf8::encode_utf8;

use crate::signature::mac::{constant_time_eq, decode_hex_pairs, encode_hex_lower, hex_decoded, hex_encoded, hmac_sha256, hmac_sha256_of, law_hex_round_trip};
use crate::url_sign::config::Encoding;

verus! {

/// Bytes in URL-safe base64 without padding.
pub uninterp spec fn base64_url_encoded(bytes: Seq<u8>) -> Seq<char>;

/// What a text decodes to as URL-safe base64 without padding, if it does.
pub uninterp spec fn base64_url_decoded(text: Seq<char>) -> Option<Seq<u8>>;

/// The `base64` crate's `URL_SAFE_NO_PAD` engine: bytes as text, which the same
/// engine decodes to these bytes.
#[verifier::external_body]
pub(crate) fn encode_base64_url(bytes: &[u8]) -> (r: String)
    ensures
        r@ == base64_url_encoded(bytes@),
        base64_url_decoded(r@) == Some(bytes@),
{
    base64::Engine::encode(&base64::engine::general_purpose::URL_SAFE_NO_PAD, bytes)
}

/// The `base64` crate's `URL_SAFE_NO_PAD` engine: the bytes that a text decodes
/// to.
#[verifier::external_body]
pub(crate) fn decode_base64_url(text: &str) -> (r: Option<Vec<u8>>)
    ensures
        bytes_view(r) == base64_url_decoded(text@),
{
    base64::Engine::decode(&base64::engine::general_purpose::URL_SAFE_NO_PAD, text).ok()
}

pub open spec fn bytes_view(bytes: Option<Vec<u8>>) -> Option<Seq<u8>> {
    match bytes {
        Some(b) => Some(b@),
        None => None,
    }
}

/// The bytes that a signature writes.
pub open spec fn signature_bytes(signature: Seq<char>, encoding: Encoding) -> Option<Seq<u8>> {
    match encoding {
        Encoding::Hex => hex_decoded(signature),
        Encoding::Base64Url => base64_url_decoded(signature),
    }
}

/// The signature of a text under a key, as bytes.
pub open spec fn text_mac(key: Seq<u8>, text: Seq<char>) -> Seq<u8> {
    hmac_sha256_of(key, encode_utf8(text))
}

/// The signature of a text under a key. It reads back as it was computed.
pub fn compute_mac(key: &[u8], canonical: &str, encoding: Encoding) -> (r: String)
    ensures
        r@ == (match encoding {
            Encoding::Hex => hex_encoded(text_mac(key@, canonical@)),
            Encoding::Base64Url => base64_url_encoded(text_mac(key@, canonical@)),
        }),
        signature_bytes(r@, encoding) == Some(text_mac(key@, canonical@)),
{
    let mac = hmac_sha256(key, canonical.as_bytes());
    proof {
        law_hex_round_trip(mac@);
    }
    match encoding {
        Encoding::Hex => encode_hex_lower(mac.as_slice()),
        Encoding::Base64Url => encode_base64_url(mac.as_slice()),
    }
}

fn decode_signature(sig: &str, encoding: Encoding) -> (r: Option<Vec<u8>>)
    ensures
        bytes_view(r) == signature_bytes(sig@, encoding),
{
    match encoding {
        Encoding::Hex => decode_hex_pairs(sig),
        Encoding::Base64Url => decode_base64_url(sig),
    }
}

/// Whether two signatures, where they can be read, write the same bytes.
pub fn bytes_match(expected: Option<Vec<u8>>, actual: Option<Vec<u8>>) -> (r: bool)
    ensures
        r == (expected is Some && bytes_view(expected) == bytes_view(actual)),
{
    match (expected, actual) {
        (Some(e), Some(a)) => {
            if e.len() != a.len() {
                return false;
            }
            constant_time_eq(e.as_slice(), a.as_slice())
        },
        _ => false,
    }
}

/// Whether two signatures can be read and write the same bytes.
pub fn signatures_match(expected: &str, actual: &str, encoding: Encoding) -> (r: bool)
    ensures
        r == (signature_bytes(expected@, encoding) is Some && signature_bytes(expected@, encoding)
            == signature_bytes(actual@, encoding)),
{
    bytes_match(decode_signature(expected, encoding), decode_signature(actual, encoding))
}

} // verus!
