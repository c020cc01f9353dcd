//! Message authentication codes and their encodings.

use vstd::prelude::*;

use hmac::Mac;
use subtle::ConstantTimeEq;

use crate::number::{digit, hex_digit};
use crate::text::{lower, lower_char, to_chars};

verus! {

/// The HMAC-SHA256 of a message under a key.
pub uninterp spec fn hmac_sha256_of(key: Seq<u8>, message: Seq<u8>) -> Seq<u8>;

/// The HMAC-SHA1 of a message under a key.
pub uninterp spec fn hmac_sha1_of(key: Seq<u8>, message: Seq<u8>) -> Seq<u8>;

/// What a text decodes to as standard base64 with padding, if it does.
pub uninterp spec fn base64_decoded(text: Seq<char>) -> Option<Seq<u8>>;

/// `hmac::Hmac<sha2::Sha256>`: the code of `message` under `secret`, which may
/// have any length.
#[verifier::external_body]
pub(crate) fn hmac_sha256(secret: &[u8], message: &[u8]) -> (r: [u8; 32])
    ensures
        r@ == hmac_sha256_of(secret@, message@),
{
    let mut mac = <hmac::Hmac<sha2::Sha256>>::new_from_slice(secret).expect("any key length");
    mac.update(message);
    mac.finalize().into_bytes().into()
}

/// `hmac::Hmac<sha1::Sha1>`: the code of `message` under `secret`, which may
/// have any length.
#[verifier::external_body]
pub(crate) fn hmac_sha1(secret: &[u8], message: &[u8]) -> (r: [u8; 20])
    ensures
        r@ == hmac_sha1_of(secret@, message@),
{
    let mut mac = <hmac::Hmac<sha1::Sha1>>::new_from_slice(secret).expect("any key length");
    mac.update(message);
    mac.finalize().into_bytes().into()
}

/// `subtle::ConstantTimeEq::ct_eq` on byte slices: whether they are equal, in
/// length and in every byte.
#[verifier::external_body]
pub(crate) fn constant_time_eq(left: &[u8], right: &[u8]) -> (r: bool)
    ensures
        r == (left@ == right@),
{
    left.ct_eq(right).into()
}

/// The `base64` crate's `STANDARD` engine: the bytes that a text decodes to.
#[verifier::external_body]
pub(crate) fn decode_base64(input: &str) -> (r: Option<Vec<u8>>)
    ensures
        match r {
            Some(bytes) => base64_decoded(input@) == Some(bytes@),
            None => base64_decoded(input@) is None,
        },
{
    base64::Engine::decode(&base64::engine::general_purpose::STANDARD, input).ok()
}

/// The value of a hexadecimal digit.
pub open spec fn nibble(c: char) -> Option<u8> {
    if '0' <= c <= '9' {
        Some((c as u32 - '0' as u32) as u8)
    } else if 'a' <= c <= 'f' {
        Some((c as u32 - 'a' as u32 + 10) as u8)
    } else if 'A' <= c <= 'F' {
        Some((c as u32 - 'A' as u32 + 10) as u8)
    } else {
        None
    }
}

/// The bytes that a text of hexadecimal digit pairs writes.
pub open spec fn hex_decoded(s: Seq<char>) -> Option<Seq<u8>>
    decreases s.len(),
{
    if s.len() == 0 {
        Some(Seq::empty())
    } else if s.len() == 1 {
        None
    } else {
        let n = s.len() as int;
        match (hex_decoded(s.take(n - 2)), nibble(s[n - 2]), nibble(s[n - 1])) {
            (Some(bytes), Some(hi), Some(lo)) => Some(bytes.push((hi * 16 + lo) as u8)),
            _ => None,
        }
    }
}

/// Bytes in lowercase hexadecimal.
pub open spec fn hex_encoded(bytes: Seq<u8>) -> Seq<char>
    decreases bytes.len(),
{
    if bytes.len() == 0 {
        Seq::empty()
    } else {
        hex_encoded(bytes.drop_last()).push(digit((bytes.last() / 16) as u8)).push(
            digit((bytes.last() % 16) as u8),
        )
    }
}

fn hex_nibble(c: char) -> (r: Option<u8>)
    ensures
        r == nibble(c),
        r matches Some(n) ==> n < 16,
{
    if '0' <= c && c <= '9' {
        Some(c as u8 - '0' as u8)
    } else if 'a' <= c && c <= 'f' {
        Some(c as u8 - 'a' as u8 + 10)
    } else if 'A' <= c && c <= 'F' {
        Some(c as u8 - 'A' as u8 + 10)
    } else {
        None
    }
}

proof fn lemma_hex_shorter(s: Seq<char>, k: int)
    requires
        0 <= 2 * k <= s.len(),
        hex_decoded(s.take(2 * k)) is None,
    ensures
        hex_decoded(s) is None,
    decreases s.len() - 2 * k,
{
    if s.len() >= 2 * k + 2 {
        let m = 2 * (k + 1);
        assert(s.take(m).take(m - 2) =~= s.take(2 * k));
        lemma_hex_shorter(s, k + 1);
    } else if s.len() == 2 * k + 1 {
        lemma_odd_hex(s);
    } else {
        assert(s.take(2 * k) =~= s);
    }
}

proof fn lemma_odd_hex(s: Seq<char>)
    requires
        s.len() % 2 == 1,
    ensures
        hex_decoded(s) is None,
    decreases s.len(),
{
    if s.len() > 1 {
        lemma_odd_hex(s.take(s.len() - 2));
    }
}

/// The bytes that a text of hexadecimal digit pairs writes. Letter case does not
/// matter, and the empty text writes no bytes.
pub fn decode_hex_pairs(input: &str) -> (r: Option<Vec<u8>>)
    ensures
        match r {
            Some(bytes) => hex_decoded(input@) == Some(bytes@),
            None => hex_decoded(input@) is None,
        },
{
    let chars = to_chars(input);
    let n: usize = chars.len();
    if n % 2 != 0 {
        proof {
            lemma_odd_hex(input@);
        }
        return None;
    }
    let mut out: Vec<u8> = Vec::new();
    let mut i: usize = 0;
    assert(input@.take(0) =~= Seq::<char>::empty());
    while i < n
        invariant
            n == chars@.len(),
            chars@ == input@,
            n % 2 == 0,
            i % 2 == 0,
            i <= n,
            hex_decoded(input@.take(i as int)) == Some(out@),
        decreases n - i,
    {
        let ghost step = input@.take(i + 2);
        assert(step.take(step.len() - 2) =~= input@.take(i as int));
        assert(step[i as int] == chars@[i as int] && step[i + 1] == chars@[i + 1]);
        let hi = hex_nibble(chars[i]);
        let lo = hex_nibble(chars[i + 1]);
        match (hi, lo) {
            (Some(h), Some(l)) => {
                out.push(h * 16 + l);
            },
            _ => {
                proof {
                    assert(hex_decoded(step) is None);
                    lemma_hex_shorter(input@, (i + 2) / 2);
                }
                return None;
            },
        }
        i = i + 2;
    }
    assert(input@.take(n as int) =~= input@);
    Some(out)
}

/// The bytes that a text of at least one hexadecimal digit pair writes.
pub fn decode_hex(input: &str) -> (r: Option<Vec<u8>>)
    ensures
        match r {
            Some(bytes) => input@.len() > 0 && hex_decoded(input@) == Some(bytes@),
            None => input@.len() == 0 || hex_decoded(input@) is None,
        },
{
    if input.is_empty() {
        return None;
    }
    decode_hex_pairs(input)
}

/// Bytes in lowercase hexadecimal.
pub fn encode_hex_lower(bytes: &[u8]) -> (r: String)
    ensures
        r@ == hex_encoded(bytes@),
{
    let mut out = String::new();
    let n: usize = bytes.len();
    let mut i: usize = 0;
    assert(bytes@.take(0) =~= Seq::<u8>::empty());
    assert(out@ =~= Seq::<char>::empty());
    while i < n
        invariant
            n == bytes@.len(),
            i <= n,
            out@ == hex_encoded(bytes@.take(i as int)),
        decreases n - i,
    {
        let b: u8 = bytes[i];
        let ghost step = bytes@.take(i + 1);
        assert(step.drop_last() =~= bytes@.take(i as int));
        out.push(hex_digit(b / 16));
        out.push(hex_digit(b % 16));
        i = i + 1;
    }
    assert(bytes@.take(n as int) =~= bytes@);
    out
}

/// What is written in hexadecimal reads back as it was, and has two digits for
/// each byte.
pub proof fn law_hex_round_trip(bytes: Seq<u8>)
    ensures
        hex_decoded(hex_encoded(bytes)) == Some(bytes),
        hex_encoded(bytes).len() == 2 * bytes.len(),
    decreases bytes.len(),
{
    if bytes.len() > 0 {
        let short = bytes.drop_last();
        let b = bytes.last();
        law_hex_round_trip(short);
        let s = hex_encoded(bytes);
        let n = s.len() as int;
        assert(s.take(n - 2) =~= hex_encoded(short));
        let hi = (b / 16) as u8;
        let lo = (b % 16) as u8;
        assert(s[n - 2] == digit(hi) && s[n - 1] == digit(lo));
        assert(nibble(digit(hi)) == Some(hi));
        assert(nibble(digit(lo)) == Some(lo));
        assert((hi * 16 + lo) as u8 == b);
        assert(short.push(b) =~= bytes);
    }
}

/// Letter case does not matter in hexadecimal.
pub proof fn law_hex_ignores_case(s: Seq<char>)
    ensures
        hex_decoded(lower(s)) == hex_decoded(s),
    decreases s.len(),
{
    let t = lower(s);
    if s.len() >= 2 {
        let n = s.len() as int;
        law_hex_ignores_case(s.take(n - 2));
        assert(t.take(n - 2) =~= lower(s.take(n - 2)));
        let a = s[n - 2];
        let b = s[n - 1];
        assert(t[n - 2] == lower_char(a) && t[n - 1] == lower_char(b));
        assert(nibble(lower_char(a)) == nibble(a));
        assert(nibble(lower_char(b)) == nibble(b));
    }
}

} // verus!
