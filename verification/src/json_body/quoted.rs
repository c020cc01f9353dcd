//! Texts that are written as JSON strings.

use vstd::prelude::*;
use vstd::utf8::{encode_scalar, encode_utf8, encode_utf8_decode_utf8, encode_utf8_valid_utf8, is_ascii_chars, is_ascii_chars_encode_utf8};

use crate::json_body::grammar::{is_string, lemma_wider_string_rest, stands_in};
use crate::json_body::scan::{has_escape, is_hex_digit, is_text, string_rest_end};
use crate::json_body::walk::key_text;
use crate::json_text::{json_escape, json_string, json_string_decoded};

verus! {

proof fn lemma_encode_concat(a: Seq<char>, b: Seq<char>)
    ensures
        encode_utf8(a + b) == encode_utf8(a) + encode_utf8(b),
    decreases a.len(),
{
    if a.len() == 0 {
        assert(a + b =~= b);
        assert(encode_utf8(a) + encode_utf8(b) =~= encode_utf8(b));
    } else {
        lemma_encode_concat(a.drop_first(), b);
        assert((a + b).drop_first() =~= a.drop_first() + b);
        assert(encode_utf8(a + b) =~= encode_utf8(a) + encode_utf8(b));
    }
}

/// A byte that stands for itself inside a string.
spec fn is_plain(b: u8) -> bool {
    b >= 0x20 && b != 0x22 && b != 0x5C
}

proof fn lemma_plain_before(block: Seq<u8>, rest: Seq<u8>, i: int)
    requires
        0 <= i <= block.len(),
        forall|k: int| 0 <= k < block.len() ==> is_plain(#[trigger] block[k]),
        string_rest_end(rest, 0) == Some(rest.len() as int),
    ensures
        string_rest_end(block + rest, i) == Some((block + rest).len() as int),
    decreases block.len() - i,
{
    let text = block + rest;
    if i == block.len() {
        assert(stands_in(rest, text, i));
        lemma_wider_string_rest(rest, text, i, 0);
    } else {
        assert(is_plain(block[i]));
        assert(text[i] == block[i]);
        lemma_plain_before(block, rest, i + 1);
    }
}

/// The bytes of a character behind the ASCII range are plain.
proof fn lemma_wide_is_plain(c: char)
    requires
        c as u32 > 0x7F,
    ensures
        forall|k: int| 0 <= k < encode_scalar(c as u32).len() ==> is_plain(
            #[trigger] encode_scalar(c as u32)[k],
        ),
{
    let v: u32 = c as u32;
    assert(0xC0u8 | ((v >> 6) & 0x1F) as u8 >= 0x80) by (bit_vector);
    assert(0xE0u8 | ((v >> 12) & 0x0F) as u8 >= 0x80) by (bit_vector);
    assert(0xF0u8 | ((v >> 18) & 0x7) as u8 >= 0x80) by (bit_vector);
    assert(0x80u8 | (v & 0x3F) as u8 >= 0x80) by (bit_vector);
    assert(0x80u8 | ((v >> 6) & 0x3F) as u8 >= 0x80) by (bit_vector);
    assert(0x80u8 | ((v >> 12) & 0x3F) as u8 >= 0x80) by (bit_vector);
}

/// A character as it is written in a string does not end the string.
proof fn lemma_escape_before(c: char, rest: Seq<u8>)
    requires
        string_rest_end(rest, 0) == Some(rest.len() as int),
    ensures
        string_rest_end(encode_utf8(json_escape(c)) + rest, 0) == Some(
            (encode_utf8(json_escape(c)) + rest).len() as int,
        ),
{
    let escape = json_escape(c);
    let bytes = encode_utf8(escape);
    let text = bytes + rest;
    let n = bytes.len() as int;
    assert(stands_in(rest, text, n));
    lemma_wider_string_rest(rest, text, n, 0);
    if c as u32 > 0x7F {
        assert(escape =~= seq![c]);
        assert(escape.drop_first() =~= Seq::<char>::empty());
        assert(encode_utf8(escape.drop_first()) =~= Seq::<u8>::empty());
        assert(bytes =~= encode_scalar(c as u32));
        lemma_wide_is_plain(c);
        lemma_plain_before(bytes, rest, 0);
    } else {
        assert(is_ascii_chars(escape));
        is_ascii_chars_encode_utf8(escape);
        assert forall|k: int| 0 <= k < escape.len() implies text[k] == escape[k] as u8 by {
            assert(escape[k] as u8 == bytes[k]);
        }
        if escape.len() == 1 {
            assert(text[0] == c as u8);
            assert(string_rest_end(text, 0) == string_rest_end(text, 1));
        } else if escape.len() == 2 {
            assert(text[0] == 0x5C && text[1] != 0x75);
            assert(string_rest_end(text, 0) == string_rest_end(text, 2));
        } else {
            assert(text[0] == 0x5C && text[1] == 0x75 && text[2] == 0x30 && text[3] == 0x30);
            assert(is_hex_digit(text[4]) && is_hex_digit(text[5]));
            assert(string_rest_end(text, 0) == string_rest_end(text, 6));
        }
    }
}

proof fn lemma_escapes_before(t: Seq<char>)
    ensures
        ({
            let text = encode_utf8(t.flat_map(|c: char| json_escape(c)) + seq!['"']);
            string_rest_end(text, 0) == Some(text.len() as int)
        }),
    decreases t.len(),
{
    let f = |c: char| json_escape(c);
    let all = t.flat_map(f);
    let text = encode_utf8(all + seq!['"']);
    let quote = seq!['"'];
    if t.len() == 0 {
        assert(t.map_values(f) =~= Seq::<Seq<char>>::empty());
        assert(all =~= Seq::<char>::empty());
        assert(all + quote =~= quote);
        assert(is_ascii_chars(quote));
        is_ascii_chars_encode_utf8(quote);
        assert(text[0] == quote[0] as u8);
    } else {
        let rest = t.drop_first();
        lemma_escapes_before(rest);
        assert(t.map_values(f).drop_first() =~= rest.map_values(f));
        assert(all =~= json_escape(t[0]) + rest.flat_map(f));
        assert(all + quote =~= json_escape(t[0]) + (rest.flat_map(f) + quote));
        lemma_encode_concat(json_escape(t[0]), rest.flat_map(f) + quote);
        lemma_escape_before(t[0], encode_utf8(rest.flat_map(f) + quote));
    }
}

/// A text that is written as a JSON string is one.
pub proof fn law_json_string_is_string(t: Seq<char>)
    ensures
        is_string(json_string(t)),
{
    let inner = t.flat_map(|c: char| json_escape(c)) + seq!['"'];
    let quote = seq!['"'];
    let rest = encode_utf8(inner);
    lemma_escapes_before(t);
    assert(seq!['"'] + t.flat_map(|c: char| json_escape(c)) + seq!['"'] =~= quote + inner);
    lemma_encode_concat(quote, inner);
    assert(is_ascii_chars(quote));
    is_ascii_chars_encode_utf8(quote);
    let text = json_string(t);
    assert(encode_utf8(quote)[0] == quote[0] as u8);
    assert(text[0] == 0x22);
    assert(stands_in(rest, text, 1));
    lemma_wider_string_rest(rest, text, 1, 0);
    let flat = t.flat_map(|c: char| json_escape(c));
    lemma_encode_concat(flat, quote);
    assert(text.subrange(1, text.len() - 1) =~= encode_utf8(flat));
    encode_utf8_valid_utf8(flat);
    reveal(is_text);
}

proof fn lemma_long_escape(c: char)
    requires
        json_escape(c).len() > 1,
    ensures
        is_ascii_chars(json_escape(c)),
        json_escape(c)[0] == '\\',
{
    assert(c as u32 <= 0x7F);
}

/// A text whose JSON string holds no backslash stands in it as it is.
proof fn lemma_unescaped(t: Seq<char>)
    requires
        ({
            let bytes = encode_utf8(t.flat_map(|c: char| json_escape(c)));
            forall|k: int| 0 <= k < bytes.len() ==> bytes[k] != 0x5C
        }),
    ensures
        t.flat_map(|c: char| json_escape(c)) == t,
    decreases t.len(),
{
    let f = |c: char| json_escape(c);
    let all = t.flat_map(f);
    if t.len() == 0 {
        assert(t.map_values(f) =~= Seq::<Seq<char>>::empty());
        assert(all =~= t);
    } else {
        let rest = t.drop_first();
        let first = json_escape(t[0]);
        assert(t.map_values(f).drop_first() =~= rest.map_values(f));
        assert(all =~= first + rest.flat_map(f));
        lemma_encode_concat(first, rest.flat_map(f));
        let bytes = encode_utf8(all);
        let front = encode_utf8(first);
        let back = encode_utf8(rest.flat_map(f));
        assert forall|k: int| 0 <= k < back.len() implies back[k] != 0x5C by {
            assert(bytes[front.len() + k] == back[k]);
        }
        lemma_unescaped(rest);
        if first.len() > 1 {
            lemma_long_escape(t[0]);
            is_ascii_chars_encode_utf8(first);
            assert(front[0] == first[0] as u8);
            assert(bytes[0] == front[0]);
        }
        assert(all =~= t);
    }
}

/// The JSON string of a text is the key of that name, if `serde_json` reads it
/// back as it wrote it.
pub proof fn lemma_quoted_key(t: Seq<char>)
    requires
        json_string_decoded(json_string(t)) == Some(t),
    ensures
        key_text(json_string(t)) == Some(t),
{
    let flat = t.flat_map(|c: char| json_escape(c));
    let quote = seq!['"'];
    let raw = json_string(t);
    let inner = encode_utf8(flat);
    assert(is_ascii_chars(quote));
    is_ascii_chars_encode_utf8(quote);
    lemma_encode_concat(quote + flat, quote);
    lemma_encode_concat(quote, flat);
    assert(encode_utf8(quote) =~= seq![0x22u8]) by {
        assert(encode_utf8(quote)[0] == quote[0] as u8);
    }
    assert(raw =~= seq![0x22u8] + inner + seq![0x22u8]);
    assert(raw.subrange(1, raw.len() - 1) =~= inner);
    if !has_escape(raw, 0, raw.len() as int) {
        assert forall|k: int| 0 <= k < inner.len() implies inner[k] != 0x5C by {
            assert(raw[k + 1] == inner[k]);
        }
        lemma_unescaped(t);
        encode_utf8_valid_utf8(t);
        encode_utf8_decode_utf8(t);
    }
}

} // verus!
