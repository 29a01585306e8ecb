//! What a text becomes inside a JSON string, and how it is read back.
//!
//! Inside the quotes of a JSON string, the control characters, the quote,
//! the backslash and DEL are written as escape sequences; every other byte
//! stands as it is, the bytes of longer UTF-8 sequences too.
use vstd::prelude::*;
use vstd::utf8::{
    decode_utf8, encode_scalar, encode_utf8, encode_utf8_decode_utf8, is_char_boundary,
    is_char_boundary_iff_not_is_continuation_byte, length_of_first_scalar, pop_first_scalar,
    valid_first_scalar, valid_utf8, valid_utf8_concat, valid_utf8_split,
};
use crate::sink::{is_ascii_bytes, lemma_ascii_is_utf8};

verus! {

/// True of the bytes that may not stand as they are inside a JSON string:
/// the control characters, the quote, the backslash and DEL.
pub open spec fn needs_escape(c: u8) -> bool {
    c < 0x20 || c == '"' as u8 || c == '\\' as u8 || c == 0x7f
}

/// The lowercase hexadecimal digit for a value below sixteen.
pub open spec fn hex_digit(d: nat) -> u8
    recommends
        d < 16,
{
    if d < 10 {
        ('0' as u8 + d) as u8
    } else {
        ('a' as u8 + d - 10) as u8
    }
}

/// The escape sequence that stands for the byte `c` inside a JSON string.
pub open spec fn escape_text(c: u8) -> Seq<u8> {
    if c == '"' as u8 {
        seq!['\\' as u8, '"' as u8]
    } else if c == '\\' as u8 {
        seq!['\\' as u8, '\\' as u8]
    } else if c == '\n' as u8 {
        seq!['\\' as u8, 'n' as u8]
    } else if c == '\r' as u8 {
        seq!['\\' as u8, 'r' as u8]
    } else if c == '\t' as u8 {
        seq!['\\' as u8, 't' as u8]
    } else {
        seq![
            '\\' as u8,
            'u' as u8,
            '0' as u8,
            '0' as u8,
            hex_digit((c / 16) as nat),
            hex_digit((c % 16) as nat),
        ]
    }
}

/// What one byte of a text becomes inside a JSON string.
pub open spec fn escaped_byte(c: u8) -> Seq<u8> {
    if needs_escape(c) {
        escape_text(c)
    } else {
        seq![c]
    }
}

/// What a text becomes inside a JSON string: each byte is escaped or copied.
pub open spec fn escaped(bytes: Seq<u8>) -> Seq<u8>
    decreases bytes.len(),
{
    if bytes.len() == 0 {
        Seq::<u8>::empty()
    } else {
        escaped(bytes.drop_last()) + escaped_byte(bytes.last())
    }
}

/// The JSON string literal for a text given by its UTF-8 bytes.
pub open spec fn string_text(bytes: Seq<u8>) -> Seq<u8> {
    seq!['"' as u8] + escaped(bytes) + seq!['"' as u8]
}

/// True when no byte of `bytes` from `from` up to `to` needs an escape.
pub open spec fn is_clean(bytes: Seq<u8>, from: int, to: int) -> bool {
    forall|i: int| from <= i < to ==> !needs_escape(#[trigger] bytes[i])
}

/// Escaping goes byte by byte, so it distributes over concatenation.
pub proof fn lemma_escaped_concat(a: Seq<u8>, b: Seq<u8>)
    ensures
        escaped(a + b) == escaped(a) + escaped(b),
    decreases b.len(),
{
    if b.len() == 0 {
        assert(a + b =~= a);
        assert(escaped(a) + escaped(b) =~= escaped(a));
    } else {
        assert((a + b).drop_last() =~= a + b.drop_last());
        assert((a + b).last() == b.last());
        lemma_escaped_concat(a, b.drop_last());
        assert(escaped(a + b) =~= escaped(a) + escaped(b));
    }
}

/// A text without any byte that needs an escape is copied as it is.
pub proof fn lemma_escaped_clean(bytes: Seq<u8>)
    requires
        is_clean(bytes, 0, bytes.len() as int),
    ensures
        escaped(bytes) == bytes,
    decreases bytes.len(),
{
    if bytes.len() > 0 {
        let front = bytes.drop_last();
        assert forall|i: int| 0 <= i < front.len() implies !needs_escape(#[trigger] front[i]) by {
            assert(front[i] == bytes[i]);
        }
        lemma_escaped_clean(front);
        assert(escaped(bytes) =~= bytes);
    }
}

/// An escape sequence is made of ASCII bytes.
pub proof fn lemma_escape_text_ascii(c: u8)
    ensures
        is_ascii_bytes(escape_text(c)),
        valid_utf8(escape_text(c)),
{
    lemma_ascii_is_utf8(escape_text(c));
}

/// A well-formed text stays well-formed when it is cut on both sides of one of
/// its ASCII bytes.
pub proof fn lemma_split_at_ascii(s: Seq<u8>, k: int)
    requires
        valid_utf8(s),
        0 <= k < s.len(),
        s[k] < 0x80,
    ensures
        valid_utf8(s.subrange(0, k)),
        valid_utf8(s.subrange(k + 1, s.len() as int)),
{
    is_char_boundary_iff_not_is_continuation_byte(s, k);
    valid_utf8_split(s, k);
    let t = s.subrange(k, s.len() as int);
    assert(t[0] == s[k]);
    assert(length_of_first_scalar(t) == 1);
    assert(pop_first_scalar(t) =~= s.subrange(k + 1, s.len() as int));
}

/// Escaping keeps a well-formed text well-formed.
pub proof fn lemma_escaped_utf8(bytes: Seq<u8>)
    requires
        valid_utf8(bytes),
    ensures
        valid_utf8(escaped(bytes)),
    decreases bytes.len(),
{
    if bytes.len() > 0 {
        assert(valid_first_scalar(bytes));
        let width = length_of_first_scalar(bytes);
        assert(1 <= width <= bytes.len());
        let head = bytes.subrange(0, width);
        let rest = pop_first_scalar(bytes);
        assert(bytes =~= head + rest);
        lemma_escaped_concat(head, rest);
        lemma_escaped_utf8(rest);
        if width == 1 {
            assert(head =~= seq![bytes[0]]);
            assert(head.drop_last() =~= Seq::<u8>::empty());
            assert(escaped(head.drop_last()) =~= Seq::<u8>::empty());
            assert(escaped(head) =~= escaped_byte(bytes[0]));
            lemma_escape_text_ascii(bytes[0]);
            lemma_ascii_is_utf8(escaped_byte(bytes[0]));
        } else {
            reveal_with_fuel(is_char_boundary, 2);
            assert(is_char_boundary(bytes, width));
            valid_utf8_split(bytes, width);
            assert forall|i: int| 0 <= i < head.len() implies !needs_escape(#[trigger] head[i]) by {
                assert(head[i] == bytes[i]);
            }
            lemma_escaped_clean(head);
        }
        valid_utf8_concat(escaped(head), escaped(rest));
    }
}

/// A JSON string literal is well-formed UTF-8 when the text is.
pub proof fn lemma_string_text_utf8(bytes: Seq<u8>)
    requires
        valid_utf8(bytes),
    ensures
        valid_utf8(string_text(bytes)),
{
    let quote = seq!['"' as u8];
    lemma_ascii_is_utf8(quote);
    lemma_escaped_utf8(bytes);
    valid_utf8_concat(quote, escaped(bytes));
    valid_utf8_concat(quote + escaped(bytes), quote);
}

/// The byte that a two-byte escape stands for, by its second byte.
pub open spec fn short_escape(c: u8) -> Option<u8> {
    if c == '"' as u8 || c == '\\' as u8 || c == '/' as u8 {
        Some(c)
    } else if c == 'b' as u8 {
        Some(0x08u8)
    } else if c == 'f' as u8 {
        Some(0x0cu8)
    } else if c == 'n' as u8 {
        Some('\n' as u8)
    } else if c == 'r' as u8 {
        Some('\r' as u8)
    } else if c == 't' as u8 {
        Some('\t' as u8)
    } else {
        None
    }
}

/// The value of a hexadecimal digit of either case.
pub open spec fn hex_value(c: u8) -> Option<nat> {
    if '0' as u8 <= c <= '9' as u8 {
        Some((c - '0' as u8) as nat)
    } else if 'a' as u8 <= c <= 'f' as u8 {
        Some((c - 'a' as u8 + 10) as nat)
    } else if 'A' as u8 <= c <= 'F' as u8 {
        Some((c - 'A' as u8 + 10) as nat)
    } else {
        None
    }
}

/// The code unit that the four hexadecimal digits of a `\u` escape stand
/// for.
pub open spec fn hex4_value(a: u8, b: u8, c: u8, d: u8) -> Option<nat> {
    if hex_value(a) is Some && hex_value(b) is Some && hex_value(c) is Some && hex_value(d)
        is Some {
        Some(((hex_value(a)->0 * 16 + hex_value(b)->0) * 16 + hex_value(c)->0) * 16 + hex_value(d)->0)
    } else {
        None
    }
}

/// The UTF-8 bytes of the character that a `\u` escape names. A surrogate
/// names no character by itself.
pub open spec fn unit_bytes(unit: nat) -> Option<Seq<u8>> {
    if unit < 0x80 {
        Some(seq![unit as u8])
    } else if unit > 0xffff || 0xd800 <= unit <= 0xdfff {
        None
    } else {
        Some(encode_scalar(unit as u32))
    }
}

/// `head` in front of what was read behind it, if that could be read.
pub open spec fn read_on(head: Seq<u8>, tail: Option<Seq<u8>>) -> Option<Seq<u8>> {
    match tail {
        Some(bytes) => Some(head + bytes),
        None => None,
    }
}

/// What a JSON parser reads from the inside of a string literal: the bytes
/// of the text, or nothing where the inside is malformed.
pub open spec fn unescaped(body: Seq<u8>) -> Option<Seq<u8>>
    decreases body.len(),
{
    if body.len() == 0 {
        Some(Seq::<u8>::empty())
    } else if body[0] == '\\' as u8 {
        if body.len() >= 6 && body[1] == 'u' as u8 {
            match hex4_value(body[2], body[3], body[4], body[5]) {
                Some(unit) => match unit_bytes(unit) {
                    Some(bytes) => read_on(bytes, unescaped(body.subrange(6, body.len() as int))),
                    None => None,
                },
                None => None,
            }
        } else if body.len() >= 2 {
            match short_escape(body[1]) {
                Some(byte) => read_on(seq![byte], unescaped(body.subrange(2, body.len() as int))),
                None => None,
            }
        } else {
            None
        }
    } else if body[0] == '"' as u8 || body[0] < 0x20 {
        None
    } else {
        read_on(seq![body[0]], unescaped(body.subrange(1, body.len() as int)))
    }
}

/// What a JSON parser reads from a string literal: the bytes of the text
/// between the quotes, or nothing where the literal is malformed.
pub open spec fn parse_string(text: Seq<u8>) -> Option<Seq<u8>> {
    if text.len() >= 2 && text[0] == '"' as u8 && text.last() == '"' as u8 {
        unescaped(text.subrange(1, text.len() - 1))
    } else {
        None
    }
}

/// A byte is read back from what it became inside a string literal.
pub proof fn lemma_unescaped_byte(c: u8, tail: Seq<u8>)
    ensures
        unescaped(escaped_byte(c) + tail) == read_on(seq![c], unescaped(tail)),
{
    let body = escaped_byte(c) + tail;
    if !needs_escape(c) {
        assert(body[0] == c);
        assert(body.subrange(1, body.len() as int) =~= tail);
    } else if c == '"' as u8 || c == '\\' as u8 || c == '\n' as u8 || c == '\r' as u8 || c
        == '\t' as u8 {
        assert(body[0] == '\\' as u8);
        assert(body[1] == escape_text(c)[1]);
        assert(body.subrange(2, body.len() as int) =~= tail);
    } else {
        assert(body[0] == '\\' as u8);
        assert(body[1] == 'u' as u8);
        assert(body[2] == '0' as u8);
        assert(body[3] == '0' as u8);
        assert(body[4] == hex_digit((c / 16) as nat));
        assert(body[5] == hex_digit((c % 16) as nat));
        assert(hex_value(body[4]) == Some((c / 16) as nat));
        assert(hex_value(body[5]) == Some((c % 16) as nat));
        assert(hex4_value(body[2], body[3], body[4], body[5]) == Some(c as nat));
        assert(body.subrange(6, body.len() as int) =~= tail);
    }
}

/// A text is read back from what it became inside a string literal.
pub proof fn lemma_unescaped_escaped(bytes: Seq<u8>)
    ensures
        unescaped(escaped(bytes)) == Some(bytes),
    decreases bytes.len(),
{
    if bytes.len() == 0 {
        assert(escaped(bytes) =~= Seq::<u8>::empty());
    } else {
        let head = seq![bytes[0]];
        let rest = bytes.subrange(1, bytes.len() as int);
        assert(bytes =~= head + rest);
        lemma_escaped_concat(head, rest);
        assert(head.drop_last() =~= Seq::<u8>::empty());
        assert(escaped(head.drop_last()) =~= Seq::<u8>::empty());
        assert(escaped(head) =~= escaped_byte(bytes[0]));
        lemma_unescaped_escaped(rest);
        lemma_unescaped_byte(bytes[0], escaped(rest));
    }
}

/// Every text is read back from its string literal: a JSON parser that is
/// given the literal of `bytes` yields `bytes`, whatever control characters,
/// quotes, backslashes and bytes of longer characters they hold.
pub proof fn lemma_string_round_trip(bytes: Seq<u8>)
    ensures
        parse_string(string_text(bytes)) == Some(bytes),
{
    let text = string_text(bytes);
    assert(text.subrange(1, text.len() - 1) =~= escaped(bytes));
    lemma_unescaped_escaped(bytes);
}

/// Every string is read back from its JSON text: what a JSON parser reads
/// from the literal of the string `chars` is its UTF-8 encoding, which
/// decodes to `chars`.
pub proof fn lemma_str_round_trip(chars: Seq<char>)
    ensures
        parse_string(string_text(encode_utf8(chars))) == Some(encode_utf8(chars)),
        decode_utf8(encode_utf8(chars)) == chars,
{
    lemma_string_round_trip(encode_utf8(chars));
    encode_utf8_decode_utf8(chars);
}

} // verus!
