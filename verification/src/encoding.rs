//! How a text and its UTF-8 bytes correspond.
//!
//! The executable code scans the bytes of a `&str`; the contracts speak of
//! its characters. The lemmas here carry facts from one side to the other:
//! where a text may be cut, and what the two parts then hold.

use vstd::prelude::*;
use vstd::utf8::*;

verus! {

/// Whether `c` is one of the 128 characters that UTF-8 encodes in one byte.
pub open spec fn is_ascii_char(c: char) -> bool {
    c as u32 <= 0x7f
}

/// Encoding distributes over concatenation.
pub proof fn lemma_encode_concat(a: Seq<char>, b: Seq<char>)
    ensures
        encode_utf8(a + b) == encode_utf8(a) + encode_utf8(b),
    decreases a.len(),
{
    if a.len() == 0 {
        assert(a + b == b);
    } else {
        assert((a + b).drop_first() == a.drop_first() + b);
        lemma_encode_concat(a.drop_first(), b);
    }
}

/// A one-byte character is encoded as the byte of the same number.
pub proof fn lemma_encode_ascii(c: char)
    requires
        is_ascii_char(c),
    ensures
        encode_utf8(seq![c]) == seq![c as u8],
{
    let s = seq![c];
    assert(is_ascii_chars(s));
    is_ascii_chars_encode_utf8(s);
    assert(encode_utf8(s)[0] == s[0] as u8);
}

/// Only the empty text has an empty encoding.
pub proof fn lemma_encode_len(chars: Seq<char>)
    ensures
        encode_utf8(chars).len() >= chars.len(),
    decreases chars.len(),
{
    if chars.len() > 0 {
        lemma_encode_len(chars.drop_first());
    }
}

/// Two texts with the same encoding are the same text.
pub proof fn lemma_encode_injective(a: Seq<char>, b: Seq<char>)
    requires
        encode_utf8(a) == encode_utf8(b),
    ensures
        a == b,
{
    encode_utf8_decode_utf8(a);
    encode_utf8_decode_utf8(b);
}

/// Cutting the encoding of `chars` at a character boundary cuts `chars`
/// itself: the two byte ranges encode two texts that together give `chars`.
pub proof fn lemma_split_at_boundary(chars: Seq<char>, at: int) -> (parts: (Seq<char>, Seq<char>))
    requires
        is_char_boundary(encode_utf8(chars), at),
    ensures
        0 <= at <= encode_utf8(chars).len(),
        chars == parts.0 + parts.1,
        encode_utf8(parts.0) == encode_utf8(chars).subrange(0, at),
        encode_utf8(parts.1) == encode_utf8(chars).subrange(at, encode_utf8(chars).len() as int),
{
    let bytes = encode_utf8(chars);
    encode_utf8_valid_utf8(chars);
    encode_utf8_decode_utf8(chars);
    lemma_boundary_in_range(bytes, at);
    valid_utf8_split(bytes, at);
    decode_utf8_split(bytes, at);
    let front = decode_utf8(bytes.subrange(0, at));
    let back = decode_utf8(bytes.subrange(at, bytes.len() as int));
    decode_utf8_encode_utf8(bytes.subrange(0, at));
    decode_utf8_encode_utf8(bytes.subrange(at, bytes.len() as int));
    (front, back)
}

/// A character boundary lies within the bytes.
pub proof fn lemma_boundary_in_range(bytes: Seq<u8>, at: int)
    requires
        valid_utf8(bytes),
        is_char_boundary(bytes, at),
    ensures
        0 <= at <= bytes.len(),
{
}

/// A byte below 0x80 in a valid encoding starts a character.
pub proof fn lemma_ascii_byte_is_boundary(bytes: Seq<u8>, at: int)
    requires
        valid_utf8(bytes),
        0 <= at < bytes.len(),
        bytes[at] <= 0x7f,
    ensures
        is_char_boundary(bytes, at),
        is_char_boundary(bytes, at + 1),
{
    is_char_boundary_iff_is_leading_byte(bytes, at);
    assert(is_leading_byte_width_1(bytes[at]));
    valid_utf8_split(bytes, at);
    let tail = bytes.subrange(at, bytes.len() as int);
    assert(tail[0] == bytes[at]);
    assert(is_char_boundary(tail, 1)) by {
        assert(length_of_first_scalar(tail) == 1);
        assert(valid_utf8(pop_first_scalar(tail)));
        reveal_with_fuel(is_char_boundary, 2);
    }
    lemma_boundary_after_boundary(bytes, at, 1);
}

/// A boundary of the part behind a boundary is a boundary of the whole.
pub proof fn lemma_boundary_after_boundary(bytes: Seq<u8>, at: int, more: int)
    requires
        valid_utf8(bytes),
        is_char_boundary(bytes, at),
        0 <= at <= bytes.len(),
        is_char_boundary(bytes.subrange(at, bytes.len() as int), more),
    ensures
        is_char_boundary(bytes, at + more),
    decreases at,
{
    valid_utf8_split(bytes, at);
    if at == 0 {
        assert(bytes.subrange(0, bytes.len() as int) == bytes);
    } else {
        let width = length_of_first_scalar(bytes);
        let rest = pop_first_scalar(bytes);
        assert(is_char_boundary(rest, at - width));
        lemma_boundary_in_range(rest, at - width);
        assert(rest.subrange(at - width, rest.len() as int) == bytes.subrange(
            at,
            bytes.len() as int,
        ));
        lemma_boundary_after_boundary(rest, at - width, more);
        lemma_boundary_in_range(bytes.subrange(at, bytes.len() as int), more);
    }
}

/// A byte below 0x80 in the encoding of `chars` is a character of `chars`:
/// the bytes before it encode the text before that character, and the bytes
/// behind it the text behind.
pub proof fn lemma_split_at_ascii_byte(chars: Seq<char>, at: int) -> (parts: (
    Seq<char>,
    Seq<char>,
))
    requires
        0 <= at < encode_utf8(chars).len(),
        encode_utf8(chars)[at] <= 0x7f,
    ensures
        chars == parts.0 + seq![encode_utf8(chars)[at] as char] + parts.1,
        encode_utf8(parts.0) == encode_utf8(chars).subrange(0, at),
        encode_utf8(parts.1) == encode_utf8(chars).subrange(
            at + 1,
            encode_utf8(chars).len() as int,
        ),
{
    let bytes = encode_utf8(chars);
    let byte = bytes[at];
    encode_utf8_valid_utf8(chars);
    lemma_ascii_byte_is_boundary(bytes, at);
    let (front, rest) = lemma_split_at_boundary(chars, at);
    let tail = encode_utf8(rest);
    assert(tail[0] == byte);
    assert(is_char_boundary(tail, 1)) by {
        encode_utf8_valid_utf8(rest);
        assert(length_of_first_scalar(tail) == 1);
        assert(valid_utf8(pop_first_scalar(tail)));
        reveal_with_fuel(is_char_boundary, 2);
    }
    let (one, back) = lemma_split_at_boundary(rest, 1);
    assert(encode_utf8(one) == seq![byte]);
    assert(encode_utf8(back) == bytes.subrange(at + 1, bytes.len() as int));
    assert(one == seq![byte as char]) by {
        lemma_encode_ascii(byte as char);
        lemma_encode_injective(one, seq![byte as char]);
    }
    (front, back)
}

/// Where a valid encoding begins with another valid encoding, the shorter
/// one ends at a character boundary of the longer.
pub proof fn lemma_valid_prefix_ends_at_boundary(whole: Seq<u8>, prefix: Seq<u8>)
    requires
        valid_utf8(whole),
        valid_utf8(prefix),
        prefix.is_prefix_of(whole),
    ensures
        is_char_boundary(whole, prefix.len() as int),
    decreases prefix.len(),
{
    if prefix.len() > 0 {
        assert(prefix[0] == whole[0]);
        let width = length_of_first_scalar(prefix);
        assert(width == length_of_first_scalar(whole));
        assert(width <= prefix.len());
        let prefix_rest = pop_first_scalar(prefix);
        let whole_rest = pop_first_scalar(whole);
        assert(prefix_rest.is_prefix_of(whole_rest)) by {
            assert(prefix_rest == whole_rest.subrange(0, prefix_rest.len() as int));
        }
        lemma_valid_prefix_ends_at_boundary(whole_rest, prefix_rest);
    }
}

} // verus!
