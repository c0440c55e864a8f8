//! Whether one text occurs inside another.

use vstd::prelude::*;
use vstd::string::*;
use vstd::utf8::*;
use crate::encoding::{
    lemma_encode_concat, lemma_encode_injective, lemma_encode_len, lemma_split_at_boundary,
    lemma_valid_prefix_ends_at_boundary,
};

verus! {

/// Whether `needle` stands in `haystack` at position `at`, element for
/// element.
pub open spec fn occurs_at<T>(haystack: Seq<T>, needle: Seq<T>, at: int) -> bool {
    &&& 0 <= at
    &&& at + needle.len() <= haystack.len()
    &&& haystack.subrange(at, at + needle.len()) == needle
}

/// Whether `needle` occurs somewhere in `haystack` as a contiguous run.
/// The empty sequence occurs in every sequence.
pub open spec fn occurs_in<T>(needle: Seq<T>, haystack: Seq<T>) -> bool {
    exists|at: int| occurs_at(haystack, needle, at)
}

/// The empty sequence occurs in every sequence.
pub proof fn lemma_empty_occurs_everywhere<T>(haystack: Seq<T>)
    ensures
        occurs_in(Seq::<T>::empty(), haystack),
{
    assert(haystack.subrange(0, 0) == Seq::<T>::empty());
    assert(occurs_at(haystack, Seq::<T>::empty(), 0));
}

/// A text occurs in another exactly when its encoding occurs in the
/// encoding of the other: a run of bytes that spells a whole text can only
/// begin and end between characters.
pub proof fn lemma_occurs_in_encoding(needle: Seq<char>, haystack: Seq<char>)
    ensures
        occurs_in(encode_utf8(needle), encode_utf8(haystack)) <==> occurs_in(needle, haystack),
{
    let needle_bytes = encode_utf8(needle);
    let bytes = encode_utf8(haystack);
    if occurs_in(needle, haystack) {
        let at = choose|at: int| occurs_at(haystack, needle, at);
        let front = haystack.subrange(0, at);
        let back = haystack.subrange(at + needle.len(), haystack.len() as int);
        assert(haystack == front + needle + back);
        lemma_encode_concat(front + needle, back);
        lemma_encode_concat(front, needle);
        let start = encode_utf8(front).len() as int;
        assert(bytes.subrange(start, start + needle_bytes.len()) == needle_bytes);
        assert(occurs_at(bytes, needle_bytes, start));
    }
    if occurs_in(needle_bytes, bytes) {
        if needle.len() == 0 {
            lemma_empty_occurs_everywhere(haystack);
            assert(needle == Seq::<char>::empty());
        } else {
            let start = choose|at: int| occurs_at(bytes, needle_bytes, at);
            encode_utf8_valid_utf8(needle);
            encode_utf8_valid_utf8(haystack);
            lemma_encode_len(needle);
            assert(bytes[start] == needle_bytes[0]) by {
                assert(bytes.subrange(start, start + needle_bytes.len())[0] == needle_bytes[0]);
            }
            is_char_boundary_iff_not_is_continuation_byte(needle_bytes, 0);
            is_char_boundary_iff_not_is_continuation_byte(bytes, start);
            let (front, rest) = lemma_split_at_boundary(haystack, start);
            let rest_bytes = encode_utf8(rest);
            encode_utf8_valid_utf8(rest);
            assert(needle_bytes.is_prefix_of(rest_bytes)) by {
                assert(rest_bytes.subrange(0, needle_bytes.len() as int) == bytes.subrange(
                    start,
                    start + needle_bytes.len(),
                ));
            }
            lemma_valid_prefix_ends_at_boundary(rest_bytes, needle_bytes);
            let (middle, back) = lemma_split_at_boundary(rest, needle_bytes.len() as int);
            lemma_encode_injective(middle, needle);
            assert(haystack == front + needle + back);
            assert(haystack.subrange(front.len() as int, front.len() + needle.len() as int) == needle);
            assert(occurs_at(haystack, needle, front.len() as int));
        }
    }
}

/// Whether the bytes of `needle` stand in `haystack` at byte `at`.
fn bytes_occur_at(haystack: &[u8], needle: &[u8], at: usize) -> (found: bool)
    requires
        at + needle@.len() <= haystack@.len(),
    ensures
        found == occurs_at(haystack@, needle@, at as int),
{
    let len = haystack.len();
    let mut i: usize = 0;
    while i < needle.len()
        invariant
            i <= needle@.len(),
            at + needle@.len() <= haystack@.len() == len,
            forall|j: int| 0 <= j < i ==> haystack@[at + j] == needle@[j],
        decreases needle@.len() - i,
    {
        if haystack[at + i] != needle[i] {
            assert(haystack@.subrange(at as int, at + needle@.len())[i as int] != needle@[i as int]);
            return false;
        }
        i += 1;
    }
    assert(haystack@.subrange(at as int, at + needle@.len()) == needle@);
    true
}

/// Whether `needle` occurs in `haystack`, character for character.
///
/// The empty `needle` occurs in every `haystack`.
pub fn contains(haystack: &str, needle: &str) -> (found: bool)
    ensures
        found == occurs_in(needle@, haystack@),
{
    let bytes = haystack.as_bytes();
    let needle_bytes = needle.as_bytes();
    proof {
        lemma_occurs_in_encoding(needle@, haystack@);
    }
    if needle_bytes.len() > bytes.len() {
        return false;
    }
    let last: usize = bytes.len() - needle_bytes.len();
    let mut at: usize = 0;
    loop
        invariant
            at <= last == bytes@.len() - needle_bytes@.len(),
            forall|j: int| 0 <= j < at ==> !occurs_at(bytes@, needle_bytes@, j),
            occurs_in(needle_bytes@, bytes@) <==> occurs_in(needle@, haystack@),
        decreases last - at,
    {
        if bytes_occur_at(bytes, needle_bytes, at) {
            return true;
        }
        if at == last {
            return false;
        }
        at += 1;
    }
}

} // verus!
