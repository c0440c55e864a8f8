//! Splitting a text into its lines.
//!
//! A line ends at a line feed, or at a carriage return directly followed by
//! a line feed; neither belongs to the line. The last line may do without a
//! terminator, and a terminator at the very end opens no further line.

use vstd::prelude::*;
use vstd::string::*;
use vstd::utf8::*;
use crate::encoding::{
    lemma_ascii_byte_is_boundary, lemma_encode_ascii, lemma_encode_concat, lemma_encode_injective,
    lemma_encode_len, lemma_split_at_ascii_byte,
};

verus! {

/// The byte that encodes the line feed.
pub const LINE_FEED: u8 = 0x0a;

/// The byte that encodes the carriage return.
pub const CARRIAGE_RETURN: u8 = 0x0d;

/// The number of characters in front of the first line feed of `text`, or
/// the length of `text` if it holds no line feed.
pub open spec fn first_line_feed(text: Seq<char>) -> nat
    decreases text.len(),
{
    if text.len() == 0 || text[0] == '\n' {
        0
    } else {
        1 + first_line_feed(text.drop_first())
    }
}

/// `line` without the carriage return at its end, if it has one there.
pub open spec fn without_carriage_return(line: Seq<char>) -> Seq<char> {
    if line.len() > 0 && line.last() == '\r' {
        line.drop_last()
    } else {
        line
    }
}

/// The lines of `text`, in order and without their terminators.
///
/// A text that ends without a line feed has what follows its last line feed
/// as its last line, unchanged: a carriage return is dropped only in front
/// of a line feed.
pub open spec fn lines_of(text: Seq<char>) -> Seq<Seq<char>>
    decreases text.len(),
{
    let end = first_line_feed(text) as int;
    if text.len() == 0 {
        Seq::empty()
    } else if end >= text.len() {
        seq![text]
    } else {
        seq![without_carriage_return(text.take(end))] + lines_of(text.skip(end + 1))
    }
}

/// Where the first line feed stands: no line feed before it, one at it, and
/// the end of the text if there is none at all.
pub proof fn lemma_first_line_feed(text: Seq<char>)
    ensures
        first_line_feed(text) <= text.len(),
        forall|i: int| 0 <= i < first_line_feed(text) ==> text[i] != '\n',
        first_line_feed(text) < text.len() ==> text[first_line_feed(text) as int] == '\n',
    decreases text.len(),
{
    if text.len() > 0 && text[0] != '\n' {
        let rest = text.drop_first();
        lemma_first_line_feed(rest);
        assert forall|i: int| 0 <= i < first_line_feed(text) implies text[i] != '\n' by {
            if i > 0 {
                assert(text[i] == rest[i - 1]);
            }
        }
    }
}

/// A position that holds a line feed, with none before it, is the first.
pub proof fn lemma_first_line_feed_is(text: Seq<char>, at: int)
    requires
        0 <= at <= text.len(),
        forall|i: int| 0 <= i < at ==> text[i] != '\n',
        at < text.len() ==> text[at] == '\n',
    ensures
        first_line_feed(text) == at,
{
    lemma_first_line_feed(text);
    let first = first_line_feed(text) as int;
    if first < at {
        assert(text[first] == '\n');
    }
}

/// What `lines_of` gives for a text whose first line ends in a line feed:
/// that line, and then the lines of what follows the line feed.
pub proof fn lemma_lines_of_terminated(line: Seq<char>, rest: Seq<char>)
    requires
        forall|i: int| 0 <= i < line.len() ==> line[i] != '\n',
    ensures
        lines_of(line + seq!['\n'] + rest) == seq![without_carriage_return(line)] + lines_of(
            rest,
        ),
{
    let text = line + seq!['\n'] + rest;
    lemma_first_line_feed_is(text, line.len() as int);
    assert(text.take(line.len() as int) == line);
    assert(text.skip(line.len() + 1 as int) == rest);
}

/// What `lines_of` gives for a text without a line feed: the text itself as
/// its only line, unless it is empty.
pub proof fn lemma_lines_of_unterminated(text: Seq<char>)
    requires
        forall|i: int| 0 <= i < text.len() ==> text[i] != '\n',
    ensures
        lines_of(text) == if text.len() == 0 {
            Seq::<Seq<char>>::empty()
        } else {
            seq![text]
        },
{
    lemma_first_line_feed_is(text, text.len() as int);
}

/// A line feed at the very end opens no further line: a text whose last
/// line is unterminated has the same lines with a line feed behind it,
/// unless it ends in a carriage return, which the line feed would take along.
pub proof fn lemma_final_line_feed_adds_no_line(text: Seq<char>)
    requires
        text.len() > 0,
        text.last() != '\n',
        text.last() != '\r',
    ensures
        lines_of(text + seq!['\n']) == lines_of(text),
    decreases text.len(),
{
    lemma_first_line_feed(text);
    let end = first_line_feed(text) as int;
    if end >= text.len() {
        lemma_lines_of_terminated(text, Seq::empty());
        lemma_lines_of_unterminated(text);
        assert(text + seq!['\n'] + Seq::<char>::empty() == text + seq!['\n']);
    } else {
        let line = text.take(end);
        let rest = text.skip(end + 1);
        assert(text == line + seq!['\n'] + rest);
        assert(text + seq!['\n'] == line + seq!['\n'] + (rest + seq!['\n']));
        assert(rest.len() > 0 && rest.last() == text.last());
        lemma_lines_of_terminated(line, rest);
        lemma_lines_of_terminated(line, rest + seq!['\n']);
        lemma_final_line_feed_adds_no_line(rest);
    }
}

/// A text whose encoding holds no line feed byte holds no line feed.
proof fn lemma_no_line_feed_byte(text: Seq<char>)
    requires
        forall|i: int| 0 <= i < encode_utf8(text).len() ==> encode_utf8(text)[i] != LINE_FEED,
    ensures
        forall|i: int| 0 <= i < text.len() ==> text[i] != '\n',
{
    assert forall|i: int| 0 <= i < text.len() implies text[i] != '\n' by {
        if text[i] == '\n' {
            let front = text.take(i);
            let back = text.skip(i + 1);
            assert(text == front + seq!['\n'] + back);
            lemma_encode_concat(front + seq!['\n'], back);
            lemma_encode_concat(front, seq!['\n']);
            lemma_encode_ascii('\n');
            assert(encode_utf8(text)[encode_utf8(front).len() as int] == LINE_FEED);
        }
    }
}

/// The position of the first line feed byte in `bytes`, or their number if
/// there is none.
fn find_line_feed(bytes: &[u8]) -> (at: usize)
    ensures
        at <= bytes@.len(),
        forall|i: int| 0 <= i < at ==> bytes@[i] != LINE_FEED,
        at < bytes@.len() ==> bytes@[at as int] == LINE_FEED,
{
    let mut at: usize = 0;
    while at < bytes.len() && bytes[at] != LINE_FEED
        invariant
            at <= bytes@.len(),
            forall|i: int| 0 <= i < at ==> bytes@[i] != LINE_FEED,
        decreases bytes@.len() - at,
    {
        at += 1;
    }
    at
}

/// `line` without the carriage return at its end, if it has one there.
fn trim_carriage_return<'a>(line: &'a str) -> (trimmed: &'a str)
    ensures
        trimmed@ == without_carriage_return(line@),
{
    let bytes = line.as_bytes();
    let len = bytes.len();
    if len > 0 && bytes[len - 1] == CARRIAGE_RETURN {
        proof {
            let (front, back) = lemma_split_at_ascii_byte(line@, len - 1);
            lemma_encode_len(back);
            assert(back == Seq::<char>::empty());
            assert(line@ == front + seq!['\r']);
            assert(line@.drop_last() == front);
            encode_utf8_valid_utf8(line@);
            lemma_ascii_byte_is_boundary(bytes@, len - 1);
        }
        let (front, _) = line.split_at(len - 1);
        proof {
            lemma_encode_injective(front@, line@.drop_last());
        }
        front
    } else {
        proof {
            if line@.len() > 0 && line@.last() == '\r' {
                lemma_encode_concat(line@.drop_last(), seq!['\r']);
                lemma_encode_ascii('\r');
                assert(line@ == line@.drop_last() + seq!['\r']);
                assert(bytes@.last() == CARRIAGE_RETURN);
            }
        }
        line
    }
}

/// Splits `text` into its lines, each a part of `text` itself.
pub fn lines<'a>(text: &'a str) -> (out: Vec<&'a str>)
    ensures
        out.deep_view() == lines_of(text@),
{
    let mut out: Vec<&'a str> = Vec::new();
    let mut rest: &'a str = text;
    while !rest.is_empty()
        invariant
            lines_of(text@) == out.deep_view() + lines_of(rest@),
        decreases rest.spec_bytes().len(),
    {
        let bytes = rest.as_bytes();
        let at = find_line_feed(bytes);
        let ghost before = out.deep_view();
        if at == bytes.len() {
            proof {
                lemma_no_line_feed_byte(rest@);
                lemma_lines_of_unterminated(rest@);
                encode_utf8_valid_utf8(rest@);
                is_char_boundary_start_end_of_seq(bytes@);
            }
            let (line, end) = rest.split_at(at);
            proof {
                assert(bytes@.subrange(0, at as int) == bytes@);
                lemma_encode_injective(line@, rest@);
                lemma_encode_len(end@);
                assert(end@ == Seq::<char>::empty());
            }
            out.push(line);
            rest = end;
        } else {
            proof {
                encode_utf8_valid_utf8(rest@);
                lemma_ascii_byte_is_boundary(bytes@, at as int);
            }
            let (head, tail) = rest.split_at(at);
            let ghost mut following: Seq<char> = Seq::empty();
            proof {
                let (front, back) = lemma_split_at_ascii_byte(rest@, at as int);
                following = back;
                lemma_encode_injective(head@, front);
                lemma_no_line_feed_byte(front);
                lemma_lines_of_terminated(front, back);
                lemma_encode_concat(seq!['\n'], back);
                lemma_encode_ascii('\n');
                assert(tail.spec_bytes() == encode_utf8(seq!['\n'] + back));
                lemma_encode_injective(tail@, seq!['\n'] + back);
                encode_utf8_valid_utf8(tail@);
                lemma_ascii_byte_is_boundary(tail.spec_bytes(), 0);
            }
            let (_, after) = tail.split_at(1);
            proof {
                assert(after.spec_bytes() == bytes@.subrange(at + 1, bytes@.len() as int));
                lemma_encode_injective(after@, following);
            }
            let line = trim_carriage_return(head);
            out.push(line);
            rest = after;
        }
        proof {
            assert(out.deep_view() == before.push(out@.last()@));
        }
    }
    assert(out.deep_view() + lines_of(rest@) == out.deep_view());
    out
}

} // verus!
