//! The search itself: the lines of a text in which a query occurs.

use vstd::prelude::*;
use vstd::string::*;
use crate::lines::{lines, lines_of};
use crate::lowercase::{lowercase_of, to_lowercase};
use crate::subsequence::{
    is_subsequence, lemma_filter_is_subsequence, lemma_filter_keeps_all, lemma_filter_narrower,
    lemma_subsequence_elements,
};
use crate::substring::{contains, lemma_empty_occurs_everywhere, occurs_in};

verus! {

/// The condition that `query` occurs in a line, letter case and all.
pub open spec fn holds(query: Seq<char>) -> spec_fn(Seq<char>) -> bool {
    |line: Seq<char>| occurs_in(query, line)
}

/// The condition that the lowercase form of `query` occurs in the lowercase
/// form of a line.
pub open spec fn holds_ignoring_case(query: Seq<char>) -> spec_fn(Seq<char>) -> bool {
    |line: Seq<char>| occurs_in(lowercase_of(query), lowercase_of(line))
}

/// The lines of `contents` in which `query` occurs, in their order.
pub open spec fn matching_lines(query: Seq<char>, contents: Seq<char>) -> Seq<Seq<char>> {
    lines_of(contents).filter(holds(query))
}

/// The lines of `contents` in whose lowercase form the lowercase form of
/// `query` occurs, in their order and as they stand in `contents`.
pub open spec fn matching_lines_ignoring_case(query: Seq<char>, contents: Seq<char>) -> Seq<
    Seq<char>,
> {
    lines_of(contents).filter(holds_ignoring_case(query))
}

/// Whether lowering both keeps `query` inside `line`, if it was there.
pub open spec fn lowering_keeps_occurrence(query: Seq<char>, line: Seq<char>) -> bool {
    occurs_in(query, line) ==> occurs_in(lowercase_of(query), lowercase_of(line))
}

/// Every line that the case-sensitive search returns holds the query.
pub proof fn lemma_matches_hold_query(query: Seq<char>, contents: Seq<char>)
    ensures
        forall|i: int|
            0 <= i < matching_lines(query, contents).len() ==> occurs_in(
                query,
                #[trigger] matching_lines(query, contents)[i],
            ),
{
    let found = matching_lines(query, contents);
    assert forall|i: int| 0 <= i < found.len() implies occurs_in(query, #[trigger] found[i]) by {
        lines_of(contents).lemma_filter_pred(holds(query), i);
    }
}

/// Both searches return lines of the text in the order of the text: what
/// they return is left when the other lines are taken out.
pub proof fn lemma_matches_keep_order(query: Seq<char>, contents: Seq<char>)
    ensures
        is_subsequence(matching_lines(query, contents), lines_of(contents)),
        is_subsequence(matching_lines_ignoring_case(query, contents), lines_of(contents)),
{
    lemma_filter_is_subsequence(lines_of(contents), holds(query));
    lemma_filter_is_subsequence(lines_of(contents), holds_ignoring_case(query));
}

/// The empty query matches every line: the case-sensitive search then
/// returns all lines of the text, as many and in the same order. So does
/// the other search whenever the lowercase form of the query is empty.
pub proof fn lemma_empty_query_matches_all(query: Seq<char>, contents: Seq<char>)
    ensures
        query.len() == 0 ==> matching_lines(query, contents) == lines_of(contents),
        lowercase_of(query).len() == 0 ==> matching_lines_ignoring_case(query, contents)
            == lines_of(contents),
{
    let all = lines_of(contents);
    if query.len() == 0 {
        assert(query == Seq::<char>::empty());
        assert forall|i: int| 0 <= i < all.len() implies holds(query)(#[trigger] all[i]) by {
            lemma_empty_occurs_everywhere(all[i]);
        }
        lemma_filter_keeps_all(all, holds(query));
    }
    if lowercase_of(query).len() == 0 {
        assert(lowercase_of(query) == Seq::<char>::empty());
        assert forall|i: int| 0 <= i < all.len() implies holds_ignoring_case(query)(
            #[trigger] all[i],
        ) by {
            lemma_empty_occurs_everywhere(lowercase_of(all[i]));
        }
        lemma_filter_keeps_all(all, holds_ignoring_case(query));
    }
}

/// The search that ignores case returns every line that the other search
/// returns, and in the same order, on every text in whose lines lowering
/// keeps the query where it occurs.
///
/// Lowering looks at what surrounds a letter, so it can part a query from a
/// line that holds it: the capital sigma at the end of a query becomes the
/// final small sigma, while inside a longer word of the line it becomes the
/// other one. On such a line the two searches disagree the other way round.
pub proof fn lemma_ignoring_case_matches_more(query: Seq<char>, contents: Seq<char>)
    requires
        forall|i: int|
            0 <= i < lines_of(contents).len() ==> lowering_keeps_occurrence(
                query,
                #[trigger] lines_of(contents)[i],
            ),
    ensures
        is_subsequence(
            matching_lines(query, contents),
            matching_lines_ignoring_case(query, contents),
        ),
        forall|i: int|
            0 <= i < matching_lines(query, contents).len() ==> matching_lines_ignoring_case(
                query,
                contents,
            ).contains(#[trigger] matching_lines(query, contents)[i]),
{
    let all = lines_of(contents);
    assert forall|i: int| 0 <= i < all.len() && holds(query)(#[trigger] all[i]) implies
        holds_ignoring_case(query)(all[i]) by {
        assert(lowering_keeps_occurrence(query, all[i]));
    }
    lemma_filter_narrower(all, holds(query), holds_ignoring_case(query));
    lemma_subsequence_elements(
        matching_lines(query, contents),
        matching_lines_ignoring_case(query, contents),
    );
}

/// Returns the lines of `contents` in which `query` occurs, in the order in
/// which they stand there. Each returned line is a part of `contents`.
///
/// The query is matched character for character, with regard to letter
/// case. The empty query occurs in every line.
pub fn search<'a>(query: &str, contents: &'a str) -> (out: Vec<&'a str>)
    ensures
        out.deep_view() == matching_lines(query@, contents@),
        forall|i: int| 0 <= i < out@.len() ==> occurs_in(query@, (#[trigger] out@[i])@),
        is_subsequence(out.deep_view(), lines_of(contents@)),
        query@.len() == 0 ==> out.deep_view() == lines_of(contents@),
{
    let all = lines(contents);
    let mut out: Vec<&'a str> = Vec::new();
    let mut next: usize = 0;
    while next < all.len()
        invariant
            next <= all@.len(),
            all.deep_view() == lines_of(contents@),
            out.deep_view() == all.deep_view().take(next as int).filter(holds(query@)),
        decreases all@.len() - next,
    {
        let line = all[next];
        let ghost before = out.deep_view();
        let ghost seen = all.deep_view().take(next as int);
        if contains(line, query) {
            out.push(line);
            assert(out.deep_view() == before.push(line@));
        }
        proof {
            assert(all.deep_view().take(next + 1) == seen.push(line@));
            seen.lemma_filter_push(line@, holds(query@));
        }
        next += 1;
    }
    proof {
        assert(all.deep_view().take(next as int) == all.deep_view());
        lemma_matches_hold_query(query@, contents@);
        lemma_matches_keep_order(query@, contents@);
        lemma_empty_query_matches_all(query@, contents@);
        assert forall|i: int| 0 <= i < out@.len() implies occurs_in(
            query@,
            (#[trigger] out@[i])@,
        ) by {
            assert(out.deep_view()[i] == out@[i]@);
        }
    }
    out
}

/// Returns the lines of `contents` in which `query` occurs when letter case
/// is ignored, in the order in which they stand there. Each returned line is
/// a part of `contents`, in its own spelling.
///
/// Query and line are both put in lowercase, each as a whole, and the one is
/// then looked for in the other character for character.
pub fn search_case_insensitive<'a>(query: &str, contents: &'a str) -> (out: Vec<&'a str>)
    ensures
        out.deep_view() == matching_lines_ignoring_case(query@, contents@),
        is_subsequence(out.deep_view(), lines_of(contents@)),
        query@.len() == 0 ==> out.deep_view() == lines_of(contents@),
{
    let lowered_query = to_lowercase(query);
    let all = lines(contents);
    let mut out: Vec<&'a str> = Vec::new();
    let mut next: usize = 0;
    while next < all.len()
        invariant
            next <= all@.len(),
            lowered_query@ == lowercase_of(query@),
            all.deep_view() == lines_of(contents@),
            out.deep_view() == all.deep_view().take(next as int).filter(
                holds_ignoring_case(query@),
            ),
        decreases all@.len() - next,
    {
        let line = all[next];
        let ghost before = out.deep_view();
        let ghost seen = all.deep_view().take(next as int);
        let lowered_line = to_lowercase(line);
        if contains(lowered_line.as_str(), lowered_query.as_str()) {
            out.push(line);
            assert(out.deep_view() == before.push(line@));
        }
        proof {
            assert(all.deep_view().take(next + 1) == seen.push(line@));
            seen.lemma_filter_push(line@, holds_ignoring_case(query@));
        }
        next += 1;
    }
    proof {
        assert(all.deep_view().take(next as int) == all.deep_view());
        lemma_matches_keep_order(query@, contents@);
        lemma_empty_query_matches_all(query@, contents@);
    }
    out
}

} // verus!
