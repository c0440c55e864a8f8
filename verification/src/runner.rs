//! One run: which search a configuration asks for.

use vstd::prelude::*;
use vstd::string::*;
use crate::config::Config;
use crate::lines::lines_of;
use crate::search::{
    matching_lines, matching_lines_ignoring_case, search, search_case_insensitive,
};
use crate::subsequence::is_subsequence;

verus! {

/// The lines that a run picks from a file that holds `contents`: those in
/// which `query` occurs, with or without regard to letter case.
pub open spec fn selected_lines(query: Seq<char>, ignore_case: bool, contents: Seq<char>) -> Seq<
    Seq<char>,
> {
    if ignore_case {
        matching_lines_ignoring_case(query, contents)
    } else {
        matching_lines(query, contents)
    }
}

/// Returns the lines to print for a file that holds `contents`, in the
/// order in which they are to be printed: the search that `config` asks
/// for, run with its query.
///
/// Reading the file and writing the lines out is left to the caller.
pub fn run<'a>(config: &Config, contents: &'a str) -> (out: Vec<&'a str>)
    ensures
        out.deep_view() == selected_lines(config.query@, config.ignore_case, contents@),
        is_subsequence(out.deep_view(), lines_of(contents@)),
{
    if config.ignore_case {
        search_case_insensitive(config.query.as_str(), contents)
    } else {
        search(config.query.as_str(), contents)
    }
}

} // verus!
