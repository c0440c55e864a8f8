//! Lowercasing, as the standard library does it.

use vstd::prelude::*;

verus! {

/// The lowercase form of `text`: what `str::to_lowercase` returns for it.
///
/// The mapping follows the Unicode rules for whole strings, not character by
/// character: one character may become several, and the capital sigma
/// becomes one of two small letters, depending on what stands around it.
/// Nothing is stated of it here but that it is a function of the text.
pub uninterp spec fn lowercase_of(text: Seq<char>) -> Seq<char>;

/// Returns the lowercase form of `text`.
///
/// This calls `str::to_lowercase` and is not verified. Its contract names
/// the result `lowercase_of(text@)`, and adds the one fact that the search
/// relies on: the empty text, which has no character to map, stays empty.
#[verifier::external_body]
pub(crate) fn to_lowercase(text: &str) -> (lowered: String)
    ensures
        lowered@ == lowercase_of(text@),
        text@.len() == 0 ==> lowered@.len() == 0,
{
    text.to_lowercase()
}

} // verus!
