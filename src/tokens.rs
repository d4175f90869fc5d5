//! Splitting raw text into tokens.

use vstd::prelude::*;

verus! {

/// The words of a text, in order, as `str::split_whitespace` finds them.
pub uninterp spec fn words_of(text: Seq<char>) -> Seq<Seq<char>>;

/// The views of a sequence of strings.
pub open spec fn views_of(v: Seq<String>) -> Seq<Seq<char>> {
    v.map_values(|s: String| s@)
}

/// Relies on `str::split_whitespace`: the words of the text, in order, none
/// of them empty; the result depends on the text alone.
#[verifier::external_body]
pub fn tokenize(text: &str) -> (r: Vec<String>)
    ensures
        views_of(r@) == words_of(text@),
        forall|i: int| 0 <= i < r@.len() ==> #[trigger] r@[i]@.len() > 0,
{
    text.split_whitespace().map(|w| w.to_string()).collect()
}

} // verus!
