//! Entry points: count the matches of selector chains in a document, or
//! capture the text of the first match of each.
use crate::predicates::Predicate;
use crate::selectors::{chains_of, counts_of, firsts_of, texts_of, TagPathHtmlSelector};
use vstd::prelude::*;

verus! {

/// For each chain of `matchers`, how many elements of `html` it matches.
pub fn count(html: &str, matchers: &Vec<&Vec<Predicate>>) -> (r: Vec<usize>)
    ensures
        r@.len() == matchers@.len(),
        forall|i: int|
            0 <= i < r@.len() ==> r@[i] as nat == #[trigger] counts_of(html@, chains_of(matchers@))[i],
{
    let mut html_selector = TagPathHtmlSelector::new();
    html_selector.count(html, matchers.as_slice())
}

/// For each chain of `matchers`, the text of the first element of `html`
/// that it matches, or an empty string.
pub fn find_first(html: &str, matchers: &Vec<&Vec<Predicate>>) -> (r: Vec<String>)
    ensures
        texts_of(r@) == firsts_of(html@, chains_of(matchers@)),
{
    let mut html_selector = TagPathHtmlSelector::new();
    html_selector.find_first(html, matchers.as_slice())
}

} // verus!
