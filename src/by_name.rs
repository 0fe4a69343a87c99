//! Entry points that select by tag names alone: each request is a
//! space-separated list of names, matched against the tail of the names of
//! the open tags.
use crate::selectors::texts_of;
use crate::tag_name_selector::{formatted_all, name_counts_of, name_firsts_of, TagNameHtmlSelector};
use vstd::prelude::*;

verus! {

/// For each request, how many start tags of `html` it matches.
pub fn count(html: &str, css_requests: &[&str]) -> (r: Vec<usize>)
    ensures
        r@.len() == css_requests@.len(),
        forall|i: int|
            0 <= i < r@.len() ==> r@[i] as nat == #[trigger] name_counts_of(html@, formatted_all(css_requests@))[i],
{
    let mut html_selector = TagNameHtmlSelector::new();
    html_selector.count(html, css_requests)
}

/// For each request, the text of the first start tag of `html` that it is
/// the first request to match, or an empty string.
pub fn find_first(html: &str, css_requests: &[&str]) -> (r: Vec<String>)
    ensures
        texts_of(r@) == name_firsts_of(html@, formatted_all(css_requests@)),
{
    let mut html_selector = TagNameHtmlSelector::new();
    html_selector.find_first(html, css_requests)
}

} // verus!
