//! Entry points that test each start tag alone with a predicate.
use crate::matcher_selector::{lone_count, lone_firsts_of, MatcherHtmlSelector};
use crate::predicates::Predicate;
use crate::selectors::texts_of;
use crate::tag_iterator::document_events;
use vstd::prelude::*;

verus! {

/// How many start tags of `html` the first predicate holds of.
pub fn count(html: &str, css_requests: &[Predicate]) -> (r: Vec<usize>)
    requires
        css_requests@.len() > 0,
    ensures
        r@.len() == 1,
        r@[0] as nat == lone_count(document_events(html@), css_requests@[0]),
{
    let mut html_selector = MatcherHtmlSelector::new();
    html_selector.count(html, css_requests)
}

/// For each predicate, the text of the first start tag of `html` that it
/// holds of, or an empty string.
pub fn find_first(html: &str, css_requests: &[Predicate]) -> (r: Vec<String>)
    ensures
        texts_of(r@) == lone_firsts_of(html@, css_requests@),
{
    let mut html_selector = MatcherHtmlSelector::new();
    html_selector.find_first(html, css_requests)
}

} // verus!
