//! A selector by tag names whose find-first answers one text: what lies
//! between the last matching start tag and the end tag that follows it.
use crate::chars::to_chars;
use crate::matcher_selector::{count_lone, lone_count};
use crate::predicates::Predicate;
use crate::selectors::texts_of;
use crate::tag_iterator::{document_events, lemma_spans, spans_from, Elements, EventModel, TagIterator};
use crate::tag_name_selector::{
    first_request, format_css_request, formatted_all, joined, name_counts_of, pop_name,
    TagNameHtmlSelector,
};
use vstd::prelude::*;

verus! {

/// The state of a single find-first pass by names: the open names, where
/// the content of the last match begins, and the text once found.
pub struct FirstTextModel {
    pub names: Seq<Seq<char>>,
    pub position: Option<int>,
    pub text: Option<Seq<char>>,
}

/// One event, spanning the characters `span`: nothing changes once the
/// text is found; a start tag adds its name and, when a request matches,
/// the content begins at the end of the tag; an end tag after a match ends
/// the text, else it drops the last name.
pub open spec fn first_text_step(
    st: FirstTextModel,
    e: EventModel,
    span: (int, int),
    html: Seq<char>,
    requests: Seq<Seq<char>>,
) -> FirstTextModel {
    if st.text is Some {
        st
    } else {
        match e {
            EventModel::Start(t, _, _) => {
                let names = st.names.push(t.name);
                FirstTextModel {
                    names: if t.is_autoclosing {
                        pop_name(names)
                    } else {
                        names
                    },
                    position: if first_request(joined(names), requests, 0) is Some {
                        Some(span.1)
                    } else {
                        st.position
                    },
                    text: None,
                }
            },
            EventModel::End(_, _, _) => match st.position {
                Some(a) => if 0 <= a <= span.0 <= html.len() {
                    FirstTextModel { text: Some(html.subrange(a, span.0)), ..st }
                } else {
                    FirstTextModel { names: pop_name(st.names), ..st }
                },
                None => FirstTextModel { names: pop_name(st.names), ..st },
            },
            _ => st,
        }
    }
}

/// The state after the first `n` events of `html`.
pub open spec fn first_text_after(html: Seq<char>, requests: Seq<Seq<char>>, n: nat) -> FirstTextModel
    decreases n,
{
    if n == 0 {
        FirstTextModel { names: Seq::empty(), position: None, text: None }
    } else {
        first_text_step(
            first_text_after(html, requests, (n - 1) as nat),
            document_events(html)[n - 1],
            spans_from(html, 0)[n - 1],
            html,
            requests,
        )
    }
}

/// The text that a single find-first pass answers: empty when none is found.
pub open spec fn first_text_of(html: Seq<char>, requests: Seq<Seq<char>>) -> Seq<char> {
    match first_text_after(html, requests, document_events(html).len()).text {
        Some(t) => t,
        None => Seq::empty(),
    }
}

proof fn lemma_text_stays(html: Seq<char>, requests: Seq<Seq<char>>, k: nat, n: nat)
    requires
        k <= n,
        first_text_after(html, requests, k).text is Some,
    ensures
        first_text_after(html, requests, n).text == first_text_after(html, requests, k).text,
    decreases n - k,
{
    if k < n {
        lemma_text_stays(html, requests, k, (n - 1) as nat);
    }
}

/// A selector by tag names.
pub struct HtmlSelector {
    names: TagNameHtmlSelector,
    find_first_position: Option<usize>,
}

impl HtmlSelector {
    /// A selector with no open tag.
    pub fn new() -> (r: HtmlSelector) {
        HtmlSelector { names: TagNameHtmlSelector::new(), find_first_position: None }
    }

    /// For each request, how many start tags of `html` it matches.
    pub fn count(&mut self, html: &str, css_requests: &[&str]) -> (r: Vec<usize>)
        ensures
            r@.len() == css_requests@.len(),
            forall|i: int|
                0 <= i < r@.len() ==> r@[i] as nat == #[trigger] name_counts_of(html@, formatted_all(css_requests@))[i],
    {
        self.names.count(html, css_requests)
    }

    /// How many start tags of `html` the predicate `f` holds of, each tag
    /// tested alone.
    pub fn count_with_matcher(&mut self, html: &str, f: &Predicate) -> (r: usize)
        ensures
            r as nat == lone_count(document_events(html@), *f),
    {
        count_lone(html, f)
    }

    /// The text between the last start tag that a request matches and the
    /// first end tag after it, or an empty string.
    pub fn find_first(&mut self, html: &str, css_requests: &[&str]) -> (r: String)
        ensures
            r@ == first_text_of(html@, formatted_all(css_requests@)),
    {
        let requests = format_css_request(css_requests);
        let ghost rs = formatted_all(css_requests@);
        assert(texts_of(requests@) =~= rs);
        let ghost all = document_events(html@);
        let ghost spans = spans_from(html@, 0);
        self.names = TagNameHtmlSelector::new();
        self.find_first_position = None;
        let chars = to_chars(html);
        let mut text: Option<String> = None;
        let mut iter = TagIterator::new(html);
        let ghost mut done: nat = 0;
        proof {
            lemma_spans(html@, 0);
        }
        loop
            invariant_except_break
                text is None,
                first_text_after(html@, rs, done).text is None,
            invariant
                iter.wf(),
                self.names.wf(),
                iter.document() == html@,
                chars@ == html@,
                spans.len() == all.len(),
                done <= all.len(),
                iter@ == all.skip(done as int),
                iter.spans() == spans.skip(done as int),
                spans == spans_from(html@, 0),
                rs == texts_of(requests@),
                all == document_events(html@),
                self.names.names() == first_text_after(html@, rs, done).names,
                match self.find_first_position {
                    Some(a) => first_text_after(html@, rs, done).position == Some(a as int),
                    None => first_text_after(html@, rs, done).position is None,
                },
            ensures
                match text {
                    Some(t) => first_text_after(html@, rs, all.len()).text == Some(t@),
                    None => first_text_after(html@, rs, all.len()).text is None,
                },
            decreases all.len() - done,
        {
            proof {
                iter.lemma_spans_ordered();
            }
            let begin_char = iter.position();
            match iter.next() {
                None => {
                    assert(all.skip(done as int).len() == 0);
                    break;
                },
                Some(element) => {
                    let end_char = iter.position();
                    proof {
                        assert(element@ == all[done as int]);
                        assert(spans[done as int] == (begin_char as int, end_char as int));
                    }
                    let ghost prev = first_text_after(html@, rs, done);
                    match element {
                        Elements::Start(tag, _, _) => {
                            let is_autoclosing = tag.is_autoclosing;
                            self.names.increase_path(tag.name);
                            if self.names.does_match_css_request(&requests).is_some() {
                                self.find_first_position = Some(end_char);
                            }
                            if is_autoclosing {
                                self.names.reduce_path();
                            }
                        },
                        Elements::End(_, _, _) => {
                            let mut found = false;
                            if let Some(position) = self.find_first_position {
                                if position <= begin_char && begin_char <= chars.len() {
                                    text = Some(crate::chars::string_of(chars.as_slice(), position, begin_char));
                                    found = true;
                                }
                            }
                            if !found {
                                self.names.reduce_path();
                            }
                        },
                        _ => {},
                    }
                    proof {
                        done = done + 1;
                        assert(iter@ =~= all.skip(done as int));
                        assert(iter.spans() =~= spans.skip(done as int));
                        let cur = first_text_after(html@, rs, done);
                        assert(cur == first_text_step(prev, all[done - 1], spans[done - 1], html@, rs));
                    }
                    if text.is_some() {
                        proof {
                            lemma_text_stays(html@, rs, done, all.len());
                        }
                        break;
                    }
                },
            }
        }
        match text {
            Some(t) => t,
            None => String::new(),
        }
    }
}

} // verus!
