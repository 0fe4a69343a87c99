//! Selecting by one predicate on each start tag alone, without the path:
//! the nth-child index of a lone tag reads as 0.
use crate::chars::to_chars;
use crate::predicates::{holds, Predicate};
use crate::selectors::{
    capture, texts_of, FindFirstTextStore, HtmlSelectorCounter, HtmlSelectorFindFirst,
};
use crate::start_element::TagModel;
use crate::tag_iterator::{document_events, lemma_spans, spans_from, Elements, EventModel, TagIterator};
use crate::tag_path::{ItemModel, TagPathItem};
use vstd::prelude::*;

verus! {

/// A start tag as a frame of its own.
pub open spec fn lone(t: TagModel) -> ItemModel {
    ItemModel { tag: t, nth_child: 0 }
}

/// How many of `events` are start tags that `p` holds of.
pub open spec fn lone_count(events: Seq<EventModel>, p: Predicate) -> nat
    decreases events.len(),
{
    if events.len() == 0 {
        0
    } else {
        lone_count(events.drop_last(), p) + match events.last() {
            EventModel::Start(t, _, _) => if holds(p, lone(t)) {
                1nat
            } else {
                0nat
            },
            _ => 0nat,
        }
    }
}

/// The state of a find-first pass by predicates.
pub struct LoneFindModel {
    pub positions: Seq<Option<int>>,
    pub founds: Seq<Seq<char>>,
}

/// One event, spanning the characters `span`: each predicate that holds
/// of a start tag reads from its end on; an end tag gives each reading
/// predicate without text the text up to the tag.
pub open spec fn lone_find_step(
    st: LoneFindModel,
    e: EventModel,
    span: (int, int),
    html: Seq<char>,
    ps: Seq<Predicate>,
) -> LoneFindModel {
    match e {
        EventModel::Start(t, _, _) => LoneFindModel {
            positions: Seq::new(
                st.positions.len(),
                |i: int|
                    if holds(ps[i], lone(t)) {
                        Some(span.1)
                    } else {
                        st.positions[i]
                    },
            ),
            founds: st.founds,
        },
        EventModel::End(_, _, _) => LoneFindModel {
            positions: st.positions,
            founds: Seq::new(
                st.founds.len(),
                |i: int| capture(st.positions[i], st.founds[i], span.0, html),
            ),
        },
        _ => st,
    }
}

/// The state of a find-first pass by predicates after `n` events.
pub open spec fn lone_find_after(html: Seq<char>, ps: Seq<Predicate>, n: nat) -> LoneFindModel
    decreases n,
{
    if n == 0 {
        LoneFindModel {
            positions: Seq::new(ps.len(), |i: int| None),
            founds: Seq::new(ps.len(), |i: int| Seq::empty()),
        }
    } else {
        lone_find_step(
            lone_find_after(html, ps, (n - 1) as nat),
            document_events(html)[n - 1],
            spans_from(html, 0)[n - 1],
            html,
            ps,
        )
    }
}

/// For each predicate, the text of the first start tag of `html` that it
/// holds of, or nothing.
pub open spec fn lone_firsts_of(html: Seq<char>, ps: Seq<Predicate>) -> Seq<Seq<char>> {
    lone_find_after(html, ps, document_events(html).len()).founds
}

/// How many start tags of `html` the predicate `matcher` holds of, each
/// tag tested alone.
pub fn count_lone(html: &str, matcher: &Predicate) -> (r: usize)
    ensures
        r as nat == lone_count(document_events(html@), *matcher),
{
    let ghost all = document_events(html@);
    let mut count: usize = 0;
    let mut iter = TagIterator::new(html);
    let ghost mut done: nat = 0;
    loop
        invariant
            iter.wf(),
            iter.document() == html@,
            done <= all.len(),
            iter@ == all.skip(done as int),
            done <= iter.pos(),
            all == document_events(html@),
            count as nat == lone_count(all.take(done as int), *matcher),
            count <= done,
        ensures
            count as nat == lone_count(all, *matcher),
        decreases all.len() - done,
    {
        proof {
            iter.lemma_spans_ordered();
        }
        let ghost before = iter;
        match iter.next() {
            None => {
                assert(all.skip(done as int).len() == 0);
                assert(all.take(done as int) =~= all);
                break;
            },
            Some(element) => {
                proof {
                    assert(element@ == all[done as int]);
                    assert(before.spans()[0].0 < before.spans()[0].1);
                    assert(all.take(done as int + 1).drop_last() =~= all.take(done as int));
                    assert(all.take(done as int + 1).last() == all[done as int]);
                }
                if let Elements::Start(tag, _, _) = element {
                    let item = TagPathItem { tag: Box::new(tag), nth_child: 0 };
                    if matcher.matches(&item) {
                        count += 1;
                    }
                }
                proof {
                    done = done + 1;
                    assert(iter@ =~= all.skip(done as int));
                }
            },
        }
    }
    count
}

/// The engine that tests each start tag alone.
pub struct MatcherHtmlSelector {}

impl MatcherHtmlSelector {
    pub fn new() -> (r: MatcherHtmlSelector) {
        MatcherHtmlSelector {  }
    }

    /// How many start tags of `html` the first predicate holds of; the
    /// others are not read.
    pub fn count(&mut self, html: &str, matchers: &[Predicate]) -> (r: Vec<usize>)
        requires
            matchers@.len() > 0,
        ensures
            r@.len() == 1,
            r@[0] as nat == lone_count(document_events(html@), matchers@[0]),
    {
        let mut r: Vec<usize> = Vec::new();
        r.push(count_lone(html, &matchers[0]));
        r
    }

    /// For each predicate, the text of the first start tag of `html` that it
    /// holds of, or an empty string.
    pub fn find_first(&mut self, html: &str, matchers: &[Predicate]) -> (r: Vec<String>)
        ensures
            texts_of(r@) == lone_firsts_of(html@, matchers@),
    {
        let ghost ps = matchers@;
        let ghost all = document_events(html@);
        let ghost spans = spans_from(html@, 0);
        let chars = to_chars(html);
        let mut founds: Vec<String> = Vec::new();
        let mut k: usize = 0;
        while k < matchers.len()
            invariant
                k <= matchers@.len(),
                founds@.len() == k,
                forall|j: int| 0 <= j < k ==> founds@[j]@ == Seq::<char>::empty(),
            decreases matchers@.len() - k,
        {
            founds.push(String::new());
            k += 1;
        }
        let mut text_store = FindFirstTextStore::new(matchers.len());
        assert(texts_of(founds@) =~= lone_find_after(html@, ps, 0).founds);
        assert(text_store@ =~= lone_find_after(html@, ps, 0).positions);
        let mut iter = TagIterator::new(html);
        let ghost mut done: nat = 0;
        proof {
            lemma_spans(html@, 0);
        }
        loop
            invariant
                iter.wf(),
                iter.document() == html@,
                chars@ == html@,
                spans.len() == all.len(),
                ps == matchers@,
                lone_find_after(html@, ps, done).positions.len() == ps.len(),
                lone_find_after(html@, ps, done).founds.len() == ps.len(),
                founds@.len() == ps.len(),
                done <= all.len(),
                iter@ == all.skip(done as int),
                iter.spans() == spans.skip(done as int),
                spans == spans_from(html@, 0),
                all == document_events(html@),
                text_store@ == lone_find_after(html@, ps, done).positions,
                texts_of(founds@) == lone_find_after(html@, ps, done).founds,
            ensures
                done == all.len(),
                texts_of(founds@) == lone_find_after(html@, ps, done).founds,
            decreases all.len() - done,
        {
            proof {
                iter.lemma_spans_ordered();
            }
            let begin_char = iter.position();
            match iter.next() {
                None => {
                    assert(all.skip(done as int).len() == 0);
                    break;
                },
                Some(element) => {
                    let end_char = iter.position();
                    proof {
                        assert(element@ == all[done as int]);
                        assert(spans[done as int] == (begin_char as int, end_char as int));
                    }
                    let ghost prev = lone_find_after(html@, ps, done);
                    match element {
                        Elements::Start(tag, _, _) => {
                            let item = TagPathItem { tag: Box::new(tag), nth_child: 0 };
                            let ghost target = Seq::new(
                                prev.positions.len(),
                                |i: int|
                                    if holds(ps[i], item@) {
                                        Some(end_char as int)
                                    } else {
                                        prev.positions[i]
                                    },
                            );
                            let mut i: usize = 0;
                            while i < matchers.len()
                                invariant
                                    i <= matchers@.len(),
                                    ps == matchers@,
                                    text_store@.len() == matchers@.len(),
                                    prev.positions.len() == matchers@.len(),
                                    target == Seq::new(
                                        prev.positions.len(),
                                        |i: int|
                                            if holds(ps[i], item@) {
                                                Some(end_char as int)
                                            } else {
                                                prev.positions[i]
                                            },
                                    ),
                                    forall|j: int| 0 <= j < i ==> text_store@[j] == target[j],
                                    forall|j: int| i <= j < matchers@.len() ==> text_store@[j] == prev.positions[j],
                                decreases matchers@.len() - i,
                            {
                                if matchers[i].matches(&item) {
                                    text_store.store_starting_position(i, end_char);
                                }
                                i += 1;
                            }
                            assert(text_store@ =~= target);
                        },
                        Elements::End(_, _, _) => {
                            text_store.update_content(&mut founds, begin_char, chars.as_slice());
                        },
                        _ => {},
                    }
                    proof {
                        done = done + 1;
                        assert(iter@ =~= all.skip(done as int));
                        assert(iter.spans() =~= spans.skip(done as int));
                        let cur = lone_find_after(html@, ps, done);
                        assert(cur == lone_find_step(prev, all[done - 1], spans[done - 1], html@, ps));
                        assert(text_store@ =~= cur.positions);
                        assert forall|i: int| 0 <= i < founds@.len() implies #[trigger] founds@[i]@
                            == cur.founds[i] by {
                            assert(texts_of(founds@)[i] == founds@[i]@);
                        }
                        assert(texts_of(founds@) =~= cur.founds);
                    }
                },
            }
        }
        founds
    }
}

impl HtmlSelectorCounter<Predicate> for MatcherHtmlSelector {
    open spec fn accepts(requests: Seq<Predicate>) -> bool {
        requests.len() > 0
    }

    open spec fn counted(html: Seq<char>, requests: Seq<Predicate>) -> Seq<nat> {
        seq![lone_count(document_events(html), requests[0])]
    }

    fn count(&mut self, html: &str, css_requests: &[Predicate]) -> (r: Vec<usize>) {
        MatcherHtmlSelector::count(self, html, css_requests)
    }
}

impl HtmlSelectorFindFirst<Predicate> for MatcherHtmlSelector {
    open spec fn found(html: Seq<char>, requests: Seq<Predicate>) -> Seq<Seq<char>> {
        lone_firsts_of(html, requests)
    }

    fn find_first(&mut self, html: &str, css_requests: &[Predicate]) -> (r: Vec<String>) {
        MatcherHtmlSelector::find_first(self, html, css_requests)
    }
}

} // verus!
