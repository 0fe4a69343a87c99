//! Selecting by tag names alone: a request is a space-separated list of tag
//! names, and it matches when the names of the open tags, joined by
//! spaces, end with it.
use crate::chars::{push_char, to_chars};
use crate::predicates::{ends_with, ends_with_exec};
use crate::selectors::{
    capture, texts_of, FindFirstTextStore, HtmlSelectorCounter, HtmlSelectorFindFirst,
};
use crate::tag_iterator::{document_events, lemma_spans, spans_from, Elements, EventModel, TagIterator};
use vstd::prelude::*;

verus! {

/// `r` with a space put before it, unless it begins with one.
pub open spec fn formatted(r: Seq<char>) -> Seq<char> {
    if r.len() > 0 && r[0] == ' ' {
        r
    } else {
        seq![' '] + r
    }
}

/// Each request begins with a space, so that a name in it matches a whole
/// name of the path.
pub fn format_css_request(css_requests: &[&str]) -> (r: Vec<String>)
    ensures
        r@.len() == css_requests@.len(),
        forall|i: int| 0 <= i < r@.len() ==> #[trigger] r@[i]@ == formatted(css_requests@[i]@),
{
    let mut r: Vec<String> = Vec::new();
    let mut i: usize = 0;
    while i < css_requests.len()
        invariant
            i <= css_requests@.len(),
            r@.len() == i,
            forall|j: int| 0 <= j < i ==> #[trigger] r@[j]@ == formatted(css_requests@[j]@),
        decreases css_requests@.len() - i,
    {
        let request: &str = css_requests[i];
        let chars = to_chars(request);
        let mut s = String::new();
        if !(chars.len() > 0 && chars[0] == ' ') {
            push_char(&mut s, ' ');
        }
        let mut k: usize = 0;
        while k < chars.len()
            invariant
                k <= chars@.len(),
                chars@ == request@,
                s@ == (if chars@.len() > 0 && chars@[0] == ' ' {
                    Seq::<char>::empty()
                } else {
                    seq![' ']
                }) + chars@.take(k as int),
            decreases chars@.len() - k,
        {
            push_char(&mut s, chars[k]);
            k += 1;
            assert(chars@.take(k as int) =~= chars@.take(k - 1).push(chars@[k - 1]));
        }
        assert(chars@.take(chars@.len() as int) =~= chars@);
        assert(s@ =~= formatted(request@));
        r.push(s);
        i += 1;
    }
    r
}

/// The names of `names`, joined by single spaces.
pub open spec fn joined(names: Seq<Seq<char>>) -> Seq<char>
    decreases names.len(),
{
    if names.len() == 0 {
        Seq::empty()
    } else if names.len() == 1 {
        names[0]
    } else {
        joined(names.drop_last()) + seq![' '] + names.last()
    }
}

/// `names` without its last name; unchanged when empty.
pub open spec fn pop_name(names: Seq<Seq<char>>) -> Seq<Seq<char>> {
    if names.len() == 0 {
        names
    } else {
        names.drop_last()
    }
}

/// The state of a count by names: the open names and one count per request.
pub struct NameCountModel {
    pub names: Seq<Seq<char>>,
    pub counts: Seq<nat>,
}

/// One event of a count by names: a start tag adds its name, and each
/// request that the joined names end with counts one; an end tag drops the
/// last name.
pub open spec fn name_count_step(st: NameCountModel, e: EventModel, requests: Seq<Seq<char>>) -> NameCountModel {
    match e {
        EventModel::Start(t, _, _) => {
            let names = st.names.push(t.name);
            NameCountModel {
                names: if t.is_autoclosing {
                    pop_name(names)
                } else {
                    names
                },
                counts: Seq::new(
                    st.counts.len(),
                    |i: int|
                        if ends_with(joined(names), requests[i]) {
                            st.counts[i] + 1
                        } else {
                            st.counts[i]
                        },
                ),
            }
        },
        EventModel::End(_, _, _) => NameCountModel { names: pop_name(st.names), counts: st.counts },
        _ => st,
    }
}

/// The state of a count by names after the first `n` events of `html`.
pub open spec fn name_count_after(html: Seq<char>, requests: Seq<Seq<char>>, n: nat) -> NameCountModel
    decreases n,
{
    if n == 0 {
        NameCountModel { names: Seq::empty(), counts: Seq::new(requests.len(), |i: int| 0nat) }
    } else {
        name_count_step(name_count_after(html, requests, (n - 1) as nat), document_events(html)[n - 1], requests)
    }
}

/// For each request, how many start tags of `html` it matches.
pub open spec fn name_counts_of(html: Seq<char>, requests: Seq<Seq<char>>) -> Seq<nat> {
    name_count_after(html, requests, document_events(html).len()).counts
}

/// The index of the first request that the joined names end with.
pub open spec fn first_request(path: Seq<char>, requests: Seq<Seq<char>>, from: int) -> Option<int>
    decreases requests.len() - from,
{
    if from < 0 || from >= requests.len() {
        None
    } else if ends_with(path, requests[from]) {
        Some(from)
    } else {
        first_request(path, requests, from + 1)
    }
}

/// The state of a find-first pass by names.
pub struct NameFindModel {
    pub names: Seq<Seq<char>>,
    pub positions: Seq<Option<int>>,
    pub founds: Seq<Seq<char>>,
}

/// One event, spanning the characters `span`, of a find-first pass by
/// names: a start tag adds its name, and the first request that matches
/// reads from the end of the tag on; an end tag drops the last name and
/// gives each reading request without text the text up to the tag.
pub open spec fn name_find_step(
    st: NameFindModel,
    e: EventModel,
    span: (int, int),
    html: Seq<char>,
    requests: Seq<Seq<char>>,
) -> NameFindModel {
    match e {
        EventModel::Start(t, _, _) => {
            let names = st.names.push(t.name);
            NameFindModel {
                names: if t.is_autoclosing {
                    pop_name(names)
                } else {
                    names
                },
                positions: match first_request(joined(names), requests, 0) {
                    Some(i) => if i < st.positions.len() {
                        st.positions.update(i, Some(span.1))
                    } else {
                        st.positions
                    },
                    None => st.positions,
                },
                founds: st.founds,
            }
        },
        EventModel::End(_, _, _) => NameFindModel {
            names: pop_name(st.names),
            positions: st.positions,
            founds: Seq::new(
                st.founds.len(),
                |i: int| capture(st.positions[i], st.founds[i], span.0, html),
            ),
        },
        _ => st,
    }
}

/// The state of a find-first pass by names after the first `n` events.
pub open spec fn name_find_after(html: Seq<char>, requests: Seq<Seq<char>>, n: nat) -> NameFindModel
    decreases n,
{
    if n == 0 {
        NameFindModel {
            names: Seq::empty(),
            positions: Seq::new(requests.len(), |i: int| None),
            founds: Seq::new(requests.len(), |i: int| Seq::empty()),
        }
    } else {
        name_find_step(
            name_find_after(html, requests, (n - 1) as nat),
            document_events(html)[n - 1],
            spans_from(html, 0)[n - 1],
            html,
            requests,
        )
    }
}

/// For each request, the text of its first match in `html`, or nothing.
pub open spec fn name_firsts_of(html: Seq<char>, requests: Seq<Seq<char>>) -> Seq<Seq<char>> {
    name_find_after(html, requests, document_events(html).len()).founds
}

/// The formatted views of a list of requests.
pub open spec fn formatted_all(rs: Seq<&str>) -> Seq<Seq<char>> {
    rs.map_values(|r: &str| formatted(r@))
}

/// The engine that selects by tag names. A request matches when the names
/// of the open tags, joined by single spaces, end with it; formatting puts
/// a space before each request, so the outermost open tag cannot match.
pub struct TagNameHtmlSelector {
    tag_name_path: Vec<String>,
    tag_name_path_string: String,
}

impl TagNameHtmlSelector {
    /// The names of the open tags, root first.
    pub closed spec fn names(&self) -> Seq<Seq<char>> {
        texts_of(self.tag_name_path@)
    }

    /// The joined names are kept in step with the names.
    pub closed spec fn wf(&self) -> bool {
        self.tag_name_path_string@ == joined(texts_of(self.tag_name_path@))
    }

    /// An engine with no open tag.
    pub fn new() -> (r: TagNameHtmlSelector)
        ensures
            r.wf(),
            r.names() == Seq::<Seq<char>>::empty(),
    {
        let r = TagNameHtmlSelector { tag_name_path: Vec::new(), tag_name_path_string: String::new() };
        assert(texts_of(r.tag_name_path@) =~= Seq::<Seq<char>>::empty());
        r
    }

    /// Joins the open names again.
    fn join_path(&mut self)
        ensures
            final(self).wf(),
            final(self).tag_name_path == old(self).tag_name_path,
    {
        let mut s = String::new();
        let mut i: usize = 0;
        let ghost names = texts_of(self.tag_name_path@);
        while i < self.tag_name_path.len()
            invariant
                i <= self.tag_name_path@.len(),
                names == texts_of(self.tag_name_path@),
                s@ == joined(names.take(i as int)),
            decreases self.tag_name_path@.len() - i,
        {
            let name = to_chars(self.tag_name_path[i].as_str());
            let ghost before = s@;
            if i > 0 {
                push_char(&mut s, ' ');
            }
            let mut k: usize = 0;
            while k < name.len()
                invariant
                    k <= name@.len(),
                    s@ == (if i > 0 {
                        before + seq![' ']
                    } else {
                        before
                    }) + name@.take(k as int),
                decreases name@.len() - k,
            {
                push_char(&mut s, name[k]);
                k += 1;
                assert(name@.take(k as int) =~= name@.take(k - 1).push(name@[k - 1]));
            }
            proof {
                assert(name@.take(name@.len() as int) =~= name@);
                assert(names.take(i + 1).drop_last() =~= names.take(i as int));
                assert(names[i as int] == name@);
                if i == 0 {
                    assert(names.take(0) =~= Seq::<Seq<char>>::empty());
                    assert(s@ =~= joined(names.take(1)));
                } else {
                    assert(s@ =~= joined(names.take(i + 1)));
                }
            }
            i += 1;
        }
        assert(names.take(names.len() as int) =~= names);
        self.tag_name_path_string = s;
    }

    /// Adds the name of a start tag.
    pub(crate) fn increase_path(&mut self, name: String)
        ensures
            final(self).wf(),
            final(self).names() == old(self).names().push(name@),
    {
        self.tag_name_path.push(name);
        assert(texts_of(self.tag_name_path@) =~= old(self).names().push(name@));
        self.join_path();
    }

    /// Drops the last name.
    pub(crate) fn reduce_path(&mut self)
        ensures
            final(self).wf(),
            final(self).names() == pop_name(old(self).names()),
    {
        let _ = self.tag_name_path.pop();
        assert(texts_of(self.tag_name_path@) =~= pop_name(old(self).names()));
        self.join_path();
    }

    /// Whether the joined names end with `request`.
    fn match_request(&self, request: &String) -> (r: bool)
        requires
            self.wf(),
        ensures
            r == ends_with(joined(self.names()), request@),
    {
        let path = to_chars(self.tag_name_path_string.as_str());
        let request = to_chars(request.as_str());
        ends_with_exec(path.as_slice(), request.as_slice())
    }

    /// The index of the first request that the joined names end with.
    pub(crate) fn does_match_css_request(&self, css_requests: &Vec<String>) -> (r: Option<usize>)
        requires
            self.wf(),
        ensures
            match r {
                Some(i) => first_request(joined(self.names()), texts_of(css_requests@), 0) == Some(i as int),
                None => first_request(joined(self.names()), texts_of(css_requests@), 0) is None,
            },
    {
        let ghost rs = texts_of(css_requests@);
        let mut i: usize = 0;
        while i < css_requests.len()
            invariant
                i <= css_requests@.len(),
                rs == texts_of(css_requests@),
                self.wf(),
                first_request(joined(self.names()), rs, 0) == first_request(joined(self.names()), rs, i as int),
            decreases css_requests@.len() - i,
        {
            if self.match_request(&css_requests[i]) {
                return Some(i);
            }
            i += 1;
        }
        None
    }

    /// Adds one to the count of each request that the joined names end with.
    fn search_for_css(&self, css_requests: &Vec<String>, counts: &mut Vec<usize>, bound: Ghost<nat>)
        requires
            self.wf(),
            old(counts)@.len() == css_requests@.len(),
            forall|i: int| 0 <= i < old(counts)@.len() ==> old(counts)@[i] < bound@,
            bound@ <= usize::MAX,
        ensures
            final(counts)@.len() == old(counts)@.len(),
            forall|i: int|
                0 <= i < final(counts)@.len() ==> #[trigger] final(counts)@[i] == if ends_with(
                    joined(self.names()),
                    css_requests@[i]@,
                ) {
                    old(counts)@[i] + 1
                } else {
                    old(counts)@[i] as int
                },
    {
        let mut i: usize = 0;
        while i < css_requests.len()
            invariant
                self.wf(),
                i <= css_requests@.len(),
                counts@.len() == css_requests@.len(),
                old(counts)@.len() == css_requests@.len(),
                forall|j: int| 0 <= j < old(counts)@.len() ==> old(counts)@[j] < bound@,
                bound@ <= usize::MAX,
                forall|j: int| i <= j < counts@.len() ==> counts@[j] == old(counts)@[j],
                forall|j: int|
                    0 <= j < i ==> #[trigger] counts@[j] == if ends_with(
                        joined(self.names()),
                        css_requests@[j]@,
                    ) {
                        old(counts)@[j] + 1
                    } else {
                        old(counts)@[j] as int
                    },
            decreases css_requests@.len() - i,
        {
            if self.match_request(&css_requests[i]) {
                let c = counts[i];
                counts.set(i, c + 1);
            }
            i += 1;
        }
    }

    /// For each request, how many start tags of `html` it matches, in one
    /// pass with no open tag at first.
    pub fn count(&mut self, html: &str, css_requests: &[&str]) -> (r: Vec<usize>)
        ensures
            r@.len() == css_requests@.len(),
            forall|i: int|
                0 <= i < r@.len() ==> r@[i] as nat == #[trigger] name_counts_of(html@, formatted_all(css_requests@))[i],
    {
        let requests = format_css_request(css_requests);
        assert(texts_of(requests@) =~= formatted_all(css_requests@));
        self.count_requests(html, &requests)
    }

    /// For each of `requests`, taken as they are, how many start tags of
    /// `html` it matches.
    pub fn count_requests(&mut self, html: &str, requests: &Vec<String>) -> (r: Vec<usize>)
        ensures
            r@.len() == requests@.len(),
            forall|i: int|
                0 <= i < r@.len() ==> r@[i] as nat == #[trigger] name_counts_of(html@, texts_of(requests@))[i],
    {
        let ghost rs = texts_of(requests@);
        let ghost all = document_events(html@);
        *self = TagNameHtmlSelector::new();
        let mut counts: Vec<usize> = Vec::new();
        let mut k: usize = 0;
        while k < requests.len()
            invariant
                k <= requests@.len(),
                counts@.len() == k,
                forall|j: int| 0 <= j < k ==> counts@[j] == 0,
            decreases requests@.len() - k,
        {
            counts.push(0);
            k += 1;
        }
        let mut iter = TagIterator::new(html);
        let ghost mut done: nat = 0;
        loop
            invariant
                iter.wf(),
                self.wf(),
                iter.document() == html@,
                done <= all.len(),
                iter@ == all.skip(done as int),
                done <= iter.pos(),
                rs == texts_of(requests@),
                all == document_events(html@),
                self.names() == name_count_after(html@, rs, done).names,
                counts@.len() == rs.len(),
                name_count_after(html@, rs, done).counts.len() == rs.len(),
                forall|i: int| 0 <= i < counts@.len() ==> counts@[i] as nat == #[trigger] name_count_after(html@, rs, done).counts[i],
                forall|i: int| 0 <= i < counts@.len() ==> counts@[i] <= done,
            ensures
                done == all.len(),
                forall|i: int| 0 <= i < counts@.len() ==> counts@[i] as nat == #[trigger] name_count_after(html@, rs, done).counts[i],
            decreases all.len() - done,
        {
            proof {
                iter.lemma_spans_ordered();
            }
            let ghost before = iter;
            match iter.next() {
                None => {
                    assert(all.skip(done as int).len() == 0);
                    break;
                },
                Some(element) => {
                    proof {
                        assert(element@ == all[done as int]);
                        assert(before.spans()[0].0 < before.spans()[0].1);
                    }
                    match element {
                        Elements::Start(tag, _, _) => {
                            let is_autoclosing = tag.is_autoclosing;
                            self.increase_path(tag.name);
                            self.search_for_css(&requests, &mut counts, Ghost((done + 1) as nat));
                            if is_autoclosing {
                                self.reduce_path();
                            }
                        },
                        Elements::End(_, _, _) => {
                            self.reduce_path();
                        },
                        _ => {},
                    }
                    proof {
                        let prev = name_count_after(html@, rs, done);
                        done = done + 1;
                        assert(iter@ =~= all.skip(done as int));
                        let cur = name_count_after(html@, rs, done);
                        assert(cur == name_count_step(prev, all[done - 1], rs));
                        assert(forall|i: int| 0 <= i < rs.len() ==> rs[i] == requests@[i]@);
                        assert forall|i: int| 0 <= i < counts@.len() implies counts@[i] as nat == #[trigger] cur.counts[i] by {
                        }
                    }
                },
            }
        }
        counts
    }

    /// For each request, the text of the first start tag of `html` that it
    /// is the first request to match, or an empty string.
    pub fn find_first(&mut self, html: &str, css_requests: &[&str]) -> (r: Vec<String>)
        ensures
            texts_of(r@) == name_firsts_of(html@, formatted_all(css_requests@)),
    {
        let requests = format_css_request(css_requests);
        let ghost rs = formatted_all(css_requests@);
        assert(texts_of(requests@) =~= rs);
        let ghost all = document_events(html@);
        let ghost spans = spans_from(html@, 0);
        *self = TagNameHtmlSelector::new();
        let chars = to_chars(html);
        let mut founds: Vec<String> = Vec::new();
        let mut k: usize = 0;
        while k < requests.len()
            invariant
                k <= requests@.len(),
                founds@.len() == k,
                forall|j: int| 0 <= j < k ==> founds@[j]@ == Seq::<char>::empty(),
            decreases requests@.len() - k,
        {
            founds.push(String::new());
            k += 1;
        }
        let mut text_store = FindFirstTextStore::new(requests.len());
        assert(texts_of(founds@) =~= name_find_after(html@, rs, 0).founds);
        assert(text_store@ =~= name_find_after(html@, rs, 0).positions);
        let mut iter = TagIterator::new(html);
        let ghost mut done: nat = 0;
        proof {
            lemma_spans(html@, 0);
        }
        loop
            invariant
                iter.wf(),
                self.wf(),
                iter.document() == html@,
                chars@ == html@,
                spans.len() == all.len(),
                rs.len() == requests@.len(),
                name_find_after(html@, rs, done).positions.len() == rs.len(),
                name_find_after(html@, rs, done).founds.len() == rs.len(),
                founds@.len() == rs.len(),
                done <= all.len(),
                iter@ == all.skip(done as int),
                iter.spans() == spans.skip(done as int),
                spans == spans_from(html@, 0),
                rs == texts_of(requests@),
                all == document_events(html@),
                self.names() == name_find_after(html@, rs, done).names,
                text_store@ == name_find_after(html@, rs, done).positions,
                texts_of(founds@) == name_find_after(html@, rs, done).founds,
            ensures
                done == all.len(),
                texts_of(founds@) == name_find_after(html@, rs, done).founds,
            decreases all.len() - done,
        {
            proof {
                iter.lemma_spans_ordered();
            }
            let begin_char = iter.position();
            match iter.next() {
                None => {
                    assert(all.skip(done as int).len() == 0);
                    break;
                },
                Some(element) => {
                    let end_char = iter.position();
                    proof {
                        assert(element@ == all[done as int]);
                        assert(spans[done as int] == (begin_char as int, end_char as int));
                    }
                    let ghost prev = name_find_after(html@, rs, done);
                    match element {
                        Elements::Start(tag, _, _) => {
                            let is_autoclosing = tag.is_autoclosing;
                            self.increase_path(tag.name);
                            if let Some(index) = self.does_match_css_request(&requests) {
                                text_store.store_starting_position(index, end_char);
                            }
                            if is_autoclosing {
                                self.reduce_path();
                            }
                        },
                        Elements::End(_, _, _) => {
                            self.reduce_path();
                            text_store.update_content(&mut founds, begin_char, chars.as_slice());
                        },
                        _ => {},
                    }
                    proof {
                        done = done + 1;
                        assert(iter@ =~= all.skip(done as int));
                        assert(iter.spans() =~= spans.skip(done as int));
                        let cur = name_find_after(html@, rs, done);
                        assert(cur == name_find_step(prev, all[done - 1], spans[done - 1], html@, rs));
                        assert(text_store@ =~= cur.positions);
                        assert forall|i: int| 0 <= i < founds@.len() implies #[trigger] founds@[i]@
                            == cur.founds[i] by {
                            assert(texts_of(founds@)[i] == founds@[i]@);
                        }
                        assert(texts_of(founds@) =~= cur.founds);
                    }
                },
            }
        }
        founds
    }
}

impl<'a> HtmlSelectorCounter<&'a str> for TagNameHtmlSelector {
    open spec fn accepts(requests: Seq<&'a str>) -> bool {
        true
    }

    open spec fn counted(html: Seq<char>, requests: Seq<&'a str>) -> Seq<nat> {
        name_counts_of(html, formatted_all(requests))
    }

    fn count(&mut self, html: &str, css_requests: &[&'a str]) -> (r: Vec<usize>) {
        let r = TagNameHtmlSelector::count(self, html, css_requests);
        assert(name_count_after(html@, formatted_all(css_requests@), document_events(html@).len()).counts.len() == css_requests@.len()) by {
            lemma_name_counts_len(html@, formatted_all(css_requests@), document_events(html@).len());
        }
        r
    }
}

impl<'a> HtmlSelectorFindFirst<&'a str> for TagNameHtmlSelector {
    open spec fn found(html: Seq<char>, requests: Seq<&'a str>) -> Seq<Seq<char>> {
        name_firsts_of(html, formatted_all(requests))
    }

    fn find_first(&mut self, html: &str, css_requests: &[&'a str]) -> (r: Vec<String>) {
        TagNameHtmlSelector::find_first(self, html, css_requests)
    }
}

proof fn lemma_name_counts_len(html: Seq<char>, requests: Seq<Seq<char>>, n: nat)
    ensures
        name_count_after(html, requests, n).counts.len() == requests.len(),
    decreases n,
{
    if n > 0 {
        lemma_name_counts_len(html, requests, (n - 1) as nat);
    }
}

} // verus!
