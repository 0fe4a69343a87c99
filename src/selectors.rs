//! The selector engines: one pass over the events of a document, keeping
//! the tag path, to count the elements that each selector chain matches or
//! to capture the text of the first one.
use crate::chars::{string_of, to_chars};
use crate::predicates::Predicate;
use crate::tag_iterator::{
    bare_tags, document_events, lemma_bare_tag_events, lemma_spans, letter_names, spans_from,
    Elements, EventModel, TagIterator,
};
use crate::tag_path::{chain_matches, empty_path, match_tag_path, path_add, path_reduce, PathModel, TagPath};
use vstd::prelude::*;

verus! {

/// An engine that counts, in one pass over a document, the matches of each
/// request.
pub trait HtmlSelectorCounter<T> {
    /// Which lists of requests the engine takes.
    spec fn accepts(requests: Seq<T>) -> bool;

    /// The counts that the engine answers.
    spec fn counted(html: Seq<char>, requests: Seq<T>) -> Seq<nat>;

    fn count(&mut self, html: &str, css_requests: &[T]) -> (r: Vec<usize>)
        requires
            Self::accepts(css_requests@),
        ensures
            r@.len() == Self::counted(html@, css_requests@).len(),
            forall|i: int|
                0 <= i < r@.len() ==> r@[i] as nat == #[trigger] Self::counted(
                    html@,
                    css_requests@,
                )[i],
    ;
}

/// An engine that captures, in one pass over a document, the text of the
/// first match of each request.
pub trait HtmlSelectorFindFirst<T> {
    /// The texts that the engine answers.
    spec fn found(html: Seq<char>, requests: Seq<T>) -> Seq<Seq<char>>;

    fn find_first(&mut self, html: &str, css_requests: &[T]) -> (r: Vec<String>)
        ensures
            texts_of(r@) == Self::found(html@, css_requests@),
    ;
}

/// The predicate lists behind a list of chains.
pub open spec fn chains_of(ms: Seq<&Vec<Predicate>>) -> Seq<Seq<Predicate>> {
    ms.map_values(|m: &Vec<Predicate>| m@)
}

/// The state of a count: the tag path and one count per chain.
pub struct CountModel {
    pub path: PathModel,
    pub counts: Seq<nat>,
}

/// The path after a start tag `t` was pushed: popped again at once when the
/// tag closes itself.
pub open spec fn after_start(p: PathModel, t_autoclosing: bool) -> PathModel {
    if t_autoclosing {
        path_reduce(p)
    } else {
        p
    }
}

/// One event of a count: a start tag is pushed and every chain that matches
/// the path counts one; an end tag pops.
pub open spec fn count_step(st: CountModel, e: EventModel, chains: Seq<Seq<Predicate>>) -> CountModel {
    match e {
        EventModel::Start(t, _, _) => {
            let p = path_add(st.path, t);
            CountModel {
                path: after_start(p, t.is_autoclosing),
                counts: Seq::new(
                    st.counts.len(),
                    |i: int|
                        if chain_matches(p.path, chains[i]) {
                            st.counts[i] + 1
                        } else {
                            st.counts[i]
                        },
                ),
            }
        },
        EventModel::End(_, _, _) => CountModel { path: path_reduce(st.path), counts: st.counts },
        _ => st,
    }
}

/// The state of a count of `chains` over `html` after its first `n` events.
pub open spec fn count_after(html: Seq<char>, chains: Seq<Seq<Predicate>>, n: nat) -> CountModel
    decreases n,
{
    if n == 0 {
        CountModel { path: empty_path(), counts: Seq::new(chains.len(), |i: int| 0nat) }
    } else {
        count_step(count_after(html, chains, (n - 1) as nat), document_events(html)[n - 1], chains)
    }
}

/// For each chain, how many start tags of `html` it matches.
pub open spec fn counts_of(html: Seq<char>, chains: Seq<Seq<Predicate>>) -> Seq<nat> {
    count_after(html, chains, document_events(html).len()).counts
}

/// The names still open after `tags`, innermost last, when each end tag
/// closes the innermost open tag, of its own name; nothing when one does not.
pub open spec fn open_names(tags: Seq<(bool, Seq<char>, Seq<(Seq<char>, Seq<char>)>)>) -> Option<Seq<Seq<char>>>
    decreases tags.len(),
{
    if tags.len() == 0 {
        Some(Seq::empty())
    } else {
        match open_names(tags.drop_last()) {
            None => None,
            Some(st) => if tags.last().0 {
                Some(st.push(tags.last().1))
            } else if st.len() > 0 && st.last() == tags.last().1 {
                Some(st.drop_last())
            } else {
                None
            },
        }
    }
}

/// Start and end tags in matching pairs, all closed.
pub open spec fn balanced_tags(tags: Seq<(bool, Seq<char>, Seq<(Seq<char>, Seq<char>)>)>) -> bool {
    open_names(tags) == Some(Seq::<Seq<char>>::empty())
}

/// Number of start events.
pub open spec fn start_count(es: Seq<EventModel>) -> nat
    decreases es.len(),
{
    if es.len() == 0 {
        0
    } else {
        start_count(es.drop_last()) + if es.last() is Start {
            1nat
        } else {
            0nat
        }
    }
}

/// Number of end events.
pub open spec fn end_count(es: Seq<EventModel>) -> nat
    decreases es.len(),
{
    if es.len() == 0 {
        0
    } else {
        end_count(es.drop_last()) + if es.last() is End {
            1nat
        } else {
            0nat
        }
    }
}

proof fn lemma_open_prefix(tags: Seq<(bool, Seq<char>, Seq<(Seq<char>, Seq<char>)>)>, n: int)
    requires
        0 <= n <= tags.len(),
        open_names(tags) is Some,
    ensures
        open_names(tags.take(n)) is Some,
    decreases tags.len() - n,
{
    if n < tags.len() {
        lemma_open_prefix(tags, n + 1);
        assert(tags.take(n + 1).drop_last() =~= tags.take(n));
    } else {
        assert(tags.take(n) =~= tags);
    }
}

proof fn lemma_balanced_prefix(
    tags: Seq<(bool, Seq<char>, Seq<(Seq<char>, Seq<char>)>)>,
    chains: Seq<Seq<Predicate>>,
    n: nat,
)
    requires
        letter_names(tags),
        open_names(tags) is Some,
        n <= tags.len(),
    ensures
        count_after(bare_tags(tags), chains, n).path.path.len() == open_names(
            tags.take(n as int),
        )->Some_0.len(),
        start_count(document_events(bare_tags(tags)).take(n as int)) == end_count(
            document_events(bare_tags(tags)).take(n as int),
        ) + open_names(tags.take(n as int))->Some_0.len(),
    decreases n,
{
    let html = bare_tags(tags);
    let events = document_events(html);
    lemma_bare_tag_events(tags);
    lemma_open_prefix(tags, n as int);
    if n == 0 {
        assert(tags.take(0) =~= Seq::<(bool, Seq<char>, Seq<(Seq<char>, Seq<char>)>)>::empty());
        assert(events.take(0) =~= Seq::<EventModel>::empty());
    } else {
        let m = (n - 1) as nat;
        lemma_balanced_prefix(tags, chains, m);
        assert(tags.take(n as int).drop_last() =~= tags.take(m as int));
        assert(tags.take(n as int).last() == tags[m as int]);
        assert(events.take(n as int).drop_last() =~= events.take(m as int));
        assert(events.take(n as int).last() == events[m as int]);
        let e = events[m as int];
        assert(tags[m as int].0 <==> e is Start);
    }
}

/// In a document made only of start and end tags in matching pairs (start
/// tags may carry attributes) there are as many start events as end
/// events, each end event names the innermost tag still open, and the tag
/// path of a count over it is empty again at the end.
pub proof fn lemma_balanced_document(tags: Seq<(bool, Seq<char>, Seq<(Seq<char>, Seq<char>)>)>, chains: Seq<Seq<Predicate>>)
    requires
        letter_names(tags),
        balanced_tags(tags),
    ensures
        start_count(document_events(bare_tags(tags))) == end_count(
            document_events(bare_tags(tags)),
        ),
        count_after(bare_tags(tags), chains, document_events(bare_tags(tags)).len()).path.path.len()
            == 0,
        forall|i: int|
            0 <= i < document_events(bare_tags(tags)).len() && (#[trigger] document_events(
                bare_tags(tags),
            )[i]) is End ==> open_names(tags.take(i)) is Some && open_names(tags.take(i))->Some_0.len()
                > 0 && document_events(bare_tags(tags))[i]->End_0 == open_names(
                tags.take(i),
            )->Some_0.last(),
{
    lemma_bare_tag_events(tags);
    lemma_balanced_prefix(tags, chains, tags.len());
    assert forall|i: int|
        0 <= i < document_events(bare_tags(tags)).len() && (#[trigger] document_events(
            bare_tags(tags),
        )[i]) is End implies open_names(tags.take(i)) is Some && open_names(tags.take(i))->Some_0.len()
            > 0 && document_events(bare_tags(tags))[i]->End_0 == open_names(
            tags.take(i),
        )->Some_0.last() by {
        lemma_open_prefix(tags, i + 1);
        assert(tags.take(i + 1).drop_last() =~= tags.take(i));
        assert(tags.take(i + 1).last() == tags[i]);
        assert(!tags[i].0);
    }
    assert(tags.take(tags.len() as int) =~= tags);
    let events = document_events(bare_tags(tags));
    assert(events.take(events.len() as int) =~= events);
}

/// The text of a chain after an end tag that begins at character `end`:
/// when the chain has a reading position `a` and no text yet, the document
/// from `a` to `end`, as it stands; else what it had.
pub open spec fn capture(position: Option<int>, found: Seq<char>, end: int, html: Seq<char>) -> Seq<
    char,
> {
    match position {
        Some(a) => if found.len() == 0 && 0 <= a <= end <= html.len() {
            html.subrange(a, end)
        } else {
            found
        },
        None => found,
    }
}

/// The state of a find-first pass: the tag path, and for each chain the
/// character where the content of its last match begins, and its text.
pub struct FindModel {
    pub path: PathModel,
    pub positions: Seq<Option<int>>,
    pub founds: Seq<Seq<char>>,
}

/// One event, spanning the characters `span`, of a find-first pass: a start
/// tag is pushed and every chain that matches the path reads from the end
/// of the tag on; an end tag pops and gives each chain that reads, and has
/// no text yet, the text up to the tag.
pub open spec fn find_step(
    st: FindModel,
    e: EventModel,
    span: (int, int),
    html: Seq<char>,
    chains: Seq<Seq<Predicate>>,
) -> FindModel {
    match e {
        EventModel::Start(t, _, _) => {
            let p = path_add(st.path, t);
            FindModel {
                path: after_start(p, t.is_autoclosing),
                positions: Seq::new(
                    st.positions.len(),
                    |i: int|
                        if chain_matches(p.path, chains[i]) {
                            Some(span.1)
                        } else {
                            st.positions[i]
                        },
                ),
                founds: st.founds,
            }
        },
        EventModel::End(_, _, _) => FindModel {
            path: path_reduce(st.path),
            positions: st.positions,
            founds: Seq::new(
                st.founds.len(),
                |i: int| capture(st.positions[i], st.founds[i], span.0, html),
            ),
        },
        _ => st,
    }
}

/// The state of a find-first pass of `chains` over `html` after its first
/// `n` events.
pub open spec fn find_after(html: Seq<char>, chains: Seq<Seq<Predicate>>, n: nat) -> FindModel
    decreases n,
{
    if n == 0 {
        FindModel {
            path: empty_path(),
            positions: Seq::new(chains.len(), |i: int| None),
            founds: Seq::new(chains.len(), |i: int| Seq::empty()),
        }
    } else {
        find_step(
            find_after(html, chains, (n - 1) as nat),
            document_events(html)[n - 1],
            spans_from(html, 0)[n - 1],
            html,
            chains,
        )
    }
}

/// For each chain, the text of its first match in `html`, or nothing.
pub open spec fn firsts_of(html: Seq<char>, chains: Seq<Seq<Predicate>>) -> Seq<Seq<char>> {
    find_after(html, chains, document_events(html).len()).founds
}

/// The views of a list of positions.
pub open spec fn positions_of(v: Seq<Option<usize>>) -> Seq<Option<int>> {
    v.map_values(|o: Option<usize>|
        match o {
            Some(a) => Some(a as int),
            None => None,
        })
}

/// The views of a list of strings.
pub open spec fn texts_of(v: Seq<String>) -> Seq<Seq<char>> {
    v.map_values(|s: String| s@)
}

/// For each chain, the character where the content of its last match
/// begins, if it matched.
pub struct FindFirstTextStore {
    reading_positions: Vec<Option<usize>>,
}

impl View for FindFirstTextStore {
    type V = Seq<Option<int>>;

    closed spec fn view(&self) -> Seq<Option<int>> {
        positions_of(self.reading_positions@)
    }
}

impl FindFirstTextStore {
    /// A store for `capacity` chains, none reading.
    pub fn new(capacity: usize) -> (r: FindFirstTextStore)
        ensures
            r@ == Seq::new(capacity as nat, |i: int| None::<int>),
    {
        let mut v: Vec<Option<usize>> = Vec::new();
        let mut i: usize = 0;
        while i < capacity
            invariant
                i <= capacity,
                v@.len() == i,
                forall|j: int| 0 <= j < i ==> v@[j] is None,
            decreases capacity - i,
        {
            v.push(None);
            i += 1;
        }
        let r = FindFirstTextStore { reading_positions: v };
        assert(r@ =~= Seq::new(capacity as nat, |i: int| None::<int>));
        r
    }

    /// Chain `matcher_index` reads from character `content_start_index` on;
    /// an index past the chains changes nothing.
    pub fn store_starting_position(&mut self, matcher_index: usize, content_start_index: usize)
        ensures
            final(self)@ == if matcher_index < old(self)@.len() {
                old(self)@.update(matcher_index as int, Some(content_start_index as int))
            } else {
                old(self)@
            },
    {
        if matcher_index < self.reading_positions.len() {
            self.reading_positions.set(matcher_index, Some(content_start_index));
            assert(self@ =~= old(self)@.update(matcher_index as int, Some(content_start_index as int)));
        }
    }

    /// An end tag begins at character `content_end_index` of `html`: each
    /// chain that reads, and whose text in `founds` is still empty, gets
    /// the text from its position up to there.
    pub fn update_content(&self, founds: &mut Vec<String>, content_end_index: usize, html: &[char])
        ensures
            final(founds)@.len() == old(founds)@.len(),
            forall|i: int|
                0 <= i < old(founds)@.len() ==> #[trigger] final(founds)@[i]@ == if i < self@.len() {
                    capture(self@[i], old(founds)@[i]@, content_end_index as int, html@)
                } else {
                    old(founds)@[i]@
                },
    {
        let mut i: usize = 0;
        while i < founds.len()
            invariant
                i <= founds@.len(),
                founds@.len() == old(founds)@.len(),
                forall|j: int| i <= j < founds@.len() ==> founds@[j] == old(founds)@[j],
                forall|j: int|
                    0 <= j < i ==> #[trigger] founds@[j]@ == if j < self@.len() {
                        capture(self@[j], old(founds)@[j]@, content_end_index as int, html@)
                    } else {
                        old(founds)@[j]@
                    },
            decreases founds@.len() - i,
        {
            if i < self.reading_positions.len() {
                if let Some(start) = self.reading_positions[i] {
                    if start <= content_end_index && content_end_index <= html.len()
                        && founds[i].as_str().is_empty() {
                        let text = string_of(html, start, content_end_index);
                        founds.set(i, text);
                    }
                }
            }
            i += 1;
        }
    }
}

/// Counting depends on the document and the chains alone: two answers that
/// meet the contract of `count` for the same document and chains, from the
/// same engine or from two, are the same.
pub proof fn lemma_count_repeatable(
    html: Seq<char>,
    chains: Seq<Seq<Predicate>>,
    first: Seq<usize>,
    second: Seq<usize>,
)
    requires
        first.len() == chains.len(),
        second.len() == chains.len(),
        forall|i: int| 0 <= i < first.len() ==> first[i] as nat == #[trigger] counts_of(html, chains)[i],
        forall|i: int| 0 <= i < second.len() ==> second[i] as nat == #[trigger] counts_of(html, chains)[i],
    ensures
        first == second,
{
    assert forall|i: int| 0 <= i < first.len() implies first[i] == second[i] by {
        assert(first[i] as nat == counts_of(html, chains)[i]);
        assert(second[i] as nat == counts_of(html, chains)[i]);
    }
    assert(first =~= second);
}

/// The engine that matches selector chains against the tag path.
pub struct TagPathHtmlSelector {
    path: TagPath,
}

impl TagPathHtmlSelector {
    /// An engine with an empty path.
    pub fn new() -> (r: TagPathHtmlSelector) {
        TagPathHtmlSelector { path: TagPath::new() }
    }

    /// Adds one to the count of each chain that matches the current path.
    fn update_counts_if_matching(&self, counts: &mut Vec<usize>, matchers: &[&Vec<Predicate>], bound: Ghost<nat>)
        requires
            old(counts)@.len() == matchers@.len(),
            forall|i: int| 0 <= i < old(counts)@.len() ==> old(counts)@[i] < bound@,
            bound@ <= usize::MAX,
        ensures
            final(counts)@.len() == old(counts)@.len(),
            forall|i: int|
                0 <= i < final(counts)@.len() ==> #[trigger] final(counts)@[i] == if chain_matches(
                    self.path@.path,
                    matchers@[i]@,
                ) {
                    old(counts)@[i] + 1
                } else {
                    old(counts)@[i] as int
                },
    {
        let mut i: usize = 0;
        while i < matchers.len()
            invariant
                i <= matchers@.len(),
                counts@.len() == matchers@.len(),
                old(counts)@.len() == matchers@.len(),
                forall|j: int| 0 <= j < old(counts)@.len() ==> old(counts)@[j] < bound@,
                bound@ <= usize::MAX,
                forall|j: int| i <= j < counts@.len() ==> counts@[j] == old(counts)@[j],
                forall|j: int|
                    0 <= j < i ==> #[trigger] counts@[j] == if chain_matches(
                        self.path@.path,
                        matchers@[j]@,
                    ) {
                        old(counts)@[j] + 1
                    } else {
                        old(counts)@[j] as int
                    },
            decreases matchers@.len() - i,
        {
            if self.check_matching(matchers[i]) {
                let c = counts[i];
                counts.set(i, c + 1);
            }
            i += 1;
        }
    }

    /// Whether `chain` matches the current path.
    fn check_matching(&self, chain: &Vec<Predicate>) -> (r: bool)
        ensures
            r == chain_matches(self.path@.path, chain@),
    {
        match_tag_path(self.path.get_matching_path(), chain)
    }

    /// For each chain of `matchers`, how many start tags of `html` it
    /// matches, in one pass from an empty path.
    pub fn count(&mut self, html: &str, matchers: &[&Vec<Predicate>]) -> (r: Vec<usize>)
        ensures
            r@.len() == matchers@.len(),
            forall|i: int|
                0 <= i < r@.len() ==> r@[i] as nat == #[trigger] counts_of(html@, chains_of(matchers@))[i],
    {
        let ghost chains = chains_of(matchers@);
        let ghost all = document_events(html@);
        self.path = TagPath::new();
        let mut counts: Vec<usize> = Vec::new();
        let mut k: usize = 0;
        while k < matchers.len()
            invariant
                k <= matchers@.len(),
                counts@.len() == k,
                forall|j: int| 0 <= j < k ==> counts@[j] == 0,
            decreases matchers@.len() - k,
        {
            counts.push(0);
            k += 1;
        }
        let mut iter = TagIterator::new(html);
        let ghost mut done: nat = 0;
        loop
            invariant
                iter.wf(),
                iter.document() == html@,
                done <= all.len(),
                iter@ == all.skip(done as int),
                done <= iter.pos(),
                chains == chains_of(matchers@),
                all == document_events(html@),
                self.path@ == count_after(html@, chains, done).path,
                counts@.len() == chains.len(),
                count_after(html@, chains, done).counts.len() == chains.len(),
                forall|i: int| 0 <= i < counts@.len() ==> counts@[i] as nat == #[trigger] count_after(html@, chains, done).counts[i],
                forall|i: int| 0 <= i < counts@.len() ==> counts@[i] <= done,
            ensures
                done == all.len(),
                self.path@ == count_after(html@, chains, done).path,
                counts@.len() == chains.len(),
                forall|i: int| 0 <= i < counts@.len() ==> counts@[i] as nat == #[trigger] count_after(html@, chains, done).counts[i],
            decreases all.len() - done,
        {
            proof {
                iter.lemma_spans_ordered();
            }
            let ghost before = iter;
            match iter.next() {
                None => {
                    assert(all.skip(done as int).len() == 0);
                    break;
                },
                Some(element) => {
                    proof {
                        assert(element@ == all[done as int]);
                        assert(before.spans()[0].0 < before.spans()[0].1);
                    }
                    match element {
                        Elements::Start(tag, _, _) => {
                            let is_autoclosing = tag.is_autoclosing;
                            self.path.add(tag);
                            self.update_counts_if_matching(&mut counts, matchers, Ghost((done + 1) as nat));
                            if is_autoclosing {
                                self.path.reduce();
                            }
                        },
                        Elements::End(_, _, _) => {
                            self.path.reduce();
                        },
                        _ => {},
                    }
                    proof {
                        let prev = count_after(html@, chains, done);
                        done = done + 1;
                        assert(iter@ =~= all.skip(done as int));
                        let cur = count_after(html@, chains, done);
                        assert(cur == count_step(prev, all[done - 1], chains));
                        assert(forall|i: int| 0 <= i < chains.len() ==> chains[i] == matchers@[i]@);
                        assert forall|i: int| 0 <= i < counts@.len() implies counts@[i] as nat == #[trigger] cur.counts[i] by {
                        }
                    }
                },
            }
        }
        counts
    }

    /// For each chain of `matchers`, the text of its first match in `html`,
    /// or an empty string, in one pass from an empty path.
    pub fn find_first(&mut self, html: &str, matchers: &[&Vec<Predicate>]) -> (r: Vec<String>)
        ensures
            texts_of(r@) == firsts_of(html@, chains_of(matchers@)),
    {
        let ghost chains = chains_of(matchers@);
        let ghost all = document_events(html@);
        let ghost spans = spans_from(html@, 0);
        self.path = TagPath::new();
        let chars = to_chars(html);
        let mut founds: Vec<String> = Vec::new();
        let mut k: usize = 0;
        while k < matchers.len()
            invariant
                k <= matchers@.len(),
                founds@.len() == k,
                forall|j: int| 0 <= j < k ==> founds@[j]@ == Seq::<char>::empty(),
            decreases matchers@.len() - k,
        {
            founds.push(String::new());
            k += 1;
        }
        let mut text_store = FindFirstTextStore::new(matchers.len());
        assert(texts_of(founds@) =~= find_after(html@, chains, 0).founds);
        assert(text_store@ =~= find_after(html@, chains, 0).positions);
        let mut iter = TagIterator::new(html);
        let ghost mut done: nat = 0;
        proof {
            lemma_spans(html@, 0);
        }
        loop
            invariant
                iter.wf(),
                iter.document() == html@,
                chars@ == html@,
                spans.len() == all.len(),
                chains.len() == matchers@.len(),
                find_after(html@, chains, done).positions.len() == chains.len(),
                find_after(html@, chains, done).founds.len() == chains.len(),
                founds@.len() == chains.len(),
                done <= all.len(),
                iter@ == all.skip(done as int),
                iter.spans() == spans.skip(done as int),
                spans == spans_from(html@, 0),
                chains == chains_of(matchers@),
                all == document_events(html@),
                self.path@ == find_after(html@, chains, done).path,
                text_store@ == find_after(html@, chains, done).positions,
                texts_of(founds@) == find_after(html@, chains, done).founds,
            ensures
                done == all.len(),
                texts_of(founds@) == find_after(html@, chains, done).founds,
            decreases all.len() - done,
        {
            proof {
                iter.lemma_spans_ordered();
            }
            let ghost before = iter;
            let begin_char = iter.position();
            match iter.next() {
                None => {
                    assert(all.skip(done as int).len() == 0);
                    break;
                },
                Some(element) => {
                    let end_char = iter.position();
                    proof {
                        assert(element@ == all[done as int]);
                        assert(spans[done as int] == (begin_char as int, end_char as int));
                    }
                    let ghost prev = find_after(html@, chains, done);
                    match element {
                        Elements::Start(tag, _, _) => {
                            let is_autoclosing = tag.is_autoclosing;
                            self.path.add(tag);
                            self.store_matching_positions(&mut text_store, matchers, end_char);
                            if is_autoclosing {
                                self.path.reduce();
                            }
                        },
                        Elements::End(_, _, _) => {
                            self.path.reduce();
                            text_store.update_content(&mut founds, begin_char, chars.as_slice());
                        },
                        _ => {},
                    }
                    proof {
                        done = done + 1;
                        assert(iter@ =~= all.skip(done as int));
                        assert(iter.spans() =~= spans.skip(done as int));
                        let cur = find_after(html@, chains, done);
                        assert(cur == find_step(prev, all[done - 1], spans[done - 1], html@, chains));
                        assert(forall|i: int| 0 <= i < chains.len() ==> chains[i] == matchers@[i]@);
                        assert(text_store@ =~= cur.positions);
                        assert forall|i: int| 0 <= i < founds@.len() implies #[trigger] founds@[i]@
                            == cur.founds[i] by {
                            assert(texts_of(founds@)[i] == founds@[i]@);
                        }
                        assert(texts_of(founds@) =~= cur.founds);
                    }
                },
            }
        }
        founds
    }

    /// Each chain that matches the current path reads from character
    /// `content_start` on.
    fn store_matching_positions(
        &self,
        text_store: &mut FindFirstTextStore,
        matchers: &[&Vec<Predicate>],
        content_start: usize,
    )
        requires
            old(text_store)@.len() == matchers@.len(),
        ensures
            final(text_store)@ == Seq::new(
                old(text_store)@.len(),
                |i: int|
                    if chain_matches(self.path@.path, matchers@[i]@) {
                        Some(content_start as int)
                    } else {
                        old(text_store)@[i]
                    },
            ),
    {
        let ghost target = Seq::new(
            old(text_store)@.len(),
            |i: int|
                if chain_matches(self.path@.path, matchers@[i]@) {
                    Some(content_start as int)
                } else {
                    old(text_store)@[i]
                },
        );
        let mut i: usize = 0;
        while i < matchers.len()
            invariant
                i <= matchers@.len(),
                text_store@.len() == matchers@.len(),
                target.len() == matchers@.len(),
                forall|j: int| 0 <= j < i ==> text_store@[j] == target[j],
                forall|j: int| i <= j < matchers@.len() ==> text_store@[j] == old(text_store)@[j],
                target == Seq::new(
                    old(text_store)@.len(),
                    |i: int|
                        if chain_matches(self.path@.path, matchers@[i]@) {
                            Some(content_start as int)
                        } else {
                            old(text_store)@[i]
                        },
                ),
            decreases matchers@.len() - i,
        {
            if self.check_matching(matchers[i]) {
                text_store.store_starting_position(i, content_start);
            }
            i += 1;
        }
        assert(text_store@ =~= target);
    }
}

} // verus!
