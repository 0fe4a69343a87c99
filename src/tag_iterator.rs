//! The event iterator: it reads the document once, left to right, and
//! yields one structural event at a time.
use crate::chars::{
    byte_len, find, lemma_byte_len_at_least_len, lemma_byte_len_concat, lemma_find_at,
    lemma_find_from, lemma_find_from_at, occurs_at, to_chars,
};
use crate::elements::{
    angle_close, angle_open, ascii_letter, closing, comment_close, comment_read, delimited_span,
    end_open, end_tag_read, str_byte_len, text_end, text_read, CommentElement, EndElement,
    TextElement,
};
use crate::start_element::{
    lemma_text_chars, self_close, start_tag_read, tag_close, tag_span, written_tag, Tag, TagModel,
};
use crate::tag_parser::{attribute_text, well_formed_pairs};
use vstd::prelude::*;

verus! {

/// An element read at the head of the input.
pub enum ElementModel {
    Start(TagModel),
    End(Seq<char>),
    Comment(Seq<char>),
    Text(Seq<char>),
}

/// An event: start and end tags carry the byte offsets of their first
/// character and of the character past their last one.
pub enum EventModel {
    Start(TagModel, nat, nat),
    End(Seq<char>, nat, nat),
    Comment(Seq<char>),
    Text(Seq<char>),
}

/// The element at the head of `s`, and how many characters it takes; tried
/// in this order: start tag, end tag, comment, text.
#[verifier::opaque]
pub open spec fn head_element(s: Seq<char>) -> Option<(ElementModel, int)> {
    if s.len() == 0 {
        None
    } else {
        match start_tag_read(s) {
            Some(t) => Some((ElementModel::Start(t), tag_span(s))),
            None => match end_tag_read(s) {
                Some((name, _)) => Some((ElementModel::End(name), delimited_span(s, 2, angle_close()))),
                None => match comment_read(s) {
                    Some((content, _)) => Some(
                        (ElementModel::Comment(content), delimited_span(s, 4, comment_close())),
                    ),
                    None => match text_read(s) {
                        Some((content, _)) => Some((ElementModel::Text(content), text_end(s))),
                        None => None,
                    },
                },
            },
        }
    }
}

/// The event for element `e` that spans the bytes `begin..end`.
pub open spec fn event_of(e: ElementModel, begin: nat, end: nat) -> EventModel {
    match e {
        ElementModel::Start(t) => EventModel::Start(t, begin, end),
        ElementModel::End(n) => EventModel::End(n, begin, end),
        ElementModel::Comment(c) => EventModel::Comment(c),
        ElementModel::Text(t) => EventModel::Text(t),
    }
}

/// The events of `html` from character `pos` on; they stop at the end of
/// the input or where nothing can be read.
#[verifier::opaque]
pub open spec fn events_from(html: Seq<char>, pos: int) -> Seq<EventModel>
    decreases html.len() - pos,
{
    if pos < 0 || pos >= html.len() {
        Seq::empty()
    } else {
        match head_element(html.skip(pos)) {
            None => Seq::empty(),
            Some((e, k)) => if k <= 0 || pos + k > html.len() {
                Seq::empty()
            } else {
                seq![event_of(e, byte_len(html.take(pos)), byte_len(html.take(pos + k)))]
                    + events_from(html, pos + k)
            },
        }
    }
}

/// The character spans `(first, past last)` of the events of `html` from
/// character `pos` on, one for each event.
#[verifier::opaque]
pub open spec fn spans_from(html: Seq<char>, pos: int) -> Seq<(int, int)>
    decreases html.len() - pos,
{
    if pos < 0 || pos >= html.len() {
        Seq::empty()
    } else {
        match head_element(html.skip(pos)) {
            None => Seq::empty(),
            Some((e, k)) => if k <= 0 || pos + k > html.len() {
                Seq::empty()
            } else {
                seq![(pos, pos + k)] + spans_from(html, pos + k)
            },
        }
    }
}

/// There is one span for each event, and the spans lie in order inside
/// `html`, after `pos`.
pub proof fn lemma_spans(html: Seq<char>, pos: int)
    requires
        0 <= pos,
    ensures
        spans_from(html, pos).len() == events_from(html, pos).len(),
        forall|i: int|
            0 <= i < spans_from(html, pos).len() ==> pos <= #[trigger] spans_from(html, pos)[i].0
                < spans_from(html, pos)[i].1 <= html.len(),
    decreases html.len() - pos,
{
    reveal(events_from);
    reveal(spans_from);
    if pos < html.len() {
        match head_element(html.skip(pos)) {
            None => {},
            Some((e, k)) => if k <= 0 || pos + k > html.len() {
            } else {
                lemma_spans(html, pos + k);
                let rest = spans_from(html, pos + k);
                assert forall|i: int| 0 <= i < spans_from(html, pos).len() implies pos
                    <= #[trigger] spans_from(html, pos)[i].0 < spans_from(html, pos)[i].1
                    <= html.len() by {
                    if i > 0 {
                        assert(spans_from(html, pos)[i] == rest[i - 1]);
                    }
                }
            },
        }
    }
}

/// All events of `html`.
pub open spec fn document_events(html: Seq<char>) -> Seq<EventModel> {
    events_from(html, 0)
}

/// One structural event.
#[derive(PartialEq, Debug)]
pub enum Elements {
    /// A start tag, with the byte offsets of its `<` and past its `>`.
    Start(Tag, usize, usize),
    /// An end tag's name, with the byte offsets of its `<` and past its `>`.
    End(String, usize, usize),
    Comment(String),
    Text(String),
}

impl View for Elements {
    type V = EventModel;

    open spec fn view(&self) -> EventModel {
        match self {
            Elements::Start(t, b, e) => EventModel::Start(t@, *b as nat, *e as nat),
            Elements::End(n, b, e) => EventModel::End(n@, *b as nat, *e as nat),
            Elements::Comment(c) => EventModel::Comment(c@),
            Elements::Text(t) => EventModel::Text(t@),
        }
    }
}

/// Reads events off a document, one per call of `next`.
pub struct TagIterator {
    /// The document.
    chars: Vec<char>,
    /// Characters read so far.
    position: usize,
    /// Bytes read so far.
    reading_position: usize,
    /// Bytes of the whole document.
    html_length: usize,
}

impl View for TagIterator {
    type V = Seq<EventModel>;

    /// The events still to come.
    closed spec fn view(&self) -> Seq<EventModel> {
        events_from(self.chars@, self.position as int)
    }
}

proof fn lemma_prefix_bytes(html: Seq<char>, pos: int, k: int)
    requires
        0 <= pos,
        0 <= k,
        pos + k <= html.len(),
    ensures
        byte_len(html.take(pos + k)) == byte_len(html.take(pos)) + byte_len(html.skip(pos).take(k)),
        byte_len(html.take(pos + k)) <= byte_len(html),
{
    lemma_byte_len_concat(html.take(pos), html.skip(pos).take(k));
    assert(html.take(pos) + html.skip(pos).take(k) =~= html.take(pos + k));
    lemma_byte_len_concat(html.take(pos + k), html.skip(pos + k));
    assert(html.take(pos + k) + html.skip(pos + k) =~= html);
}

/// One step of `events_from`: the element at `pos` and the events after it.
proof fn lemma_step(html: Seq<char>, pos: int, e: ElementModel, k: int)
    requires
        0 <= pos < html.len(),
        0 < k <= html.len() - pos,
        head_element(html.skip(pos)) == Some((e, k)),
    ensures
        events_from(html, pos) == seq![
            event_of(e, byte_len(html.take(pos)), byte_len(html.take(pos + k))),
        ] + events_from(html, pos + k),
        spans_from(html, pos) == seq![(pos, pos + k)] + spans_from(html, pos + k),
{
    reveal(events_from);
    reveal(spans_from);
}

/// A tag as written, with nothing around it: `<name a1='v1' ...>` when
/// `open`, else `</name>`.
pub open spec fn bare_tag(
    open: bool,
    name: Seq<char>,
    pairs: Seq<(Seq<char>, Seq<char>)>,
) -> Seq<char> {
    if open {
        written_tag(name, pairs)
    } else {
        seq!['<', '/'] + name + seq!['>']
    }
}

/// Tags written one after the other, with nothing between them.
pub open spec fn bare_tags(tags: Seq<(bool, Seq<char>, Seq<(Seq<char>, Seq<char>)>)>) -> Seq<char>
    decreases tags.len(),
{
    if tags.len() == 0 {
        Seq::empty()
    } else {
        bare_tag(tags[0].0, tags[0].1, tags[0].2) + bare_tags(tags.drop_first())
    }
}

/// Each name is made of ASCII letters, one at least, and each start tag's
/// attributes are well formed.
pub open spec fn letter_names(tags: Seq<(bool, Seq<char>, Seq<(Seq<char>, Seq<char>)>)>) -> bool {
    forall|i: int|
        0 <= i < tags.len() ==> (#[trigger] tags[i]).1.len() > 0 && well_formed_pairs(tags[i].2)
            && forall|k: int| 0 <= k < tags[i].1.len() ==> ascii_letter(#[trigger] tags[i].1[k])
}

proof fn lemma_head_open(name: Seq<char>, pairs: Seq<(Seq<char>, Seq<char>)>, rest: Seq<char>)
    requires
        name.len() > 0,
        forall|k: int| 0 <= k < name.len() ==> ascii_letter(#[trigger] name[k]),
        well_formed_pairs(pairs),
    ensures
        head_element(bare_tag(true, name, pairs) + rest) is Some,
        head_element(bare_tag(true, name, pairs) + rest)->Some_0.1 == written_tag(name, pairs).len(),
        head_element(bare_tag(true, name, pairs) + rest)->Some_0.0 is Start,
        !head_element(bare_tag(true, name, pairs) + rest)->Some_0.0->Start_0.is_autoclosing,
{
    reveal(head_element);
    let t = attribute_text(pairs);
    lemma_text_chars(pairs);
    let s = bare_tag(true, name, pairs) + rest;
    assert(s =~= seq!['<'] + name + t + seq!['>'] + rest);
    let c: int = name.len() + t.len() + 1int;
    assert(s[0] == '<' && s[c] == '>');
    assert forall|j: int| 1 <= j <= name.len() implies s[j] == name[j - 1] by {}
    assert forall|j: int| name.len() < j < c implies s[j] == t[j - 1 - name.len()] by {}
    assert forall|j: int| 1 <= j < c implies s[j] != '>' by {
        if j <= name.len() {
            assert(ascii_letter(name[j - 1]));
        } else {
            assert(t[j - 1 - name.len()] != '>');
        }
    }
    assert(s[c - 1] != '/') by {
        if t.len() > 0 {
            assert(s[c - 1] == t[t.len() - 1]);
        } else {
            assert(s[c - 1] == name[name.len() - 1]);
            assert(ascii_letter(name[name.len() - 1]));
        }
    }
    lemma_byte_len_at_least_len(s);
    assert(s.take(1) =~= seq!['<']);
    assert(s.subrange(0, 1) =~= seq!['<']);
    lemma_find_at(s, angle_open(), 0);
    assert(s.subrange(c, c + 1) =~= seq!['>']);
    assert forall|j: int| 0 <= j < c implies !occurs_at(s, angle_close(), j) by {
        if occurs_at(s, angle_close(), j) {
            assert(s.subrange(j, j + 1)[0] == s[j]);
        }
    }
    lemma_find_at(s, angle_close(), c);
    lemma_find_from(s, self_close(), 0);
    assert forall|j: int| 0 <= j <= c implies !occurs_at(s, self_close(), j) by {
        if occurs_at(s, self_close(), j) {
            assert(s.subrange(j, j + 2)[0] == s[j]);
            assert(s.subrange(j, j + 2)[1] == s[j + 1]);
        }
    }
    assert(tag_close(s) == Some((c, false)));
}

proof fn lemma_head_close(name: Seq<char>, pairs: Seq<(Seq<char>, Seq<char>)>, rest: Seq<char>)
    requires
        name.len() > 0,
        forall|k: int| 0 <= k < name.len() ==> ascii_letter(#[trigger] name[k]),
    ensures
        head_element(bare_tag(false, name, pairs) + rest) is Some,
        head_element(bare_tag(false, name, pairs) + rest)->Some_0.1 == name.len() + 3,
        head_element(bare_tag(false, name, pairs) + rest)->Some_0.0 is End,
        head_element(bare_tag(false, name, pairs) + rest)->Some_0.0->End_0 == name,
{
    reveal(head_element);
    let s = bare_tag(false, name, pairs) + rest;
    let c: int = name.len() + 2int;
    assert(s[0] == '<' && s[1] == '/' && s[c] == '>');
    assert forall|j: int| 2 <= j < c implies s[j] == name[j - 2] by {}
    lemma_byte_len_at_least_len(s);
    assert(s.take(2) =~= end_open());
    assert(s.subrange(c, c + 1) =~= seq!['>']);
    assert forall|j: int| 2 <= j < c implies !occurs_at(s, angle_close(), j) by {
        if occurs_at(s, angle_close(), j) {
            assert(s.subrange(j, j + 1)[0] == s[j]);
        }
    }
    lemma_find_from_at(s, angle_close(), 2, c);
    assert(closing(s, 2, angle_close()) == Some(c));
    assert(s.subrange(2, c) =~= name);
    assert(!ascii_letter('/'));
    assert(start_tag_read(s) is None);
}

proof fn lemma_bare_events(html: Seq<char>, pos: int, rest: Seq<(bool, Seq<char>, Seq<(Seq<char>, Seq<char>)>)>)
    requires
        0 <= pos <= html.len(),
        html.skip(pos) == bare_tags(rest),
        letter_names(rest),
    ensures
        events_from(html, pos).len() == rest.len(),
        forall|i: int|
            0 <= i < rest.len() ==> ((#[trigger] rest[i]).0 <==> events_from(html, pos)[i] is Start),
        forall|i: int|
            0 <= i < rest.len() ==> (rest[i].0 ==> !(#[trigger] events_from(html, pos)[i])->Start_0.is_autoclosing),
        forall|i: int|
            0 <= i < rest.len() ==> (!(#[trigger] rest[i]).0 ==> events_from(html, pos)[i] is End
                && events_from(html, pos)[i]->End_0 == rest[i].1),
    decreases rest.len(),
{
    if rest.len() == 0 {
        reveal(events_from);
        assert(html.skip(pos).len() == 0);
    } else {
        let first = rest[0];
        let tail = rest.drop_first();
        let t = bare_tags(tail);
        assert(bare_tags(rest) == bare_tag(first.0, first.1, first.2) + t);
        assert(first.1.len() > 0 && well_formed_pairs(first.2));
        assert forall|k: int| 0 <= k < first.1.len() implies ascii_letter(#[trigger] first.1[k]) by {
            assert(rest[0].1[k] == first.1[k]);
        }
        let k: int = if first.0 {
            lemma_head_open(first.1, first.2, t);
            written_tag(first.1, first.2).len() as int
        } else {
            lemma_head_close(first.1, first.2, t);
            first.1.len() + 3int
        };
        let w = bare_tag(first.0, first.1, first.2);
        assert(w.len() == k);
        let e = head_element(w + t)->Some_0.0;
        assert(html.skip(pos + k) =~= t) by {
            assert(html.skip(pos).skip(k) =~= html.skip(pos + k));
            assert((w + t).skip(k) =~= t);
        }
        assert forall|i: int| 0 <= i < tail.len() implies (#[trigger] tail[i]).1.len() > 0
            && well_formed_pairs(tail[i].2) && forall|j: int|
            0 <= j < tail[i].1.len() ==> ascii_letter(#[trigger] tail[i].1[j]) by {
            assert(tail[i] == rest[i + 1]);
        }
        lemma_bare_events(html, pos + k, tail);
        lemma_step(html, pos, e, k);
        let evs = events_from(html, pos);
        let later = events_from(html, pos + k);
        assert forall|i: int| 0 < i < rest.len() implies evs[i] == later[i - 1] && rest[i] == tail[
            i - 1] by {}
    }
}

/// The events of tags written with nothing between them: one for each tag,
/// a start event that does not close itself for each start tag, an end
/// event with the tag's name for each end tag.
pub proof fn lemma_bare_tag_events(tags: Seq<(bool, Seq<char>, Seq<(Seq<char>, Seq<char>)>)>)
    requires
        letter_names(tags),
    ensures
        document_events(bare_tags(tags)).len() == tags.len(),
        forall|i: int|
            0 <= i < tags.len() ==> ((#[trigger] tags[i]).0 <==> document_events(bare_tags(tags))[i] is Start),
        forall|i: int|
            0 <= i < tags.len() ==> (tags[i].0 ==> !(#[trigger] document_events(bare_tags(tags))[i])->Start_0.is_autoclosing),
        forall|i: int|
            0 <= i < tags.len() ==> (!(#[trigger] tags[i]).0 ==> document_events(bare_tags(tags))[i] is End
                && document_events(bare_tags(tags))[i]->End_0 == tags[i].1),
{
    let html = bare_tags(tags);
    assert(html.skip(0) =~= html);
    lemma_bare_events(html, 0, tags);
}

/// A start tag read at the head of the input begins there, so its length
/// is the byte length of its span.
proof fn lemma_start_length(s: Seq<char>, t: TagModel)
    requires
        start_tag_read(s) == Some(t),
    ensures
        t.length == byte_len(s.take(tag_span(s))),
        head_element(s) == Some((ElementModel::Start(t), tag_span(s))),
{
    reveal(head_element);
    assert(s.subrange(0, 1) =~= s.take(1));
    assert(find(s, angle_open()) == Some(0int));
    assert(s.subrange(0, tag_span(s)) =~= s.take(tag_span(s)));
}

impl TagIterator {
    /// The document being read.
    pub closed spec fn document(&self) -> Seq<char> {
        self.chars@
    }

    /// Characters read so far.
    pub closed spec fn pos(&self) -> int {
        self.position as int
    }

    /// The character spans of the events still to come.
    pub closed spec fn spans(&self) -> Seq<(int, int)> {
        spans_from(self.chars@, self.position as int)
    }

    /// There is one span for each event to come; the spans lie in order
    /// after what was read, inside the document.
    pub proof fn lemma_spans_ordered(&self)
        requires
            self.wf(),
        ensures
            self.spans().len() == self@.len(),
            self.document().len() <= usize::MAX,
            forall|i: int|
                0 <= i < self.spans().len() ==> self.pos() <= #[trigger] self.spans()[i].0
                    < self.spans()[i].1 <= self.document().len(),
    {
        lemma_spans(self.chars@, self.position as int);
        assert(self.chars@.len() == self.chars.len());
    }

    /// Characters read so far.
    pub fn position(&self) -> (r: usize)
        ensures
            r == self.pos(),
    {
        self.position
    }

    /// The iterator's fields agree with each other.
    pub closed spec fn wf(&self) -> bool {
        &&& self.position <= self.chars@.len()
        &&& self.reading_position == byte_len(self.chars@.take(self.position as int))
        &&& self.html_length == byte_len(self.chars@)
    }

    /// An iterator at the start of `html`.
    pub fn new(html: &str) -> (r: TagIterator)
        ensures
            r.wf(),
            r@ == document_events(html@),
            r.document() == html@,
            r.pos() == 0,
            r.spans() == spans_from(html@, 0),
    {
        let chars = to_chars(html);
        let html_length = str_byte_len(html);
        assert(chars@.take(0) =~= Seq::<char>::empty());
        TagIterator { chars, position: 0, reading_position: 0, html_length }
    }

    /// Moves past an element of `k` characters and `length` bytes; returns
    /// the new byte offset.
    fn reduce_html(&mut self, k: usize, length: usize) -> (r: usize)
        requires
            old(self).wf(),
            0 < k,
            old(self).position + k <= old(self).chars@.len(),
            length == byte_len(old(self).chars@.skip(old(self).position as int).take(k as int)),
        ensures
            final(self).wf(),
            final(self).chars == old(self).chars,
            final(self).position == old(self).position + k,
            r == final(self).reading_position,
            r == old(self).reading_position + length,
    {
        proof {
            lemma_prefix_bytes(self.chars@, self.position as int, k as int);
            assert(self.chars@.len() == self.chars.len());
        }
        self.position = self.position + k;
        self.reading_position = self.reading_position + length;
        self.reading_position
    }

    /// The next event, if any is left.
    #[verifier::rlimit(40)]
    pub fn next(&mut self) -> (r: Option<Elements>)
        requires
            old(self).wf(),
        ensures
            final(self).wf(),
            final(self).document() == old(self).document(),
            0 <= final(self).pos() <= final(self).document().len(),
            match r {
                Some(e) => old(self)@.len() > 0 && e@ == old(self)@[0] && final(self)@ == old(
                    self,
                )@.drop_first() && final(self).spans() == old(self).spans().drop_first()
                    && old(self).spans()[0] == (old(self).pos(), final(self).pos()),
                None => old(self)@.len() == 0 && final(self)@ == old(self)@ && final(self).spans()
                    == old(self).spans() && final(self).pos() == old(self).pos(),
            },
    {
        let len = self.chars.len();
        if self.position >= len {
            proof {
                reveal(events_from);
                reveal(spans_from);
            }
            return None;
        }

        let pos = self.position;
        let ghost html = self.chars@;
        let ghost rest = html.skip(pos as int);
        proof {
            lemma_prefix_bytes(html, pos as int, len - pos);
            assert(rest.take(len - pos) =~= rest);
            assert(html.take(len as int) =~= html);
        }
        let bytes = self.html_length - self.reading_position;
        let s = &self.chars.as_slice()[pos..len];
        assert(s@ =~= rest);
        let read_start = Tag::read_from(s, bytes);
        if let Some((tag, k)) = read_start {
            proof {
                lemma_start_length(rest, tag@);
                lemma_step(html, pos as int, ElementModel::Start(tag@), k as int);
            }
            let begin = self.reading_position;
            let end = self.reduce_html(k, tag.length);
            return Some(Elements::Start(tag, begin, end));
        }
        let read_end = EndElement::read_from(s, bytes);
        if let Some((element, k)) = read_end {
            proof {
                reveal(head_element);
                lemma_step(html, pos as int, ElementModel::End(element.name@), k as int);
            }
            let begin = self.reading_position;
            let end = self.reduce_html(k, element.length);
            return Some(Elements::End(element.name, begin, end));
        }
        let read_comment = CommentElement::read_from(s, bytes);
        if let Some((element, k)) = read_comment {
            proof {
                reveal(head_element);
                lemma_step(html, pos as int, ElementModel::Comment(element.content@), k as int);
            }
            self.reduce_html(k, element.length);
            return Some(Elements::Comment(element.content));
        }
        let read_text = TextElement::read_from(s, bytes);
        if let Some((element, k)) = read_text {
            proof {
                reveal(head_element);
                lemma_step(html, pos as int, ElementModel::Text(element.content@), k as int);
            }
            self.reduce_html(k, element.length);
            return Some(Elements::Text(element.content));
        }
        proof {
            reveal(head_element);
            reveal(events_from);
            reveal(spans_from);
        }
        None
    }
}

} // verus!
