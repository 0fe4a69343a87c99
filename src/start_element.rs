//! Start tags: `<name attr='value' ...>` and self-closing `<name ... />`.
use crate::attributes::Attributes;
use crate::chars::{
    breaks_to_spaces, breaks_to_spaces_exec, byte_len, find, find_from_exec, is_white_space,
    lemma_find_at, lemma_find_from, lemma_find_none, lemma_no_breaks, occurs_at, string_of,
    to_chars, white_space,
};
use crate::elements::{
    angle_close, angle_open, bytes_of, element_like, element_like_exec, str_byte_len, Element,
};
use crate::tag_parser::{
    attribute_text, attributes_of, lemma_pairs_map, lemma_parse_attribute_text, name_char,
    pairs_map, quote, well_formed_pairs, TagParser,
};
use vstd::prelude::*;

verus! {

/// What a start tag holds.
pub struct TagModel {
    pub name: Seq<char>,
    pub attributes: Map<Seq<char>, Seq<char>>,
    pub length: nat,
    pub is_autoclosing: bool,
}

/// `/>`
pub open spec fn self_close() -> Seq<char> {
    seq!['/', '>']
}

/// `id`
pub open spec fn id_name() -> Seq<char> {
    seq!['i', 'd']
}

/// `class`
pub open spec fn class_name() -> Seq<char> {
    seq!['c', 'l', 'a', 's', 's']
}

/// Where the content of the tag in `s` ends, and whether the tag closes
/// itself: whichever of `/>` and `>` comes first.
pub open spec fn tag_close(s: Seq<char>) -> Option<(int, bool)> {
    match (find(s, self_close()), find(s, angle_close())) {
        (Some(a), Some(c)) => Some(
            if a < c {
                (a, true)
            } else {
                (c, false)
            },
        ),
        (Some(a), None) => Some((a, true)),
        (None, Some(c)) => Some((c, false)),
        (None, None) => None,
    }
}

/// The first index at or after `i` that holds white space.
pub open spec fn first_space_from(s: Seq<char>, i: int) -> Option<int>
    decreases s.len() - i,
{
    if i < 0 || i >= s.len() {
        None
    } else if white_space(s[i]) {
        Some(i)
    } else {
        first_space_from(s, i + 1)
    }
}

/// The name part of a tag's content: up to the first white space.
pub open spec fn name_part(content: Seq<char>) -> Seq<char> {
    match first_space_from(content, 0) {
        Some(i) => content.take(i),
        None => content,
    }
}

/// The attributes of a tag's content: those read after the name.
pub open spec fn attribute_part(content: Seq<char>) -> Map<Seq<char>, Seq<char>> {
    match first_space_from(content, 0) {
        Some(i) => attributes_of(content.skip(i)),
        None => Map::empty(),
    }
}

/// The start tag that begins at the first `<` of `s`.
pub open spec fn tag_of(s: Seq<char>) -> Option<TagModel> {
    match find(s, angle_open()) {
        None => None,
        Some(start) => match tag_close(s) {
            None => None,
            Some((end, autoclosing)) => if end < start + 1 {
                None
            } else {
                let content = breaks_to_spaces(s.subrange(start + 1, end));
                Some(
                    TagModel {
                        name: name_part(content),
                        attributes: attribute_part(content),
                        length: byte_len(
                            s.subrange(
                                start,
                                end + if autoclosing {
                                    2int
                                } else {
                                    1int
                                },
                            ),
                        ),
                        is_autoclosing: autoclosing,
                    },
                )
            },
        },
    }
}

/// Characters from the head of `s` through the close of its tag.
pub open spec fn tag_span(s: Seq<char>) -> int {
    match tag_close(s) {
        Some((end, autoclosing)) => end + if autoclosing {
            2int
        } else {
            1int
        },
        None => 0,
    }
}

/// A start tag at the head of `s`: `<` and an ASCII letter, three bytes at
/// least, and a closing `>` or `/>`.
pub open spec fn start_tag_read(s: Seq<char>) -> Option<TagModel> {
    if element_like(s, angle_open(), 3) {
        tag_of(s)
    } else {
        None
    }
}

/// One parsed start tag.
#[derive(PartialEq, Debug)]
pub struct Tag {
    /// The tag name, as written.
    pub name: String,
    /// Attribute names mapped to their values; `"true"` for an attribute
    /// written without a value.
    pub attributes: Attributes,
    /// Bytes from `<` through the closing `>` or `/>`.
    pub length: usize,
    /// Whether the tag closes itself with `/>`.
    pub is_autoclosing: bool,
}

impl View for Tag {
    type V = TagModel;

    open spec fn view(&self) -> TagModel {
        TagModel {
            name: self.name@,
            attributes: self.attributes@,
            length: self.length as nat,
            is_autoclosing: self.is_autoclosing,
        }
    }
}

impl Tag {
    /// The `id` attribute.
    pub fn id(&self) -> (r: Option<&String>)
        ensures
            r is Some <==> self@.attributes.contains_key(id_name()),
            r matches Some(v) ==> v@ == self@.attributes[id_name()],
    {
        proof {
            reveal_strlit("id");
        }
        assert("id"@ =~= id_name());
        self.attributes.get("id")
    }

    /// The `class` attribute: all classes in one string, separated by
    /// spaces as in the HTML code.
    pub fn classes(&self) -> (r: Option<&String>)
        ensures
            r is Some <==> self@.attributes.contains_key(class_name()),
            r matches Some(v) ==> v@ == self@.attributes[class_name()],
    {
        proof {
            reveal_strlit("class");
        }
        assert("class"@ =~= class_name());
        self.attributes.get("class")
    }

    /// Reads a start tag at the head of `s`, whose byte length is `bytes`.
    pub fn read_from(s: &[char], bytes: usize) -> (r: Option<(Tag, usize)>)
        requires
            bytes == byte_len(s@),
        ensures
            match r {
                Some((t, k)) => start_tag_read(s@) == Some(t@) && k == tag_span(s@) && 0 < k
                    <= s@.len(),
                None => start_tag_read(s@) is None,
            },
    {
        let open = ['<'];
        assert(open@ =~= angle_open());
        if element_like_exec(s, &open, bytes, 3) {
            tag_in(s)
        } else {
            None
        }
    }
}

impl Element for Tag {
    open spec fn read(s: Seq<char>) -> Option<TagModel> {
        start_tag_read(s)
    }

    fn extract(html: &str) -> (r: Option<Tag>) {
        let s = to_chars(html);
        match Tag::read_from(s.as_slice(), str_byte_len(html)) {
            Some((t, _)) => Some(t),
            None => None,
        }
    }
}

/// The first index at or after `from` that holds white space.
fn first_space_exec(s: &[char], from: usize) -> (r: Option<usize>)
    ensures
        match r {
            Some(i) => first_space_from(s@, from as int) == Some(i as int),
            None => first_space_from(s@, from as int) is None,
        },
{
    let mut i = from;
    while i < s.len()
        invariant
            from <= i,
            first_space_from(s@, from as int) == first_space_from(s@, i as int),
        decreases s@.len() - i,
    {
        if is_white_space(s[i]) {
            return Some(i);
        }
        i += 1;
    }
    None
}

/// The start tag that begins at the first `<` of `s`.
fn tag_in(s: &[char]) -> (r: Option<(Tag, usize)>)
    requires
        byte_len(s@) <= usize::MAX,
    ensures
        match r {
            Some((t, k)) => tag_of(s@) == Some(t@) && k == tag_span(s@) && 0 < k <= s@.len(),
            None => tag_of(s@) is None,
        },
{
    let open = ['<'];
    let self_closing = ['/', '>'];
    let close = ['>'];
    assert(open@ =~= angle_open());
    assert(self_closing@ =~= self_close());
    assert(close@ =~= angle_close());
    let start = match find_from_exec(s, 0, &open) {
        Some(k) => k,
        None => {
            return None;
        },
    };
    let (end, is_autoclosing) = match (
        find_from_exec(s, 0, &self_closing),
        find_from_exec(s, 0, &close),
    ) {
        (Some(a), Some(c)) => if a < c {
            (a, true)
        } else {
            (c, false)
        },
        (Some(a), None) => (a, true),
        (None, Some(c)) => (c, false),
        (None, None) => {
            return None;
        },
    };
    proof {
        lemma_find_from(s@, angle_open(), 0);
        lemma_find_from(s@, self_close(), 0);
        lemma_find_from(s@, angle_close(), 0);
        assert(s@.len() == s.len());
    }
    if end <= start {
        return None;
    }
    let content = breaks_to_spaces_exec(s, start + 1, end);
    let ghost c = content@;
    let (name, attributes) = match first_space_exec(content.as_slice(), 0) {
        Some(i) => {
            proof {
                lemma_first_space_from(c, 0);
                assert(content@.subrange(0, i as int) =~= c.take(i as int));
                assert(content@.subrange(i as int, content@.len() as int) =~= c.skip(i as int));
            }
            let name = string_of(content.as_slice(), 0, i);
            let mut parser = TagParser::new();
            let attributes = parser.parse_chars(&content.as_slice()[i..content.len()]);
            (name, attributes)
        },
        None => {
            proof {
                assert(content@.subrange(0, content@.len() as int) =~= c);
            }
            (string_of(content.as_slice(), 0, content.len()), Attributes::new())
        },
    };
    let offset: usize = if is_autoclosing {
        2
    } else {
        1
    };
    let length = bytes_of(s, start, end + offset);
    Some((Tag { name, attributes, length, is_autoclosing }, end + offset))
}

proof fn lemma_first_space_from(s: Seq<char>, i: int)
    requires
        0 <= i,
    ensures
        first_space_from(s, i) matches Some(k) ==> i <= k < s.len(),
    decreases s.len() - i,
{
    if i < s.len() && !white_space(s[i]) {
        lemma_first_space_from(s, i + 1);
    }
}

/// A tag name without white space, `>` or `/`.
pub open spec fn well_formed_tag_name(name: Seq<char>) -> bool {
    forall|i: int|
        0 <= i < name.len() ==> !white_space(#[trigger] name[i]) && name[i] != '>' && name[i]
            != '/'
}

/// The start tag `<name a1='v1' ... an='vn'>`.
pub open spec fn written_tag(name: Seq<char>, pairs: Seq<(Seq<char>, Seq<char>)>) -> Seq<char> {
    seq!['<'] + name + attribute_text(pairs) + seq!['>']
}

pub proof fn lemma_text_chars(pairs: Seq<(Seq<char>, Seq<char>)>)
    requires
        well_formed_pairs(pairs),
    ensures
        forall|i: int|
            0 <= i < attribute_text(pairs).len() ==> #[trigger] attribute_text(pairs)[i] != '>'
                && attribute_text(pairs)[i] != '\n' && attribute_text(pairs)[i] != '\r',
        pairs.len() > 0 ==> attribute_text(pairs).len() > 0 && attribute_text(pairs)[0] == ' '
            && attribute_text(pairs).last() == '\'',
        pairs.len() == 0 ==> attribute_text(pairs).len() == 0,
    decreases pairs.len(),
{
    if pairs.len() > 0 {
        let d = pairs.drop_last();
        crate::tag_parser::lemma_well_formed_prefix(pairs);
        lemma_text_chars(d);
        let last = pairs[pairs.len() - 1];
        let n = last.0;
        let v = last.1;
        let piece = crate::tag_parser::attribute_piece(n, v);
        let t = attribute_text(pairs);
        assert(t == attribute_text(d) + piece);
        assert(piece =~= seq![' '] + n + seq!['=', '\''] + v + seq!['\'']);
        assert forall|i: int| 0 <= i < piece.len() implies #[trigger] piece[i] != '>' && piece[i]
            != '\n' && piece[i] != '\r' by {
            if 1 <= i < 1 + n.len() {
                assert(piece[i] == n[i - 1]);
                assert(name_char(pairs[pairs.len() - 1].0[i - 1]));
            } else if 3 + n.len() <= i < 3 + n.len() + v.len() {
                assert(piece[i] == v[i - 3 - n.len()]);
                assert(pairs[pairs.len() - 1].1[i - 3 - n.len()] == v[i - 3 - n.len()]);
            }
        }
        assert forall|i: int| 0 <= i < t.len() implies #[trigger] t[i] != '>' && t[i] != '\n'
            && t[i] != '\r' by {
            if i < attribute_text(d).len() {
                assert(t[i] == attribute_text(d)[i]);
            } else {
                assert(t[i] == piece[i - attribute_text(d).len()]);
            }
        }
        if d.len() > 0 {
            assert(t[0] == attribute_text(d)[0]);
        } else {
            assert(t[0] == piece[0]);
        }
    }
}

proof fn lemma_first_space_is(s: Seq<char>, i: int, k: int)
    requires
        0 <= i <= k < s.len(),
        forall|j: int| i <= j < k ==> !white_space(#[trigger] s[j]),
        white_space(s[k]),
    ensures
        first_space_from(s, i) == Some(k),
    decreases k - i,
{
    if i < k {
        lemma_first_space_is(s, i + 1, k);
    }
}

proof fn lemma_no_space(s: Seq<char>, i: int)
    requires
        0 <= i,
        forall|j: int| i <= j < s.len() ==> !white_space(#[trigger] s[j]),
    ensures
        first_space_from(s, i) is None,
    decreases s.len() - i,
{
    if i < s.len() {
        lemma_no_space(s, i + 1);
    }
}

/// Reading a well-formed start tag gives back its name, and each of its
/// attribute pairs exactly once.
pub proof fn lemma_tag_round_trip(name: Seq<char>, pairs: Seq<(Seq<char>, Seq<char>)>)
    requires
        well_formed_tag_name(name),
        well_formed_pairs(pairs),
    ensures
        tag_of(written_tag(name, pairs)) is Some,
        tag_of(written_tag(name, pairs))->Some_0.name == name,
        tag_of(written_tag(name, pairs))->Some_0.attributes == pairs_map(pairs),
        !tag_of(written_tag(name, pairs))->Some_0.is_autoclosing,
        tag_of(written_tag(name, pairs))->Some_0.length == byte_len(written_tag(name, pairs)),
        pairs_map(pairs).dom().len() == pairs.len(),
        forall|i: int|
            0 <= i < pairs.len() ==> pairs_map(pairs).contains_key(#[trigger] pairs[i].0)
                && pairs_map(pairs)[pairs[i].0] == pairs[i].1,
{
    let t = attribute_text(pairs);
    let content = name + t;
    let s = written_tag(name, pairs);
    lemma_text_chars(pairs);
    lemma_pairs_map(pairs);
    lemma_parse_attribute_text(pairs);
    assert(s =~= seq!['<'] + content + seq!['>']);
    let len = s.len() as int;
    assert forall|j: int| 1 <= j < len - 1 implies s[j] == content[j - 1] by {}
    assert forall|j: int| 0 <= j < content.len() implies #[trigger] content[j] != '>' && content[j]
        != '\n' && content[j] != '\r' by {
        if j < name.len() {
            assert(content[j] == name[j]);
            assert(!white_space(name[j]));
        } else {
            assert(content[j] == t[j - name.len()]);
        }
    }
    // where the tag begins and ends
    assert(s.subrange(0, 1) =~= seq!['<']);
    lemma_find_at(s, seq!['<'], 0);
    assert(s.subrange(len - 1, len) =~= seq!['>']);
    assert forall|j: int| 0 <= j < len - 1 implies !occurs_at(s, seq!['>'], j) by {
        if occurs_at(s, seq!['>'], j) {
            assert(s.subrange(j, j + 1)[0] == s[j]);
            if j >= 1 {
                assert(s[j] == content[j - 1]);
            }
        }
    }
    lemma_find_at(s, seq!['>'], len - 1);
    assert forall|j: int| !occurs_at(s, seq!['/', '>'], j) by {
        if occurs_at(s, seq!['/', '>'], j) {
            assert(s.subrange(j, j + 2)[0] == s[j]);
            assert(s.subrange(j, j + 2)[1] == s[j + 1]);
            if j + 1 < len - 1 {
                assert(occurs_at(s, seq!['>'], j + 1)) by {
                    assert(s.subrange(j + 1, j + 2) =~= seq!['>']);
                }
            } else if t.len() > 0 {
                assert(s[j] == content[content.len() - 1]);
                assert(content[content.len() - 1] == t[t.len() - 1]);
            } else if name.len() > 0 {
                assert(s[j] == content[content.len() - 1]);
                assert(content[content.len() - 1] == name[name.len() - 1]);
            }
        }
    }
    lemma_find_none(s, seq!['/', '>']);
    assert(self_close() == seq!['/', '>']);
    assert(angle_close() == seq!['>']);
    assert(angle_open() == seq!['<']);
    assert(s.subrange(1, len - 1) =~= content);
    lemma_no_breaks(content);
    assert(s.subrange(0, len) =~= s);
    // the name ends where the attributes begin
    if pairs.len() > 0 {
        assert(content[name.len() as int] == t[0]);
        assert(white_space(' '));
        assert forall|j: int| 0 <= j < name.len() implies !white_space(#[trigger] content[j]) by {
            assert(content[j] == name[j]);
        }
        lemma_first_space_is(content, 0, name.len() as int);
        assert(content.take(name.len() as int) =~= name);
        assert(content.skip(name.len() as int) =~= t);
    } else {
        assert(content =~= name);
        assert forall|j: int| 0 <= j < content.len() implies !white_space(#[trigger] content[j]) by {
            assert(content[j] == name[j]);
        }
        lemma_no_space(content, 0);
    }
}

/// Reads the start tag that begins at the first `<` of `html`.
pub fn extract_tag_name(html: &str) -> (r: Option<Tag>)
    ensures
        match r {
            Some(t) => tag_of(html@) == Some(t@),
            None => tag_of(html@) is None,
        },
{
    let s = to_chars(html);
    let _ = str_byte_len(html);
    match tag_in(s.as_slice()) {
        Some((t, _)) => Some(t),
        None => None,
    }
}

} // verus!
