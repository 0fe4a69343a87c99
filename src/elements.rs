//! Recognizers for the elements that can stand at the head of the input:
//! end tags, comments, doctypes and text runs, and the helpers they share.
//! Start tags live in `start_element`.
use crate::chars::{
    byte_len, chars_for_bytes, chars_for_bytes_exec, find, find_from, find_from_exec, lemma_byte_len_concat, lemma_byte_len_encode,
    lemma_byte_len_push, lemma_find_from, occurs_at_exec, string_of, strip_breaks,
    strip_breaks_exec, to_chars, utf8_width,
};
use vstd::prelude::*;

verus! {

/// `s` begins with `p`.
pub open spec fn starts_with(s: Seq<char>, p: Seq<char>) -> bool {
    p.len() <= s.len() && s.take(p.len() as int) == p
}

/// An ASCII letter.
pub open spec fn ascii_letter(c: char) -> bool {
    ('a' <= c && c <= 'z') || ('A' <= c && c <= 'Z')
}

/// `s` takes at least `min_bytes` bytes, begins with `p`, and an ASCII
/// letter follows `p`.
pub open spec fn element_like(s: Seq<char>, p: Seq<char>, min_bytes: nat) -> bool {
    &&& byte_len(s) >= min_bytes
    &&& starts_with(s, p)
    &&& p.len() < s.len()
    &&& ascii_letter(s[p.len() as int])
}

/// Something that can be read at the head of the input.
pub trait Element: Sized + View {
    /// What is read at the head of `s`, if anything.
    spec fn read(s: Seq<char>) -> Option<Self::V>;

    /// Reads the element at the head of `html`.
    fn extract(html: &str) -> (r: Option<Self>)
        ensures
            match r {
                Some(e) => Self::read(html@) == Some(e@),
                None => Self::read(html@) is None,
            },
    ;
}

/// Whether `c` is an ASCII letter.
pub fn is_ascii_letter(c: char) -> (r: bool)
    ensures
        r == ascii_letter(c),
{
    ('a' <= c && c <= 'z') || ('A' <= c && c <= 'Z')
}

/// Whether `s` begins with `p`.
pub fn starts_with_exec(s: &[char], p: &[char]) -> (r: bool)
    ensures
        r == starts_with(s@, p@),
{
    if p.len() > s.len() {
        return false;
    }
    let r = occurs_at_exec(s, 0, p);
    assert(s@.subrange(0, p@.len() as int) =~= s@.take(p@.len() as int));
    r
}

/// Number of bytes of `s[from..to]`.
pub fn bytes_of(s: &[char], from: usize, to: usize) -> (r: usize)
    requires
        from <= to <= s@.len(),
        byte_len(s@) <= usize::MAX,
    ensures
        r == byte_len(s@.subrange(from as int, to as int)),
{
    proof {
        lemma_byte_len_concat(s@.subrange(0, from as int), s@.subrange(from as int, to as int));
        lemma_byte_len_concat(s@.subrange(0, to as int), s@.subrange(to as int, s@.len() as int));
        assert(s@.subrange(0, from as int) + s@.subrange(from as int, to as int) =~= s@.subrange(
            0,
            to as int,
        ));
        assert(s@.subrange(0, to as int) + s@.subrange(to as int, s@.len() as int) =~= s@);
    }
    let mut n: usize = 0;
    let mut i = from;
    while i < to
        invariant
            from <= i <= to <= s@.len(),
            n == byte_len(s@.subrange(from as int, i as int)),
            byte_len(s@.subrange(from as int, to as int)) <= usize::MAX,
        decreases to - i,
    {
        proof {
            assert(s@.subrange(from as int, i + 1) =~= s@.subrange(from as int, i as int).push(
                s@[i as int],
            ));
            lemma_byte_len_push(s@.subrange(from as int, i as int), s@[i as int]);
            lemma_byte_len_concat(
                s@.subrange(from as int, i + 1),
                s@.subrange(i + 1, to as int),
            );
            assert(s@.subrange(from as int, i + 1) + s@.subrange(i + 1, to as int) =~= s@.subrange(
                from as int,
                to as int,
            ));
        }
        n = n + utf8_width(s[i]);
        i += 1;
    }
    n
}

/// The byte length of a string, as the character view gives it.
pub fn str_byte_len(html: &str) -> (r: usize)
    ensures
        r == byte_len(html@),
{
    proof {
        lemma_byte_len_encode(html@);
    }
    html.as_bytes().len()
}

/// Whether `html` takes at least `expected_smallest_length` bytes, begins
/// with `start`, and has an ASCII letter right after it.
pub fn is_element_like(html: &str, start: &str, expected_smallest_length: usize) -> (r: bool)
    ensures
        r == element_like(html@, start@, expected_smallest_length as nat),
{
    let s = to_chars(html);
    let p = to_chars(start);
    element_like_exec(s.as_slice(), p.as_slice(), str_byte_len(html), expected_smallest_length)
}

/// `element_like` on `s`, whose byte length is `bytes`.
pub fn element_like_exec(s: &[char], p: &[char], bytes: usize, min_bytes: usize) -> (r: bool)
    requires
        bytes == byte_len(s@),
    ensures
        r == element_like(s@, p@, min_bytes as nat),
{
    bytes >= min_bytes && starts_with_exec(s, p) && p.len() < s.len() && is_ascii_letter(
        s[p.len()],
    )
}

/// Where the first `end` after the first `skip` characters of `s` begins.
pub open spec fn closing(s: Seq<char>, skip: nat, end: Seq<char>) -> Option<int> {
    find_from(s, end, skip as int)
}

/// The text between the first `skip` characters of `s` and the first `end`
/// after them (without its line breaks when `strip`), and the byte length of
/// the whole span through `end`.
pub open spec fn delimited(s: Seq<char>, skip: nat, end: Seq<char>, strip: bool) -> Option<
    (Seq<char>, nat),
> {
    match closing(s, skip, end) {
        Some(k) => Some(
            (
                if strip {
                    strip_breaks(s.subrange(skip as int, k))
                } else {
                    s.subrange(skip as int, k)
                },
                byte_len(s.take(k + end.len())),
            ),
        ),
        None => None,
    }
}

/// Characters from the head of `s` through the first `end` after the first
/// `skip` characters.
pub open spec fn delimited_span(s: Seq<char>, skip: nat, end: Seq<char>) -> int {
    match closing(s, skip, end) {
        Some(k) => k + end.len(),
        None => 0,
    }
}

/// Reads the text after the first `skip` characters of `s` up to the first
/// `end`, the byte length of the span through `end`, and its length in
/// characters.
pub fn delimited_exec(s: &[char], skip: usize, end: &[char], strip: bool) -> (r: Option<
    (String, usize, usize),
>)
    requires
        end@.len() > 0,
        byte_len(s@) <= usize::MAX,
    ensures
        match r {
            Some((c, n, k)) => delimited(s@, skip as nat, end@, strip) == Some((c@, n as nat))
                && k == delimited_span(s@, skip as nat, end@) && skip < k <= s@.len(),
            None => delimited(s@, skip as nat, end@, strip) is None,
        },
{
    match find_from_exec(s, skip, end) {
        Some(k) => {
            proof {
                lemma_find_from(s@, end@, skip as int);
                assert(s@.subrange(0, k + end@.len()) =~= s@.take(k + end@.len()));
                assert(s@.len() == s.len());
            }
            let content = if strip {
                strip_breaks_exec(s, skip, k)
            } else {
                string_of(s, skip, k)
            };
            let n = bytes_of(s, 0, k + end.len());
            Some((content, n, k + end.len()))
        },
        None => None,
    }
}

/// What `extract_element_like` reads from `html`: the text from where the
/// first `start` bytes end up to the first `end` of `html` (without its line
/// breaks when `strip`), and the byte length of the span through that
/// `end`; nothing when the cut does not fall between two characters, or
/// when `end` is missing or comes before the cut.
pub open spec fn element_like_read(
    html: Seq<char>,
    start: Seq<char>,
    end: Seq<char>,
    strip: bool,
) -> Option<(Seq<char>, nat)> {
    match (chars_for_bytes(html, byte_len(start)), find(html, end)) {
        (Some(k), Some(q)) => if k <= q {
            Some(
                (
                    if strip {
                        strip_breaks(html.subrange(k, q))
                    } else {
                        html.subrange(k, q)
                    },
                    byte_len(html.take(q + end.len())),
                ),
            )
        } else {
            None
        },
        _ => None,
    }
}

/// Reads the text between the first `start_str.len()` bytes of `html` and
/// the first `end_str`, without its line breaks, and the byte length of the
/// span through `end_str`.
pub fn extract_element_like(html: &str, start_str: &str, end_str: &str) -> (r: (String, usize))
    requires
        element_like_read(html@, start_str@, end_str@, true) is Some,
    ensures
        element_like_read(html@, start_str@, end_str@, true) == Some((r.0@, r.1 as nat)),
{
    element_like_str(html, start_str, end_str, true)
}

/// Reads an end tag `</name>` at the head of `html`: its name, all that
/// runs to `>`, and its byte length.
pub fn extract_end_tag_name(html: &str) -> (r: (String, usize))
    requires
        element_like_read(html@, end_open(), angle_close(), false) is Some,
    ensures
        element_like_read(html@, end_open(), angle_close(), false) == Some((r.0@, r.1 as nat)),
{
    let open = "</";
    let close = ">";
    proof {
        reveal_strlit("</");
        reveal_strlit(">");
    }
    assert(open@ =~= end_open());
    assert(close@ =~= angle_close());
    extract_multiline_element_like(html, open, close)
}

/// Reads the text between the first `start_str.len()` bytes of `html` and
/// the first `end_str`, verbatim, and the byte length of the span through
/// `end_str`.
pub fn extract_multiline_element_like(html: &str, start_str: &str, end_str: &str) -> (r: (
    String,
    usize,
))
    requires
        element_like_read(html@, start_str@, end_str@, false) is Some,
    ensures
        element_like_read(html@, start_str@, end_str@, false) == Some((r.0@, r.1 as nat)),
{
    element_like_str(html, start_str, end_str, false)
}

fn element_like_str(html: &str, start_str: &str, end_str: &str, strip: bool) -> (r: (
    String,
    usize,
))
    requires
        element_like_read(html@, start_str@, end_str@, strip) is Some,
    ensures
        element_like_read(html@, start_str@, end_str@, strip) == Some((r.0@, r.1 as nat)),
{
    let s = to_chars(html);
    let e = to_chars(end_str);
    let _ = str_byte_len(html);
    let start_bytes = str_byte_len(start_str);
    let k = match chars_for_bytes_exec(s.as_slice(), start_bytes) {
        Some(k) => k,
        None => {
            assert(false);
            return (String::new(), 0);
        },
    };
    let q = match find_from_exec(s.as_slice(), 0, e.as_slice()) {
        Some(q) => q,
        None => {
            assert(false);
            return (String::new(), 0);
        },
    };
    proof {
        lemma_find_from(s@, e@, 0);
        assert(s@.subrange(0, q + e@.len()) =~= s@.take(q + e@.len()));
        assert(s@.len() == s.len());
    }
    let content = if strip {
        strip_breaks_exec(s.as_slice(), k, q)
    } else {
        string_of(s.as_slice(), k, q)
    };
    let n = bytes_of(s.as_slice(), 0, q + e.len());
    (content, n)
}

/// `</`
pub open spec fn end_open() -> Seq<char> {
    seq!['<', '/']
}

/// `>`
pub open spec fn angle_close() -> Seq<char> {
    seq!['>']
}

/// `<!--`
pub open spec fn comment_open() -> Seq<char> {
    seq!['<', '!', '-', '-']
}

/// `-->`
pub open spec fn comment_close() -> Seq<char> {
    seq!['-', '-', '>']
}

/// `<!doctype`
pub open spec fn doctype_open() -> Seq<char> {
    seq!['<', '!', 'd', 'o', 'c', 't', 'y', 'p', 'e']
}

/// `<`
pub open spec fn angle_open() -> Seq<char> {
    seq!['<']
}

/// `c` is `d`, or the ASCII capital of the lower-case letter `d`.
pub open spec fn same_ignoring_case(c: char, d: char) -> bool {
    c == d || ('a' <= d && d <= 'z' && (c as u32) + 32 == (d as u32))
}

/// `s` begins with the lower-case `p`, ignoring ASCII case.
pub open spec fn starts_with_ignoring_case(s: Seq<char>, p: Seq<char>) -> bool {
    p.len() <= s.len() && forall|i: int| 0 <= i < p.len() ==> same_ignoring_case(s[i], p[i])
}

/// An end tag at the head of `s`: its name, all that runs to `>`, and its
/// byte length.
pub open spec fn end_tag_read(s: Seq<char>) -> Option<(Seq<char>, nat)> {
    if element_like(s, end_open(), 4) {
        delimited(s, 2, angle_close(), false)
    } else {
        None
    }
}

/// A comment at the head of `s`: its content, verbatim, and its byte length.
pub open spec fn comment_read(s: Seq<char>) -> Option<(Seq<char>, nat)> {
    if byte_len(s) >= 8 && starts_with(s, comment_open()) {
        delimited(s, 4, comment_close(), false)
    } else {
        None
    }
}

/// A doctype at the head of `s`: its content without line breaks, and its
/// byte length.
pub open spec fn doctype_read(s: Seq<char>) -> Option<(Seq<char>, nat)> {
    if byte_len(s) >= 15 && starts_with_ignoring_case(s, doctype_open()) {
        delimited(s, 9, angle_close(), true)
    } else {
        None
    }
}

/// Where a text run at the head of `s` ends: at the first `<`, or at the end.
pub open spec fn text_end(s: Seq<char>) -> int {
    match find(s, angle_open()) {
        Some(k) => k,
        None => s.len() as int,
    }
}

/// A text run at the head of `s`: its content and its byte length.
pub open spec fn text_read(s: Seq<char>) -> Option<(Seq<char>, nat)> {
    if s.len() > 0 && s[0] != '<' {
        Some((s.take(text_end(s)), byte_len(s.take(text_end(s)))))
    } else {
        None
    }
}

/// Whether `s` begins with the lower-case `p`, ignoring ASCII case.
fn starts_with_ignoring_case_exec(s: &[char], p: &[char]) -> (r: bool)
    ensures
        r == starts_with_ignoring_case(s@, p@),
{
    if p.len() > s.len() {
        return false;
    }
    let mut i: usize = 0;
    while i < p.len()
        invariant
            i <= p@.len() <= s@.len(),
            forall|j: int| 0 <= j < i ==> same_ignoring_case(s@[j], p@[j]),
        decreases p@.len() - i,
    {
        let c = s[i];
        let d = p[i];
        if !(c == d || ('a' <= d && d <= 'z' && (c as u32) == (d as u32) - 32)) {
            return false;
        }
        i += 1;
    }
    true
}

/// An end tag, `</name>`.
#[derive(PartialEq, Debug)]
pub struct EndElement {
    pub name: String,
    /// Bytes from `<` through `>`.
    pub length: usize,
}

impl View for EndElement {
    type V = (Seq<char>, nat);

    open spec fn view(&self) -> (Seq<char>, nat) {
        (self.name@, self.length as nat)
    }
}

impl EndElement {
    /// Reads an end tag at the head of `s`, whose byte length is `bytes`.
    pub fn read_from(s: &[char], bytes: usize) -> (r: Option<(EndElement, usize)>)
        requires
            bytes == byte_len(s@),
        ensures
            match r {
                Some((e, k)) => end_tag_read(s@) == Some(e@) && k == delimited_span(s@, 2, angle_close()) && 0 < k <= s@.len(),
                None => end_tag_read(s@) is None,
            },
    {
        let open = ['<', '/'];
        let close = ['>'];
        assert(open@ =~= end_open());
        assert(close@ =~= angle_close());
        if element_like_exec(s, &open, bytes, 4) {
            match delimited_exec(s, 2, &close, false) {
                Some((name, length, k)) => Some((EndElement { name, length }, k)),
                None => None,
            }
        } else {
            None
        }
    }
}

impl Element for EndElement {
    open spec fn read(s: Seq<char>) -> Option<(Seq<char>, nat)> {
        end_tag_read(s)
    }

    fn extract(html: &str) -> (r: Option<EndElement>) {
        let s = to_chars(html);
        match EndElement::read_from(s.as_slice(), str_byte_len(html)) {
            Some((e, _)) => Some(e),
            None => None,
        }
    }
}

/// A comment, `<!-- content -->`.
#[derive(PartialEq, Debug)]
pub struct CommentElement {
    pub content: String,
    /// Bytes from `<` through `>`.
    pub length: usize,
}

impl View for CommentElement {
    type V = (Seq<char>, nat);

    open spec fn view(&self) -> (Seq<char>, nat) {
        (self.content@, self.length as nat)
    }
}

impl CommentElement {
    /// Reads a comment at the head of `s`, whose byte length is `bytes`.
    pub fn read_from(s: &[char], bytes: usize) -> (r: Option<(CommentElement, usize)>)
        requires
            bytes == byte_len(s@),
        ensures
            match r {
                Some((e, k)) => comment_read(s@) == Some(e@) && k == delimited_span(s@, 4, comment_close()) && 0 < k <= s@.len(),
                None => comment_read(s@) is None,
            },
    {
        let open = ['<', '!', '-', '-'];
        let close = ['-', '-', '>'];
        assert(open@ =~= comment_open());
        assert(close@ =~= comment_close());
        if bytes >= 8 && starts_with_exec(s, &open) {
            match delimited_exec(s, 4, &close, false) {
                Some((content, length, k)) => Some((CommentElement { content, length }, k)),
                None => None,
            }
        } else {
            None
        }
    }
}

impl Element for CommentElement {
    open spec fn read(s: Seq<char>) -> Option<(Seq<char>, nat)> {
        comment_read(s)
    }

    fn extract(html: &str) -> (r: Option<CommentElement>) {
        let s = to_chars(html);
        match CommentElement::read_from(s.as_slice(), str_byte_len(html)) {
            Some((e, _)) => Some(e),
            None => None,
        }
    }
}

/// A doctype, `<!doctype content>`, in any ASCII case.
#[derive(PartialEq, Debug)]
pub struct DoctypeElement {
    pub content: String,
    /// Bytes from `<` through `>`.
    pub length: usize,
}

impl View for DoctypeElement {
    type V = (Seq<char>, nat);

    open spec fn view(&self) -> (Seq<char>, nat) {
        (self.content@, self.length as nat)
    }
}

impl DoctypeElement {
    /// Reads a doctype at the head of `s`, whose byte length is `bytes`.
    pub fn read_from(s: &[char], bytes: usize) -> (r: Option<(DoctypeElement, usize)>)
        requires
            bytes == byte_len(s@),
        ensures
            match r {
                Some((e, k)) => doctype_read(s@) == Some(e@) && k == delimited_span(s@, 9, angle_close()) && 0 < k <= s@.len(),
                None => doctype_read(s@) is None,
            },
    {
        let open = ['<', '!', 'd', 'o', 'c', 't', 'y', 'p', 'e'];
        let close = ['>'];
        assert(open@ =~= doctype_open());
        assert(close@ =~= angle_close());
        if bytes >= 15 && starts_with_ignoring_case_exec(s, &open) {
            match delimited_exec(s, 9, &close, true) {
                Some((content, length, k)) => Some((DoctypeElement { content, length }, k)),
                None => None,
            }
        } else {
            None
        }
    }
}

impl Element for DoctypeElement {
    open spec fn read(s: Seq<char>) -> Option<(Seq<char>, nat)> {
        doctype_read(s)
    }

    fn extract(html: &str) -> (r: Option<DoctypeElement>) {
        let s = to_chars(html);
        match DoctypeElement::read_from(s.as_slice(), str_byte_len(html)) {
            Some((e, _)) => Some(e),
            None => None,
        }
    }
}

/// A run of text.
#[derive(PartialEq, Debug)]
pub struct TextElement {
    pub content: String,
    /// Bytes of the run.
    pub length: usize,
}

impl View for TextElement {
    type V = (Seq<char>, nat);

    open spec fn view(&self) -> (Seq<char>, nat) {
        (self.content@, self.length as nat)
    }
}

impl TextElement {
    /// Reads a text run at the head of `s`, whose byte length is `bytes`.
    pub fn read_from(s: &[char], bytes: usize) -> (r: Option<(TextElement, usize)>)
        requires
            bytes == byte_len(s@),
        ensures
            match r {
                Some((e, k)) => text_read(s@) == Some(e@) && k == text_end(s@) && 0 < k <= s@.len(),
                None => text_read(s@) is None,
            },
    {
        if s.len() == 0 || s[0] == '<' {
            return None;
        }
        let open = ['<'];
        assert(open@ =~= angle_open());
        let end = match find_from_exec(s, 0, &open) {
            Some(k) => k,
            None => s.len(),
        };
        proof {
            lemma_find_from(s@, angle_open(), 0);
            assert(s@.subrange(0, end as int) =~= s@.take(end as int));
            if end == 0 {
                assert(s@.subrange(0, 1) =~= seq![s@[0]]);
            }
        }
        let content = string_of(s, 0, end);
        let length = bytes_of(s, 0, end);
        Some((TextElement { content, length }, end))
    }
}

impl Element for TextElement {
    open spec fn read(s: Seq<char>) -> Option<(Seq<char>, nat)> {
        text_read(s)
    }

    fn extract(html: &str) -> (r: Option<TextElement>) {
        let s = to_chars(html);
        match TextElement::read_from(s.as_slice(), str_byte_len(html)) {
            Some((e, _)) => Some(e),
            None => None,
        }
    }
}

} // verus!
