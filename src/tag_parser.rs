//! The attribute parser: a character-by-character state machine over the
//! part of a start tag that follows its name.
use crate::attributes::Attributes;
use crate::chars::{alphanumeric, is_alphanumeric, is_white_space, push_char, to_chars, white_space};
use vstd::prelude::*;

verus! {

/// Where the parser stands inside a tag.
#[derive(PartialEq, Eq, Structural, Debug, Clone, Copy)]
pub enum ReadingState {
    /// Before an attribute, the first and initial state.
    Start,
    /// Reading an attribute name.
    ReadingAttributeName,
    /// A name was read and white space followed: an `=` may come.
    WaitForEquals,
    /// An `=` was read: the quoted value comes.
    WaitForAttributeValue,
    /// Reading a quoted value.
    ReadingAttributeValue,
}

/// The whole state of a parse: the pending name and value, the reading
/// state, and the attributes committed so far.
pub struct ParseModel {
    pub name: Seq<char>,
    pub value: Seq<char>,
    pub state: ReadingState,
    pub attributes: Map<Seq<char>, Seq<char>>,
}

/// An ASCII letter or digit.
pub open spec fn ascii_alphanumeric(c: char) -> bool {
    ('a' <= c && c <= 'z') || ('A' <= c && c <= 'Z') || ('0' <= c && c <= '9')
}

/// A character that may stand in an attribute name: a letter or digit
/// (beyond ASCII, as `char::is_alphanumeric` has it), or `-`.
pub open spec fn name_char(c: char) -> bool {
    if (c as u32) < 0x80 {
        ascii_alphanumeric(c) || c == '-'
    } else {
        alphanumeric(c)
    }
}

/// `"` or `'`.
pub open spec fn quote(c: char) -> bool {
    c == '"' || c == '\''
}

/// The value given to an attribute written without one.
pub open spec fn true_text() -> Seq<char> {
    seq!['t', 'r', 'u', 'e']
}

/// One character of input.
pub open spec fn step(m: ParseModel, c: char) -> ParseModel {
    if name_char(c) && (m.state == ReadingState::Start || m.state
        == ReadingState::ReadingAttributeName) {
        ParseModel { name: m.name.push(c), state: ReadingState::ReadingAttributeName, ..m }
    } else if c == '=' && (m.state == ReadingState::ReadingAttributeName || m.state
        == ReadingState::WaitForEquals) {
        ParseModel { state: ReadingState::WaitForAttributeValue, ..m }
    } else if quote(c) && m.state == ReadingState::WaitForAttributeValue {
        ParseModel { state: ReadingState::ReadingAttributeValue, ..m }
    } else if !quote(c) && m.state == ReadingState::ReadingAttributeValue {
        ParseModel { value: m.value.push(c), ..m }
    } else if quote(c) && m.state == ReadingState::ReadingAttributeValue {
        ParseModel {
            name: Seq::empty(),
            value: Seq::empty(),
            state: ReadingState::Start,
            attributes: m.attributes.insert(m.name, m.value),
        }
    } else if white_space(c) && m.state == ReadingState::ReadingAttributeName {
        ParseModel { state: ReadingState::WaitForEquals, ..m }
    } else if name_char(c) && m.state == ReadingState::WaitForEquals {
        ParseModel {
            name: seq![c],
            value: Seq::empty(),
            state: ReadingState::ReadingAttributeName,
            attributes: m.attributes.insert(m.name, true_text()),
        }
    } else {
        m
    }
}

/// The state after reading all of `s`.
pub open spec fn run(m: ParseModel, s: Seq<char>) -> ParseModel
    decreases s.len(),
{
    if s.len() == 0 {
        m
    } else {
        step(run(m, s.drop_last()), s.last())
    }
}

/// End of input: a pending name without a value is committed as `"true"`.
pub open spec fn finish(m: ParseModel) -> ParseModel {
    if m.name.len() > 0 && m.value.len() == 0 && (m.state == ReadingState::ReadingAttributeName
        || m.state == ReadingState::WaitForEquals) {
        ParseModel {
            name: Seq::empty(),
            value: Seq::empty(),
            state: ReadingState::Start,
            attributes: m.attributes.insert(m.name, true_text()),
        }
    } else {
        m
    }
}

/// `m` with `a` as its committed attributes.
pub open spec fn with_attributes(m: ParseModel, a: Map<Seq<char>, Seq<char>>) -> ParseModel {
    ParseModel { attributes: a, ..m }
}

/// The part of `m` that a parser keeps between calls.
pub open spec fn pending(m: ParseModel) -> ParseModel {
    with_attributes(m, Map::empty())
}

/// The state after parsing `s` from the pending state of `p` with no
/// attribute committed yet.
pub open spec fn parse(p: ParseModel, s: Seq<char>) -> ParseModel {
    finish(run(pending(p), s))
}

/// The attributes of `s` parsed from the initial state.
pub open spec fn attributes_of(s: Seq<char>) -> Map<Seq<char>, Seq<char>> {
    parse(initial_model(), s).attributes
}

pub open spec fn initial_model() -> ParseModel {
    ParseModel {
        name: Seq::empty(),
        value: Seq::empty(),
        state: ReadingState::Start,
        attributes: Map::empty(),
    }
}

/// `run` over two pieces of input, one after the other.
pub proof fn lemma_run_concat(m: ParseModel, a: Seq<char>, b: Seq<char>)
    ensures
        run(m, a + b) == run(run(m, a), b),
    decreases b.len(),
{
    if b.len() == 0 {
        assert(a + b =~= a);
    } else {
        lemma_run_concat(m, a, b.drop_last());
        assert((a + b).drop_last() =~= a + b.drop_last());
        assert((a + b).last() == b.last());
    }
}

proof fn lemma_run_one(m: ParseModel, c: char)
    ensures
        run(m, seq![c]) == step(m, c),
{
    assert(seq![c].drop_last() =~= Seq::<char>::empty());
    assert(run(m, seq![c].drop_last()) == m);
}

proof fn lemma_run_name(m: ParseModel, n: Seq<char>)
    requires
        m.state == ReadingState::Start || m.state == ReadingState::ReadingAttributeName,
        n.len() > 0,
        forall|i: int| 0 <= i < n.len() ==> name_char(#[trigger] n[i]),
    ensures
        run(m, n).name == m.name + n,
        run(m, n).value == m.value,
        run(m, n).state == ReadingState::ReadingAttributeName,
        run(m, n).attributes == m.attributes,
    decreases n.len(),
{
    let d = n.drop_last();
    assert(name_char(n[n.len() - 1]));
    if d.len() == 0 {
        assert(n =~= seq![n[0]]);
        lemma_run_one(m, n[0]);
        assert(m.name.push(n.last()) =~= m.name + n);
    } else {
        lemma_run_name(m, d);
        assert((m.name + d).push(n.last()) =~= m.name + n);
    }
}

proof fn lemma_run_value(m: ParseModel, v: Seq<char>)
    requires
        m.state == ReadingState::ReadingAttributeValue,
        forall|i: int| 0 <= i < v.len() ==> !quote(#[trigger] v[i]),
    ensures
        run(m, v).name == m.name,
        run(m, v).value == m.value + v,
        run(m, v).state == ReadingState::ReadingAttributeValue,
        run(m, v).attributes == m.attributes,
    decreases v.len(),
{
    if v.len() == 0 {
        assert(m.value + v =~= m.value);
    } else {
        let d = v.drop_last();
        assert(!quote(v[v.len() - 1]));
        lemma_run_value(m, d);
        assert((m.value + d).push(v.last()) =~= m.value + v);
    }
}

/// One attribute as it is written: a space, the name, `='`, the value, `'`.
pub open spec fn attribute_piece(name: Seq<char>, value: Seq<char>) -> Seq<char> {
    seq![' '] + name + seq!['=', '\''] + value + seq!['\'']
}

/// Attributes as they are written, one after the other.
pub open spec fn attribute_text(pairs: Seq<(Seq<char>, Seq<char>)>) -> Seq<char>
    decreases pairs.len(),
{
    if pairs.len() == 0 {
        Seq::empty()
    } else {
        attribute_text(pairs.drop_last()) + attribute_piece(pairs.last().0, pairs.last().1)
    }
}

/// The map of `pairs`, a later pair of a name replacing an earlier one.
pub open spec fn pairs_map(pairs: Seq<(Seq<char>, Seq<char>)>) -> Map<Seq<char>, Seq<char>>
    decreases pairs.len(),
{
    if pairs.len() == 0 {
        Map::empty()
    } else {
        pairs_map(pairs.drop_last()).insert(pairs.last().0, pairs.last().1)
    }
}

/// Names that are not empty and made of name characters, values without
/// quotes, and no name twice: what the parser reads back as written.
pub open spec fn readable_pairs(pairs: Seq<(Seq<char>, Seq<char>)>) -> bool {
    &&& forall|i: int|
        0 <= i < pairs.len() ==> (#[trigger] pairs[i]).0.len() > 0 && forall|k: int|
            0 <= k < pairs[i].0.len() ==> name_char(#[trigger] pairs[i].0[k])
    &&& forall|i: int, k: int|
        0 <= i < pairs.len() && 0 <= k < pairs[i].1.len() ==> !quote(#[trigger] pairs[i].1[k])
    &&& forall|i: int, j: int| 0 <= i < j < pairs.len() ==> pairs[i].0 != pairs[j].0
}

/// Readable pairs whose values also hold no line break and no `>`: what
/// can stand inside a start tag as written.
pub open spec fn well_formed_pairs(pairs: Seq<(Seq<char>, Seq<char>)>) -> bool {
    &&& readable_pairs(pairs)
    &&& forall|i: int, k: int|
        0 <= i < pairs.len() && 0 <= k < pairs[i].1.len() ==> {
            let c = #[trigger] pairs[i].1[k];
            c != '\n' && c != '\r' && c != '>'
        }
}

pub proof fn lemma_well_formed_prefix(pairs: Seq<(Seq<char>, Seq<char>)>)
    requires
        pairs.len() > 0,
    ensures
        readable_pairs(pairs) ==> readable_pairs(pairs.drop_last()),
        well_formed_pairs(pairs) ==> well_formed_pairs(pairs.drop_last()),
{
    let d = pairs.drop_last();
    assert forall|i: int| 0 <= i < d.len() implies d[i] == pairs[i] by {}
    if readable_pairs(pairs) {
        assert forall|i: int| 0 <= i < d.len() implies (#[trigger] d[i]).0.len() > 0 && forall|k: int|
            0 <= k < d[i].0.len() ==> name_char(#[trigger] d[i].0[k]) by {
            assert(d[i] == pairs[i]);
        }
        assert forall|i: int, k: int| 0 <= i < d.len() && 0 <= k < d[i].1.len() implies !quote(
            #[trigger] d[i].1[k],
        ) by {
            assert(d[i] == pairs[i]);
        }
        assert forall|i: int, j: int| 0 <= i < j < d.len() implies d[i].0 != d[j].0 by {
            assert(d[i] == pairs[i] && d[j] == pairs[j]);
        }
    }
    if well_formed_pairs(pairs) {
        assert forall|i: int, k: int| 0 <= i < d.len() && 0 <= k < d[i].1.len() implies {
            let c = #[trigger] d[i].1[k];
            c != '\n' && c != '\r' && c != '>'
        } by {
            assert(d[i] == pairs[i]);
        }
    }
}

proof fn lemma_run_piece(m: ParseModel, name: Seq<char>, value: Seq<char>)
    requires
        m.state == ReadingState::Start,
        m.name == Seq::<char>::empty(),
        m.value == Seq::<char>::empty(),
        name.len() > 0,
        forall|i: int| 0 <= i < name.len() ==> name_char(#[trigger] name[i]),
        forall|i: int| 0 <= i < value.len() ==> !quote(#[trigger] value[i]),
    ensures
        run(m, attribute_piece(name, value)) == with_attributes(
            m,
            m.attributes.insert(name, value),
        ),
{
    let sp = seq![' '];
    let eq = seq!['='];
    let q = seq!['\''];
    assert(attribute_piece(name, value) =~= sp + name + eq + q + value + q);
    lemma_run_concat(m, sp + name + eq + q + value, q);
    lemma_run_concat(m, sp + name + eq + q, value);
    lemma_run_concat(m, sp + name + eq, q);
    lemma_run_concat(m, sp + name, eq);
    lemma_run_concat(m, sp, name);
    lemma_run_one(m, ' ');
    let m1 = run(m, sp);
    assert(m1 == m);
    lemma_run_name(m1, name);
    let m2 = run(m1, name);
    assert(m.name + name =~= name);
    lemma_run_one(m2, '=');
    let m3 = run(m2, eq);
    lemma_run_one(m3, '\'');
    let m4 = run(m3, q);
    assert(m4.state == ReadingState::ReadingAttributeValue);
    lemma_run_value(m4, value);
    let m5 = run(m4, value);
    assert(m.value + value =~= value);
    lemma_run_one(m5, '\'');
}

/// Parsing written attributes from the initial state gives back their map
/// (each pair once) and leaves the parser in the initial state.
pub proof fn lemma_parse_attribute_text(pairs: Seq<(Seq<char>, Seq<char>)>)
    requires
        readable_pairs(pairs),
    ensures
        run(initial_model(), attribute_text(pairs)) == with_attributes(
            initial_model(),
            pairs_map(pairs),
        ),
        attributes_of(attribute_text(pairs)) == pairs_map(pairs),
    decreases pairs.len(),
{
    if pairs.len() > 0 {
        let d = pairs.drop_last();
        lemma_well_formed_prefix(pairs);
        lemma_parse_attribute_text(d);
        let last = pairs.last();
        assert(last == pairs[pairs.len() - 1]);
        lemma_run_concat(initial_model(), attribute_text(d), attribute_piece(last.0, last.1));
        assert forall|i: int| 0 <= i < last.0.len() implies name_char(#[trigger] last.0[i]) by {
            assert(pairs[pairs.len() - 1].0[i] == last.0[i]);
        }
        assert forall|i: int| 0 <= i < last.1.len() implies !quote(#[trigger] last.1[i]) by {
            assert(pairs[pairs.len() - 1].1[i] == last.1[i]);
        }
        lemma_run_piece(with_attributes(initial_model(), pairs_map(d)), last.0, last.1);
    }
    assert(pending(initial_model()) == initial_model());
}

/// The map of well-formed pairs holds each pair, and nothing else.
pub proof fn lemma_pairs_map(pairs: Seq<(Seq<char>, Seq<char>)>)
    requires
        readable_pairs(pairs),
    ensures
        pairs_map(pairs).dom().finite(),
        pairs_map(pairs).dom().len() == pairs.len(),
        forall|i: int|
            0 <= i < pairs.len() ==> pairs_map(pairs).contains_key(#[trigger] pairs[i].0)
                && pairs_map(pairs)[pairs[i].0] == pairs[i].1,
        forall|k: Seq<char>|
            #[trigger] pairs_map(pairs).contains_key(k) ==> exists|i: int|
                0 <= i < pairs.len() && pairs[i].0 == k,
    decreases pairs.len(),
{
    if pairs.len() > 0 {
        let d = pairs.drop_last();
        lemma_well_formed_prefix(pairs);
        lemma_pairs_map(d);
        let last = pairs[pairs.len() - 1];
        if pairs_map(d).contains_key(last.0) {
            let i = choose|i: int| 0 <= i < d.len() && d[i].0 == last.0;
            assert(pairs[i] == d[i]);
        }
        assert forall|i: int| 0 <= i < pairs.len() implies pairs_map(pairs).contains_key(
            #[trigger] pairs[i].0,
        ) && pairs_map(pairs)[pairs[i].0] == pairs[i].1 by {
            if i < pairs.len() - 1 {
                assert(pairs[i] == d[i]);
            }
        }
        assert forall|k: Seq<char>| #[trigger] pairs_map(pairs).contains_key(k) implies exists|i: int|
            0 <= i < pairs.len() && pairs[i].0 == k by {
            if k == last.0 {
                assert(pairs[pairs.len() - 1].0 == k);
            } else {
                let i = choose|i: int| 0 <= i < d.len() && d[i].0 == k;
                assert(pairs[i] == d[i]);
            }
        }
    }
}

/// The state of a parser between two calls.
#[derive(Debug)]
pub struct TagParser {
    /// The attribute name read so far.
    attribute_name_tmp: String,
    /// The attribute value read so far.
    attribute_value_tmp: String,
    /// Where the parser stands.
    state: ReadingState,
}

impl View for TagParser {
    type V = ParseModel;

    closed spec fn view(&self) -> ParseModel {
        ParseModel {
            name: self.attribute_name_tmp@,
            value: self.attribute_value_tmp@,
            state: self.state,
            attributes: Map::empty(),
        }
    }
}

/// Whether `c` may stand in an attribute name.
fn is_attribute_name(c: char) -> (r: bool)
    ensures
        r == name_char(c),
{
    if (c as u32) < 0x80 {
        ('a' <= c && c <= 'z') || ('A' <= c && c <= 'Z') || ('0' <= c && c <= '9') || c == '-'
    } else {
        is_alphanumeric(c)
    }
}

/// Whether `c` is `"` or `'`.
fn is_quote(c: char) -> (r: bool)
    ensures
        r == quote(c),
{
    c == '"' || c == '\''
}

/// The text `true`.
fn true_string() -> (r: String)
    ensures
        r@ == true_text(),
{
    let r = "true".to_owned();
    proof {
        reveal_strlit("true");
    }
    assert(r@ =~= true_text());
    r
}

impl TagParser {
    /// A parser in the initial state.
    pub fn new() -> (r: TagParser)
        ensures
            r@ == initial_model(),
    {
        TagParser {
            attribute_name_tmp: String::new(),
            attribute_value_tmp: String::new(),
            state: ReadingState::Start,
        }
    }

    /// The reading state.
    pub fn state(&self) -> (r: ReadingState)
        ensures
            r == self@.state,
    {
        self.state
    }

    /// Back to the initial state, ready for the next attribute.
    fn re_initialise_state(&mut self)
        ensures
            final(self)@ == initial_model(),
    {
        self.attribute_name_tmp = String::new();
        self.attribute_value_tmp = String::new();
        self.state = ReadingState::Start;
    }

    fn is_last_quote_ending_reading_attribute_value(&self, c: char) -> (r: bool)
        ensures
            r == (quote(c) && self@.state == ReadingState::ReadingAttributeValue),
    {
        is_quote(c) && self.state == ReadingState::ReadingAttributeValue
    }

    /// Reads one character, committing to `attributes` what it completes.
    fn read_char(&mut self, c: char, attributes: &mut Attributes)
        ensures
            final(self)@ == pending(step(with_attributes(old(self)@, old(attributes)@), c)),
            final(attributes)@ == step(with_attributes(old(self)@, old(attributes)@), c).attributes,
    {
        let name_like = is_attribute_name(c);
        if name_like && (self.state == ReadingState::Start || self.state
            == ReadingState::ReadingAttributeName) {
            push_char(&mut self.attribute_name_tmp, c);
            self.state = ReadingState::ReadingAttributeName;
        } else if c == '=' && (self.state == ReadingState::ReadingAttributeName || self.state
            == ReadingState::WaitForEquals) {
            self.state = ReadingState::WaitForAttributeValue;
        } else if is_quote(c) && self.state == ReadingState::WaitForAttributeValue {
            self.state = ReadingState::ReadingAttributeValue;
        } else if !is_quote(c) && self.state == ReadingState::ReadingAttributeValue {
            push_char(&mut self.attribute_value_tmp, c);
        } else if self.is_last_quote_ending_reading_attribute_value(c) {
            let name = self.attribute_name_tmp.clone();
            let value = self.attribute_value_tmp.clone();
            attributes.insert(name, value);
            self.re_initialise_state();
        } else if is_white_space(c) && self.state == ReadingState::ReadingAttributeName {
            self.state = ReadingState::WaitForEquals;
        } else if name_like && self.state == ReadingState::WaitForEquals {
            let name = self.attribute_name_tmp.clone();
            attributes.insert(name, true_string());
            self.re_initialise_state();
            push_char(&mut self.attribute_name_tmp, c);
            self.state = ReadingState::ReadingAttributeName;
            assert(self.attribute_name_tmp@ =~= seq![c]);
        }
    }

    /// Parses the attributes in `s`, character by character, from the
    /// parser's current state.
    pub fn parse_chars(&mut self, s: &[char]) -> (r: Attributes)
        ensures
            r@ == parse(old(self)@, s@).attributes,
            final(self)@ == pending(parse(old(self)@, s@)),
    {
        let ghost start = old(self)@;
        let mut attributes = Attributes::new();
        let mut i: usize = 0;
        while i < s.len()
            invariant
                i <= s@.len(),
                self@ == pending(run(pending(start), s@.take(i as int))),
                attributes@ == run(pending(start), s@.take(i as int)).attributes,
            decreases s@.len() - i,
        {
            proof {
                assert(s@.take(i + 1).drop_last() =~= s@.take(i as int));
            }
            self.read_char(s[i], &mut attributes);
            i += 1;
        }
        assert(s@.take(i as int) =~= s@);
        if !self.attribute_name_tmp.as_str().is_empty() && self.attribute_value_tmp.as_str().is_empty()
            && (self.state
            == ReadingState::ReadingAttributeName || self.state == ReadingState::WaitForEquals) {
            let name = self.attribute_name_tmp.clone();
            attributes.insert(name, true_string());
            self.re_initialise_state();
        }
        attributes
    }

    /// Parses all attributes after a tag name, character by character.
    pub fn parse_attributes(&mut self, html: &str) -> (r: Attributes)
        ensures
            r@ == parse(old(self)@, html@).attributes,
            final(self)@ == pending(parse(old(self)@, html@)),
    {
        let chars = to_chars(html);
        self.parse_chars(chars.as_slice())
    }
}

} // verus!
