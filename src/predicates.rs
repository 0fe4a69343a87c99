//! Selector predicates: tests on one frame of the tag path.
use crate::chars::{find_from_exec, lemma_find_from, occurs_at, to_chars};
use crate::elements::{starts_with, starts_with_exec};
use crate::start_element::{class_name, id_name};
use crate::tag_path::{ItemModel, TagPathItem};
use vstd::prelude::*;

verus! {

/// A test on one frame of the tag path.
#[derive(Debug)]
pub enum Predicate {
    /// The tag name is this one.
    TagName(String),
    /// The `id` attribute is this one.
    Id(String),
    /// The `class` attribute holds this text.
    Class(String),
    /// The tag has this attribute.
    HasAttribute(String),
    /// The attribute has this value.
    AttributeEquals(String, String),
    /// The attribute's value begins with this text.
    AttributeStartsWith(String, String),
    /// The attribute's value ends with this text.
    AttributeEndsWith(String, String),
    /// The attribute's value holds this text.
    AttributeContains(String, String),
    /// The attribute's value holds this word, delimited by spaces or by the
    /// ends of the value.
    AttributeHasWord(String, String),
    /// The frame's nth-child index is this one.
    NthChild(usize),
    /// All of these hold.
    And(Vec<Predicate>),
}

/// `s` ends with `p`.
pub open spec fn ends_with(s: Seq<char>, p: Seq<char>) -> bool {
    p.len() <= s.len() && s.skip(s.len() - p.len()) == p
}

/// `p` stands somewhere in `s`.
pub open spec fn contains(s: Seq<char>, p: Seq<char>) -> bool {
    exists|i: int| occurs_at(s, p, i)
}

/// `w` stands in `s` from `i` on, with a space or an end of `s` on each side.
pub open spec fn word_at(s: Seq<char>, w: Seq<char>, i: int) -> bool {
    &&& occurs_at(s, w, i)
    &&& (i == 0 || s[i - 1] == ' ')
    &&& (i + w.len() == s.len() || s[i + w.len()] == ' ')
}

/// `w` is one of the space-separated words of `s`.
pub open spec fn has_word(s: Seq<char>, w: Seq<char>) -> bool {
    exists|i: int| word_at(s, w, i)
}

/// The attribute `name` of the frame's tag has a value that meets `f`.
pub open spec fn attribute_meets(
    item: ItemModel,
    name: Seq<char>,
    f: spec_fn(Seq<char>) -> bool,
) -> bool {
    item.tag.attributes.contains_key(name) && f(item.tag.attributes[name])
}

/// Whether predicate `p` holds of frame `item`.
pub open spec fn holds(p: Predicate, item: ItemModel) -> bool
    decreases p,
{
    match p {
        Predicate::TagName(n) => item.tag.name == n@,
        Predicate::Id(v) => attribute_meets(item, id_name(), |a: Seq<char>| a == v@),
        Predicate::Class(v) => attribute_meets(item, class_name(), |a: Seq<char>| contains(a, v@)),
        Predicate::HasAttribute(n) => item.tag.attributes.contains_key(n@),
        Predicate::AttributeEquals(n, v) => attribute_meets(item, n@, |a: Seq<char>| a == v@),
        Predicate::AttributeStartsWith(n, v) => attribute_meets(
            item,
            n@,
            |a: Seq<char>| starts_with(a, v@),
        ),
        Predicate::AttributeEndsWith(n, v) => attribute_meets(
            item,
            n@,
            |a: Seq<char>| ends_with(a, v@),
        ),
        Predicate::AttributeContains(n, v) => attribute_meets(
            item,
            n@,
            |a: Seq<char>| contains(a, v@),
        ),
        Predicate::AttributeHasWord(n, w) => attribute_meets(
            item,
            n@,
            |a: Seq<char>| has_word(a, w@),
        ),
        Predicate::NthChild(k) => item.nth_child == k as nat,
        Predicate::And(ps) => forall|i: int| 0 <= i < ps.len() ==> holds(#[trigger] ps[i], item),
    }
}

/// Whether `s` ends with `p`.
pub fn ends_with_exec(s: &[char], p: &[char]) -> (r: bool)
    ensures
        r == ends_with(s@, p@),
{
    if p.len() > s.len() {
        return false;
    }
    let r = crate::chars::occurs_at_exec(s, s.len() - p.len(), p);
    assert(s@.subrange(s@.len() - p@.len(), s@.len() as int) =~= s@.skip(s@.len() - p@.len()));
    r
}

/// Whether `p` stands somewhere in `s`.
fn contains_exec(s: &[char], p: &[char]) -> (r: bool)
    ensures
        r == contains(s@, p@),
{
    if p.len() == 0 {
        assert(s@.subrange(0, 0) =~= p@);
        assert(occurs_at(s@, p@, 0));
        return true;
    }
    let r = find_from_exec(s, 0, p);
    proof {
        lemma_find_from(s@, p@, 0);
    }
    r.is_some()
}

/// Whether `w` stands in `s` from `i` on, as a word.
fn word_at_exec(s: &[char], w: &[char], i: usize) -> (r: bool)
    ensures
        r == word_at(s@, w@, i as int),
{
    if !crate::chars::occurs_at_exec(s, i, w) {
        return false;
    }
    let before = i == 0 || s[i - 1] == ' ';
    let after = i + w.len() == s.len() || s[i + w.len()] == ' ';
    before && after
}

/// Whether `w` is one of the space-separated words of `s`.
fn has_word_exec(s: &[char], w: &[char]) -> (r: bool)
    ensures
        r == has_word(s@, w@),
{
    let mut i: usize = 0;
    while i < s.len()
        invariant
            i <= s@.len(),
            forall|j: int| 0 <= j < i ==> !word_at(s@, w@, j),
        decreases s@.len() - i,
    {
        if word_at_exec(s, w, i) {
            return true;
        }
        i += 1;
    }
    if word_at_exec(s, w, i) {
        return true;
    }
    assert forall|j: int| !word_at(s@, w@, j) by {
        if j > s@.len() || j < 0 {
        } else if j < i {
        } else {
            assert(j == i);
        }
    }
    false
}

/// How an attribute value is compared with a text.
#[derive(PartialEq, Eq, Structural, Clone, Copy)]
enum ValueTest {
    Equals,
    StartsWith,
    EndsWith,
    Contains,
    HasWord,
}

/// Whether `a` meets `test` against `v`.
spec fn value_meets(test: ValueTest, a: Seq<char>, v: Seq<char>) -> bool {
    match test {
        ValueTest::Equals => a == v,
        ValueTest::StartsWith => starts_with(a, v),
        ValueTest::EndsWith => ends_with(a, v),
        ValueTest::Contains => contains(a, v),
        ValueTest::HasWord => has_word(a, v),
    }
}

/// Whether the attribute `name` of `item`'s tag has a value that meets
/// `test` against `v`.
fn attribute_test(item: &TagPathItem, name: &String, test: ValueTest, v: &String) -> (r: bool)
    ensures
        r == (item@.tag.attributes.contains_key(name@) && value_meets(
            test,
            item@.tag.attributes[name@],
            v@,
        )),
{
    match item.tag.attributes.get(name.as_str()) {
        Some(a) => {
            if test == ValueTest::Equals {
                return *a == *v;
            }
            let a = to_chars(a.as_str());
            let v = to_chars(v.as_str());
            match test {
                ValueTest::StartsWith => starts_with_exec(a.as_slice(), v.as_slice()),
                ValueTest::EndsWith => ends_with_exec(a.as_slice(), v.as_slice()),
                ValueTest::Contains => contains_exec(a.as_slice(), v.as_slice()),
                _ => has_word_exec(a.as_slice(), v.as_slice()),
            }
        },
        None => false,
    }
}

impl Predicate {
    /// Whether the predicate holds of `item`.
    pub fn matches(&self, item: &TagPathItem) -> (r: bool)
        ensures
            r == holds(*self, item@),
        decreases self,
    {
        match self {
            Predicate::TagName(n) => item.tag.name == *n,
            Predicate::Id(v) => {
                let key = "id".to_owned();
                proof {
                    reveal_strlit("id");
                    assert(key@ =~= id_name());
                }
                attribute_test(item, &key, ValueTest::Equals, v)
            },
            Predicate::Class(v) => {
                let key = "class".to_owned();
                proof {
                    reveal_strlit("class");
                    assert(key@ =~= class_name());
                }
                attribute_test(item, &key, ValueTest::Contains, v)
            },
            Predicate::HasAttribute(n) => item.tag.attributes.get(n.as_str()).is_some(),
            Predicate::AttributeEquals(n, v) => attribute_test(item, n, ValueTest::Equals, v),
            Predicate::AttributeStartsWith(n, v) => attribute_test(
                item,
                n,
                ValueTest::StartsWith,
                v,
            ),
            Predicate::AttributeEndsWith(n, v) => attribute_test(item, n, ValueTest::EndsWith, v),
            Predicate::AttributeContains(n, v) => attribute_test(item, n, ValueTest::Contains, v),
            Predicate::AttributeHasWord(n, w) => attribute_test(item, n, ValueTest::HasWord, w),
            Predicate::NthChild(k) => item.nth_child == *k,
            Predicate::And(ps) => {
                let mut all = true;
                let mut i: usize = 0;
                while i < ps.len()
                    invariant
                        *self == Predicate::And(*ps),
                        i <= ps@.len(),
                        all == forall|j: int| 0 <= j < i ==> holds(#[trigger] ps@[j], item@),
                    decreases ps@.len() - i,
                {
                    proof {
                        assert(decreases_to!(*self => self->And_0));
                        assert(decreases_to!(*ps => ps[i as int]));
                    }
                    let h = ps[i].matches(item);
                    all = all && h;
                    i += 1;
                }
                all
            },
        }
    }
}

/// The tag is named `name`.
pub fn tag_name_predicate(name: String) -> (r: Predicate)
    ensures
        r == Predicate::TagName(name),
{
    Predicate::TagName(name)
}

/// The tag's `id` is `id`.
pub fn id_predicate(id: String) -> (r: Predicate)
    ensures
        r == Predicate::Id(id),
{
    Predicate::Id(id)
}

/// The tag's `class` attribute holds `class` as a piece of text.
pub fn class_predicate(class: String) -> (r: Predicate)
    ensures
        r == Predicate::Class(class),
{
    Predicate::Class(class)
}

/// The tag has the attribute `attribute_name`.
pub fn has_attribute_predicate(attribute_name: String) -> (r: Predicate)
    ensures
        r == Predicate::HasAttribute(attribute_name),
{
    Predicate::HasAttribute(attribute_name)
}

/// The attribute `attribute_name` has the value `attribute_value`.
pub fn attribute_equals_predicate(attribute_name: String, attribute_value: String) -> (r:
    Predicate)
    ensures
        r == Predicate::AttributeEquals(attribute_name, attribute_value),
{
    Predicate::AttributeEquals(attribute_name, attribute_value)
}

/// The value of `attribute_name` begins with `attribute_value`.
pub fn attribute_starts_with_predicate(attribute_name: String, attribute_value: String) -> (r:
    Predicate)
    ensures
        r == Predicate::AttributeStartsWith(attribute_name, attribute_value),
{
    Predicate::AttributeStartsWith(attribute_name, attribute_value)
}

/// The value of `attribute_name` ends with `attribute_value`.
pub fn attribute_ends_with_predicate(attribute_name: String, attribute_value: String) -> (r:
    Predicate)
    ensures
        r == Predicate::AttributeEndsWith(attribute_name, attribute_value),
{
    Predicate::AttributeEndsWith(attribute_name, attribute_value)
}

/// The value of `attribute_name` holds `attribute_value`.
pub fn attribute_contains_with_predicate(attribute_name: String, attribute_value: String) -> (r:
    Predicate)
    ensures
        r == Predicate::AttributeContains(attribute_name, attribute_value),
{
    Predicate::AttributeContains(attribute_name, attribute_value)
}

/// The value of `attribute_name` holds the space-separated word `word`.
pub fn attribute_has_word_predicate(attribute_name: String, word: String) -> (r: Predicate)
    ensures
        r == Predicate::AttributeHasWord(attribute_name, word),
{
    Predicate::AttributeHasWord(attribute_name, word)
}

/// The frame's nth-child index is `n`.
pub fn nth_child_predicate(n: usize) -> (r: Predicate)
    ensures
        r == Predicate::NthChild(n),
{
    Predicate::NthChild(n)
}

/// All of `predicates` hold.
pub fn and_predicate(predicates: Vec<Predicate>) -> (r: Predicate)
    ensures
        r == Predicate::And(predicates),
{
    Predicate::And(predicates)
}

} // verus!
