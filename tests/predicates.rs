use stream_html_selector::attributes::Attributes;
use stream_html_selector::elements::Element;
use stream_html_selector::predicates::{
    and_predicate, attribute_contains_with_predicate, attribute_ends_with_predicate,
    attribute_equals_predicate, attribute_has_word_predicate, attribute_starts_with_predicate,
    class_predicate, has_attribute_predicate, id_predicate, nth_child_predicate,
    tag_name_predicate,
};
use stream_html_selector::start_element::Tag;
use stream_html_selector::tag_path::TagPathItem;

fn create_tag(html: &str) -> TagPathItem {
    let tag = Tag::extract(html).expect("invalid HTML code to create tag in the tests");
    TagPathItem {
        tag: Box::new(tag),
        nth_child: 1,
    }
}

fn create_tag_at_zero(html: &str) -> TagPathItem {
    let tag = Tag::extract(html).expect("invalid code to create tag for test");
    TagPathItem {
        tag: Box::new(tag),
        nth_child: 0,
    }
}

fn literal_tag(name: &str, key: Option<(&str, &str)>) -> TagPathItem {
    let mut map = Attributes::new();
    if let Some((k, v)) = key {
        map.insert(k.to_string(), v.to_string());
    }
    TagPathItem {
        tag: Box::new(Tag {
            name: String::from(name),
            attributes: map,
            length: 5,
            is_autoclosing: false,
        }),
        nth_child: 1,
    }
}

#[test]
fn css_selector_macro_should_test_macro_given_tag_name() {
    let matched_tag_path_item = create_tag("<div>");
    let unmatched_tag_path_item = create_tag("<h1>");
    let matcher = tag_name_predicate("div".to_string());
    assert!(matcher.matches(&matched_tag_path_item));
    assert!(!matcher.matches(&unmatched_tag_path_item));
}

#[test]
fn css_selector_macro_should_test_macro_given_tag_name_and_id() {
    let matched_tag_path_item = create_tag("<div id='foo'>");
    let unmatched_tag_path_item = create_tag("<h1>");
    let matcher = and_predicate(vec![
        tag_name_predicate("div".to_string()),
        id_predicate("foo".to_string()),
    ]);
    assert!(matcher.matches(&matched_tag_path_item));
    assert!(!matcher.matches(&unmatched_tag_path_item));
}

#[test]
fn should_test_macro_given_only_id() {
    let matched_tag_path_item = create_tag("<div id='foo'>");
    let unmatched_tag_path_item = create_tag("<h1>");
    let matcher = id_predicate("foo".to_string());
    assert!(matcher.matches(&matched_tag_path_item));
    assert!(!matcher.matches(&unmatched_tag_path_item));
}

#[test]
fn css_selector_macro_should_test_macro_given_tag_name_and_class() {
    let matched_tag_path_item = create_tag("<div class='foo'>");
    let unmatched_tag_path_item = create_tag("<h1>");
    let matcher = and_predicate(vec![
        tag_name_predicate("div".to_string()),
        class_predicate("foo".to_string()),
    ]);
    assert!(matcher.matches(&matched_tag_path_item));
    assert!(!matcher.matches(&unmatched_tag_path_item));
}

#[test]
fn should_test_macro_given_only_class() {
    let matched_tag_path_item = create_tag("<div class='foo'>");
    let unmatched_tag_path_item = create_tag("<h1>");
    let matcher = class_predicate("foo".to_string());
    assert!(matcher.matches(&matched_tag_path_item));
    assert!(!matcher.matches(&unmatched_tag_path_item));
}

#[test]
fn css_selector_macro_should_test_macro_given_tag_name_and_attrbute() {
    let matched_tag_path_item = create_tag("<div class='foo'>");
    let unmatched_tag_path_item = create_tag("<h1>");
    let matcher = and_predicate(vec![
        tag_name_predicate("div".to_string()),
        has_attribute_predicate("class".to_string()),
    ]);
    assert!(matcher.matches(&matched_tag_path_item));
    assert!(!matcher.matches(&unmatched_tag_path_item));
}

#[test]
fn css_selector_macro_should_test_macro_given_tag_name_and_attribute_equals_vallue() {
    let matched_tag_path_item = create_tag("<div class='foo'>");
    let unmatched_tag_path_item = create_tag("<h1>");
    let matcher = and_predicate(vec![
        tag_name_predicate("div".to_string()),
        attribute_equals_predicate("class".to_string(), String::from("foo")),
    ]);
    assert!(matcher.matches(&matched_tag_path_item));
    assert!(!matcher.matches(&unmatched_tag_path_item));
}

#[test]
fn css_selector_macro_should_test_macro_given_tag_name_and_attribute_starts_with_vallue() {
    let matched_tag_path_item = create_tag("<div class='foo'>");
    let unmatched_tag_path_item = create_tag("<h1>");
    let matcher = and_predicate(vec![
        tag_name_predicate("div".to_string()),
        attribute_starts_with_predicate("class".to_string(), String::from("foo")),
    ]);
    assert!(matcher.matches(&matched_tag_path_item));
    assert!(!matcher.matches(&unmatched_tag_path_item));
}

#[test]
fn css_selector_macro_should_test_macro_given_tag_name_and_attribute_ends_with_vallue() {
    let matched_tag_path_item = create_tag("<div class='foo'>");
    let unmatched_tag_path_item = create_tag("<h1>");
    let matcher = and_predicate(vec![
        tag_name_predicate("div".to_string()),
        attribute_ends_with_predicate("class".to_string(), String::from("foo")),
    ]);
    assert!(matcher.matches(&matched_tag_path_item));
    assert!(!matcher.matches(&unmatched_tag_path_item));
}

#[test]
fn should_match_nth_child_only() {
    let mut tag_path_item = create_tag("<div>");
    tag_path_item.nth_child = 2;
    let matcher = nth_child_predicate(2);
    assert!(matcher.matches(&tag_path_item));
}

#[test]
fn should_match_nth_child_and_tag_name() {
    let mut tag_path_item = create_tag("<div>");
    tag_path_item.nth_child = 2;
    let matcher = and_predicate(vec![
        tag_name_predicate("div".to_string()),
        nth_child_predicate(2),
    ]);
    assert!(matcher.matches(&tag_path_item));
}

#[test]
fn selector_predicates_should_match_with_tag_name() {
    let tag_path_item = create_tag_at_zero("<div>");
    let predicate = tag_name_predicate(String::from("div"));
    assert!(predicate.matches(&tag_path_item));
}

#[test]
fn selector_predicates_should_match_with_id() {
    let tag_path_item = create_tag_at_zero("<div id='foo'>");
    let predicate = id_predicate(String::from("foo"));
    assert!(predicate.matches(&tag_path_item));
}

#[test]
fn selector_predicates_should_match_with_class() {
    let tag_path_item = create_tag_at_zero("<div class='foo bar baz'>");
    let predicate = class_predicate(String::from("bar"));
    assert!(predicate.matches(&tag_path_item));
}

#[test]
fn selector_predicates_should_match_a_tag_with_2_predicates() {
    let tag_path_item = create_tag_at_zero("<div id='foo'>");
    let tag_name_matcher = tag_name_predicate(String::from("div"));
    let id_matcher = id_predicate(String::from("foo"));
    let matcher = and_predicate(vec![tag_name_matcher, id_matcher]);
    assert!(matcher.matches(&tag_path_item));
}

#[test]
fn should_match_a_tag_with_attribute() {
    let tag_path_item = create_tag_at_zero("<div hidden>");
    let matcher = has_attribute_predicate(String::from("hidden"));
    assert!(matcher.matches(&tag_path_item));
}

#[test]
fn should_match_a_tag_with_attribute_equals_its_value() {
    let tag_path_item = create_tag_at_zero("<div foo='bar'>");
    let matcher = attribute_equals_predicate(String::from("foo"), String::from("bar"));
    assert!(matcher.matches(&tag_path_item));
}

#[test]
fn should_match_a_tag_with_attribute_starts_with_its_value() {
    let tag_path_item = create_tag_at_zero("<div foo='baaaaar'>");
    let matcher = attribute_starts_with_predicate(String::from("foo"), String::from("baaa"));
    assert!(matcher.matches(&tag_path_item));
}

#[test]
fn should_match_a_tag_with_attribute_ends_with_its_value() {
    let tag_path_item = create_tag_at_zero("<div foo='baaaaar'>");
    let matcher = attribute_ends_with_predicate(String::from("foo"), String::from("aar"));
    assert!(matcher.matches(&tag_path_item));
}

#[test]
fn should_match_a_tag_with_attribute_contains_with_its_value() {
    let tag_path_item = create_tag_at_zero("<div foo='baaaaar'>");
    let matcher = attribute_contains_with_predicate(String::from("foo"), String::from("aaa"));
    assert!(matcher.matches(&tag_path_item));
}

#[test]
fn should_match_a_tag_with_attribute_has_a_word_with_its_value() {
    let tag_path_item = create_tag_at_zero("<div data='foo bar baz'>");
    let matcher = attribute_has_word_predicate(String::from("data"), String::from("foo"));
    assert!(matcher.matches(&tag_path_item));
    let matcher = attribute_has_word_predicate(String::from("data"), String::from("bar"));
    assert!(matcher.matches(&tag_path_item));
    let matcher = attribute_has_word_predicate(String::from("data"), String::from("baz"));
    assert!(matcher.matches(&tag_path_item));
}

#[test]
fn selector_should_match_with_tag_name() {
    let tag = literal_tag("div", None);
    let predicate = tag_name_predicate(String::from("div"));
    assert!(predicate.matches(&tag));
}

#[test]
fn selector_should_match_with_id() {
    let tag = literal_tag("div", Some(("id", "foo")));
    let predicate = id_predicate(String::from("foo"));
    assert!(predicate.matches(&tag));
}

#[test]
fn selector_should_match_with_class() {
    let tag = literal_tag("div", Some(("class", "foo bar baz")));
    let predicate = class_predicate(String::from("bar"));
    assert!(predicate.matches(&tag));
}

#[test]
fn selector_should_match_a_tag_with_2_predicates() {
    let tag = literal_tag("div", Some(("id", "foo")));
    let tag_name_matcher = tag_name_predicate(String::from("div"));
    let id_matcher = id_predicate(String::from("foo"));
    let matcher = and_predicate(vec![tag_name_matcher, id_matcher]);
    assert!(matcher.matches(&tag));
}

#[test]
fn has_word_needs_whole_words() {
    let item = literal_tag("div", Some(("data", "foo barbaz")));
    assert!(!attribute_has_word_predicate("data".to_string(), "bar".to_string()).matches(&item));
    assert!(attribute_has_word_predicate("data".to_string(), "barbaz".to_string()).matches(&item));
    let item = literal_tag("div", Some(("data", "solo")));
    assert!(attribute_has_word_predicate("data".to_string(), "solo".to_string()).matches(&item));
}

#[test]
fn class_is_a_plain_substring_test() {
    let item = literal_tag("div", Some(("class", "header-main")));
    assert!(class_predicate("main".to_string()).matches(&item));
    assert!(!class_predicate("footer".to_string()).matches(&item));
    let item = literal_tag("div", None);
    assert!(!class_predicate("".to_string()).matches(&item));
}

#[test]
fn attribute_tests_fail_without_the_attribute() {
    let item = literal_tag("div", Some(("a", "xyz")));
    assert!(!attribute_equals_predicate("b".to_string(), "xyz".to_string()).matches(&item));
    assert!(!attribute_starts_with_predicate("a".to_string(), "y".to_string()).matches(&item));
    assert!(!attribute_ends_with_predicate("a".to_string(), "y".to_string()).matches(&item));
    assert!(attribute_contains_with_predicate("a".to_string(), "y".to_string()).matches(&item));
    assert!(!has_attribute_predicate("b".to_string()).matches(&item));
}

#[test]
fn empty_conjunction_holds() {
    let item = literal_tag("div", None);
    assert!(and_predicate(vec![]).matches(&item));
    assert!(!and_predicate(vec![tag_name_predicate("p".to_string())]).matches(&item));
}

fn bare_tag(name: &str, attribute: Option<(&str, &str)>) -> TagPathItem {
    let mut map = Attributes::new();
    if let Some((k, v)) = attribute {
        map.insert(String::from(k), String::from(v));
    }
    TagPathItem {
        tag: Box::new(Tag {
            name: name.to_string(),
            attributes: map,
            is_autoclosing: false,
            length: 0,
        }),
        nth_child: 1,
    }
}

#[test]
fn should_test_macro_given_tag_name() {
    let matched_tag = bare_tag("div", None);
    let unmatched_tag = bare_tag("h1", None);
    let matcher = tag_name_predicate("div".to_string());
    assert!(matcher.matches(&matched_tag));
    assert!(!matcher.matches(&unmatched_tag));
}

#[test]
fn should_test_macro_given_tag_name_and_id() {
    let matched_tag = bare_tag("div", Some(("id", "foo")));
    let unmatched_tag = bare_tag("h1", None);
    let matcher = and_predicate(vec![
        tag_name_predicate("div".to_string()),
        id_predicate("foo".to_string()),
    ]);
    assert!(matcher.matches(&matched_tag));
    assert!(!matcher.matches(&unmatched_tag));
}

#[test]
fn should_test_macro_given_tag_name_and_class() {
    let matched_tag = bare_tag("div", Some(("class", "foo")));
    let unmatched_tag = bare_tag("h1", None);
    let matcher = and_predicate(vec![
        tag_name_predicate("div".to_string()),
        class_predicate("foo".to_string()),
    ]);
    assert!(matcher.matches(&matched_tag));
    assert!(!matcher.matches(&unmatched_tag));
}

#[test]
fn should_test_macro_given_tag_name_and_attrbute() {
    let matched_tag = bare_tag("div", Some(("class", "foo")));
    let unmatched_tag = bare_tag("h1", None);
    let matcher = and_predicate(vec![
        tag_name_predicate("div".to_string()),
        has_attribute_predicate("class".to_string()),
    ]);
    assert!(matcher.matches(&matched_tag));
    assert!(!matcher.matches(&unmatched_tag));
}

#[test]
fn should_test_macro_given_tag_name_and_attribute_equals_vallue() {
    let matched_tag = bare_tag("div", Some(("class", "foo")));
    let unmatched_tag = bare_tag("h1", None);
    let matcher = and_predicate(vec![
        tag_name_predicate("div".to_string()),
        attribute_equals_predicate("class".to_string(), String::from("foo")),
    ]);
    assert!(matcher.matches(&matched_tag));
    assert!(!matcher.matches(&unmatched_tag));
}

#[test]
fn should_test_macro_given_tag_name_and_attribute_starts_with_vallue() {
    let matched_tag = bare_tag("div", Some(("class", "foo")));
    let unmatched_tag = bare_tag("h1", None);
    let matcher = and_predicate(vec![
        tag_name_predicate("div".to_string()),
        attribute_starts_with_predicate("class".to_string(), String::from("foo")),
    ]);
    assert!(matcher.matches(&matched_tag));
    assert!(!matcher.matches(&unmatched_tag));
}

#[test]
fn should_test_macro_given_tag_name_and_attribute_ends_with_vallue() {
    let matched_tag = bare_tag("div", Some(("class", "foo")));
    let unmatched_tag = bare_tag("h1", None);
    let matcher = and_predicate(vec![
        tag_name_predicate("div".to_string()),
        attribute_ends_with_predicate("class".to_string(), String::from("foo")),
    ]);
    assert!(matcher.matches(&matched_tag));
    assert!(!matcher.matches(&unmatched_tag));
}
