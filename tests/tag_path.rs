use stream_html_selector::attributes::Attributes;
use stream_html_selector::elements::Element;
use stream_html_selector::predicates::{
    and_predicate, id_predicate, nth_child_predicate, tag_name_predicate, Predicate,
};
use stream_html_selector::start_element::Tag;
use stream_html_selector::tag_path::{match_tag_path, TagPath, TagPathItem};

fn build_tag_with_attribute(name: &str, attribute_key: &str, attribute_value: &str) -> TagPathItem {
    let mut map = Attributes::new();
    map.insert(attribute_key.to_string(), attribute_value.to_string());
    let tag = Tag {
        name: name.to_string(),
        attributes: map,
        length: 0,
        is_autoclosing: false,
    };
    TagPathItem {
        tag: Box::new(tag),
        nth_child: 1,
    }
}

fn build_tag(name: &str) -> TagPathItem {
    let tag = Tag {
        name: name.to_string(),
        attributes: Attributes::new(),
        length: 0,
        is_autoclosing: false,
    };
    TagPathItem {
        tag: Box::new(tag),
        nth_child: 1,
    }
}

fn css(name: &str) -> Predicate {
    tag_name_predicate(name.to_string())
}

#[test]
fn should_match_a_tag_path() {
    let tag1 = build_tag_with_attribute("div", "id", "foo");
    let tag2 = &build_tag("div");
    let tag_path = vec![&tag1, tag2];

    let css_selector = vec![css("div"), css("div")];

    let does_match = match_tag_path(tag_path, &css_selector);

    assert!(does_match)
}

#[test]
fn should_not_match_given_tag_path_smaller_than_css_selector_vec() {
    let tag1 = build_tag_with_attribute("div", "id", "foo");
    let tag2 = &build_tag("div");
    let tag_path = vec![&tag1, tag2];

    let css_selector = vec![css("div"), css("div"), css("div"), css("div"), css("div")];

    let does_match = match_tag_path(tag_path, &css_selector);

    assert!(!does_match)
}

#[test]
fn should_not_match_given_empty_tag_path() {
    let tag_path = vec![];

    let css_selector = vec![css("div"), css("div")];

    let does_match = match_tag_path(tag_path, &css_selector);

    assert!(!does_match);
}

#[test]
fn should_match_given_a_css_selector_sorter_than_the_tag_path() {
    let html_tag = &build_tag("html");
    let body_tag = &build_tag("body:nth-child(1)");
    let table_tag = &build_tag("table");
    let tbody_tag = &build_tag("tbody");
    let tag_path = vec![html_tag, body_tag, table_tag, tbody_tag];

    let css_selector = vec![css("table"), css("tbody")];

    let does_match = match_tag_path(tag_path, &css_selector);

    assert!(does_match)
}

fn create_tag(html: &str) -> Tag {
    Tag::extract(html).expect("invalid HTML tag for testing")
}

fn assert_nth_child_at(tag_path: &TagPath, index: usize, expected_nth_child: usize) {
    let path = tag_path.get_matching_path();
    let tag_path_item = path
        .get(index)
        .expect("invalid position of the tag for test");
    assert_eq!(expected_nth_child, tag_path_item.nth_child);
}

#[test]
fn should_have_index_1_given_a_first_new_tag_is_added() {
    let body = create_tag("<body>");
    let mut tag_path = TagPath::new();
    tag_path.add(body);
    assert_nth_child_at(&tag_path, 0, 1);
}

#[test]
fn should_have_index_2_given_a_first_new_tag_is_added() {
    let body = create_tag("<body>");
    let div1 = create_tag("<div>");
    let div2 = create_tag("<div>");
    let mut tag_path = TagPath::new();
    tag_path.add(body);
    assert_nth_child_at(&tag_path, 0, 1);
    tag_path.add(div1);
    assert_nth_child_at(&tag_path, 1, 1);

    tag_path.reduce();
    assert_nth_child_at(&tag_path, 0, 1);

    tag_path.add(div2);
    assert_nth_child_at(&tag_path, 1, 2);

    tag_path.reduce();
    assert_nth_child_at(&tag_path, 0, 1);
}

#[test]
fn same_name_siblings_count_up() {
    let mut tag_path = TagPath::new();
    tag_path.add(create_tag("<ul>"));
    for expected in 1..=4 {
        tag_path.add(create_tag("<li>"));
        assert_nth_child_at(&tag_path, 1, expected);
        tag_path.add(create_tag("<span>"));
        assert_nth_child_at(&tag_path, 2, 1);
        tag_path.reduce();
        tag_path.reduce();
    }
    assert_eq!(1, tag_path.depth());
}

#[test]
fn another_name_between_siblings_starts_over() {
    let mut tag_path = TagPath::new();
    tag_path.add(create_tag("<body>"));
    tag_path.add(create_tag("<p>"));
    tag_path.reduce();
    tag_path.add(create_tag("<div>"));
    assert_nth_child_at(&tag_path, 1, 1);
    tag_path.reduce();
    tag_path.add(create_tag("<p>"));
    assert_nth_child_at(&tag_path, 1, 1);
}

#[test]
fn a_closed_sibling_is_no_sibling_of_a_deeper_tag() {
    let mut tag_path = TagPath::new();
    tag_path.add(create_tag("<a>"));
    tag_path.reduce();
    tag_path.add(create_tag("<b>"));
    tag_path.add(create_tag("<a>"));
    assert_nth_child_at(&tag_path, 1, 1);
}

#[test]
fn reducing_an_empty_path_keeps_it_empty() {
    let mut tag_path = TagPath::new();
    tag_path.reduce();
    assert_eq!(0, tag_path.depth());
    tag_path.add(create_tag("<a>"));
    assert_nth_child_at(&tag_path, 0, 1);
}

#[test]
fn chain_aligns_with_the_tail_only() {
    let a = build_tag("a");
    let b = build_tag_with_attribute("b", "id", "x");
    let c = build_tag("c");
    let chain = vec![id_predicate("x".to_string()), css("c")];
    assert!(match_tag_path(vec![&a, &b, &c], &chain));
    let chain = vec![css("a"), css("c")];
    assert!(!match_tag_path(vec![&a, &b, &c], &chain));
    let chain = vec![css("a"), css("b")];
    assert!(!match_tag_path(vec![&a, &b, &c], &chain));
}

#[test]
fn empty_chain_matches_any_open_tag() {
    let a = build_tag("a");
    let chain: Vec<Predicate> = vec![];
    assert!(match_tag_path(vec![&a], &chain));
    assert!(!match_tag_path(vec![], &chain));
}

#[test]
fn nth_child_predicate_reads_the_frame() {
    let mut item = build_tag("li");
    item.nth_child = 3;
    let chain = vec![and_predicate(vec![css("li"), nth_child_predicate(3)])];
    assert!(match_tag_path(vec![&item], &chain));
    let chain = vec![nth_child_predicate(2)];
    assert!(!match_tag_path(vec![&item], &chain));
}
