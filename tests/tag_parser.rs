use stream_html_selector::tag_parser::{ReadingState, TagParser};

#[test]
fn should_return_empty_attributes_map_given_empty_str() {
    let html = "";
    let mut parser = TagParser::new();
    let attributes = parser.parse_attributes(html);
    assert!(attributes.is_empty());
}

#[test]
fn should_return_find_one_attribute_given_one_tag_attribute() {
    let html = " foo='bar' hidden = 'true' ";
    let mut parser = TagParser::new();
    let attributes = parser.parse_attributes(html);
    assert!(!attributes.is_empty());
    assert_eq!(Some(&String::from("bar")), attributes.get("foo"));
    assert_eq!(Some(&String::from("true")), attributes.get("hidden"));
}

#[test]
fn should_read_an_attribute_without_value_at_last_position_of_the_html_code() {
    let html = " foo='bar' hidden ";
    let mut parser = TagParser::new();
    let attributes = parser.parse_attributes(html);
    assert!(!attributes.is_empty());
    assert_eq!(Some(&String::from("bar")), attributes.get("foo"));
    assert_eq!(Some(&String::from("true")), attributes.get("hidden"));
}

#[test]
fn should_read_an_attribute_without_value_in_the_middle_position_of_the_html_code() {
    let html = " foo='bar' hidden class='title'";
    let mut parser = TagParser::new();
    let attributes = parser.parse_attributes(html);
    assert!(!attributes.is_empty());
    assert_eq!(Some(&String::from("bar")), attributes.get("foo"));
    assert_eq!(Some(&String::from("true")), attributes.get("hidden"));
    assert_eq!(Some(&String::from("title")), attributes.get("class"));
}

#[test]
fn one_letter_boolean_attributes_are_each_kept() {
    let mut parser = TagParser::new();
    let attributes = parser.parse_attributes(" a b c");
    assert_eq!(3, attributes.len());
    assert_eq!(Some(&String::from("true")), attributes.get("a"));
    assert_eq!(Some(&String::from("true")), attributes.get("b"));
    assert_eq!(Some(&String::from("true")), attributes.get("c"));
}

#[test]
fn later_duplicate_wins() {
    let mut parser = TagParser::new();
    let attributes = parser.parse_attributes(" x='1' x='2'");
    assert_eq!(1, attributes.len());
    assert_eq!(Some(&String::from("2")), attributes.get("x"));
}

#[test]
fn any_quote_closes_a_value() {
    let mut parser = TagParser::new();
    let attributes = parser.parse_attributes(" x=\"it's\"");
    assert_eq!(Some(&String::from("it")), attributes.get("x"));
}

#[test]
fn empty_value_is_kept() {
    let mut parser = TagParser::new();
    let attributes = parser.parse_attributes(" alt=''");
    assert_eq!(Some(&String::from("")), attributes.get("alt"));
}

#[test]
fn unfinished_value_stays_pending() {
    let mut parser = TagParser::new();
    let attributes = parser.parse_attributes(" x='abc");
    assert!(attributes.is_empty());
    assert_eq!(ReadingState::ReadingAttributeValue, parser.state());
}

#[test]
fn dashes_and_letters_form_names() {
    let mut parser = TagParser::new();
    let attributes = parser.parse_attributes(" aria-label='baz' data-x2");
    assert_eq!(Some(&String::from("baz")), attributes.get("aria-label"));
    assert_eq!(Some(&String::from("true")), attributes.get("data-x2"));
    assert_eq!(ReadingState::Start, parser.state());
}

#[test]
fn non_ascii_letters_form_names() {
    let mut parser = TagParser::new();
    let attributes = parser.parse_attributes(" données='x' a€b='y'");
    assert_eq!(Some(&String::from("x")), attributes.get("données"));
    assert_eq!(Some(&String::from("y")), attributes.get("ab"));
    assert_eq!(2, attributes.len());
}

#[test]
fn written_attributes_read_back_once_each() {
    let mut parser = TagParser::new();
    let attributes = parser.parse_attributes(" x='1' y-z='2 3' w=''");
    assert_eq!(3, attributes.len());
    assert_eq!(Some(&String::from("1")), attributes.get("x"));
    assert_eq!(Some(&String::from("2 3")), attributes.get("y-z"));
    assert_eq!(Some(&String::from("")), attributes.get("w"));
}
