use stream_html_selector::elements::{is_element_like, Element};
use stream_html_selector::start_element::{extract_tag_name, Tag};

#[test]
fn should_test_start_element() {
    assert_eq!(true, is_element_like("<a>", "<", 3));
    assert_eq!(true, is_element_like("<div>", "<", 3));
    assert_eq!(true, is_element_like("<br>", "<", 3));
    assert_eq!(true, is_element_like("<br/>", "<", 3));

    assert_eq!(false, is_element_like("hello", "<", 3));
    assert_eq!(false, is_element_like("<123", "<", 3));
    assert_eq!(false, is_element_like("</p>", "<", 3));
}

fn tiny_tag() {
    let html = "<div>";
    let tag = extract_tag_name(html).unwrap();
    assert_eq!("div", tag.name);
    assert!(tag.attributes.is_empty());
    assert_eq!(5, tag.length);
}

fn tiny_tag_starting_with_blank() {
    let tag = extract_tag_name("   <div>").unwrap();
    assert_eq!("div", tag.name);
    assert_eq!(5, tag.length);
}

fn tiny_tag_ending_with_blank() {
    let tag = extract_tag_name("<div>    ").unwrap();
    assert_eq!("div", tag.name);
    assert_eq!(5, tag.length);
}

fn tiny_tag_with_blank_after_tag_name() {
    let html = "<div   >";
    let tag = extract_tag_name(html).unwrap();
    assert_eq!("div", tag.name);
    assert_eq!(html.len(), tag.length);

    let html = "<div  id='foo' >";
    let tag = extract_tag_name(html).unwrap();
    assert_eq!("div", tag.name);
    assert_eq!("foo", tag.attributes.get("id").unwrap());
    assert_eq!(html.len(), tag.length);

    let html = "<div  id=\"foo\" >";
    let tag = extract_tag_name(html).unwrap();
    assert_eq!("div", tag.name);
    assert_eq!("foo", tag.attributes.get("id").unwrap());
    assert_eq!(html.len(), tag.length);
}

fn zero_html_class() {
    let html = "<div >";
    let tag = extract_tag_name(html).unwrap();
    assert!(tag.attributes.get("class").is_none());
    assert_eq!(html.len(), tag.length);
}

fn one_html_class() {
    let html = "<div  class=\"bar\" >";
    let tag = extract_tag_name(html).unwrap();
    assert!(tag.attributes.get("class").is_some());
    assert_eq!(Some(&String::from("bar")), tag.attributes.get("class"));
    assert_eq!(html.len(), tag.length);
}

fn many_html_classes() {
    let html = "<div  class='bar   baz   foo mun' >";
    let tag = extract_tag_name(html).unwrap();
    assert_eq!("div", tag.name);
    assert!(tag.attributes.get("class").is_some());
    assert_eq!(
        Some(&String::from("bar   baz   foo mun")),
        tag.attributes.get("class")
    );
    assert_eq!(html.len(), tag.length);
}

fn id_and_class_as_attributes() {
    let html = "<div id='foo' class='bar'>";
    let tag = extract_tag_name(html).unwrap();
    assert!(!tag.attributes.is_empty());
    assert_eq!(2, tag.attributes.len());
    assert_eq!("foo", tag.attributes.get("id").unwrap());
    assert_eq!("bar", tag.attributes.get("class").unwrap());
    assert_eq!(html.len(), tag.length);
}

fn id_class_and_one_more() {
    let html = "<input id='foo' class='bar' type='password'>";
    let tag = extract_tag_name(html).unwrap();
    assert!(!tag.attributes.is_empty());
    assert_eq!(3, tag.attributes.len());
    assert_eq!(html.len(), tag.length);
}

fn multi_line_tag() {
    let html = r#"<div
            id='foo'
            class='bar'
            about
        >"#;
    let tag = extract_tag_name(html).unwrap();
    assert_eq!("div", tag.name);
    assert_eq!(html.len(), tag.length);
}

fn auto_closing_tag() {
    let tag = extract_tag_name("<br/>").unwrap();
    assert_eq!("br", tag.name);
    assert_eq!(5, tag.length);
}

fn tag_that_does_not_close() {
    let tag = extract_tag_name("<br");
    assert_eq!(None, tag);
}

#[test]
fn start_element_should_extract_tag_name_from_tiny_tag() {
    tiny_tag();
}
#[test]
fn start_element_should_extract_tag_name_from_tiny_tag_starting_with_blank() {
    tiny_tag_starting_with_blank();
}
#[test]
fn start_element_should_extract_tag_name_from_tiny_tag_ending_with_blank() {
    tiny_tag_ending_with_blank();
}
#[test]
fn start_element_should_extract_tag_name_from_tiny_tag_with_blank_after_tag_name() {
    tiny_tag_with_blank_after_tag_name();
}
#[test]
fn start_element_should_extract_zero_html_class() {
    zero_html_class();
}
#[test]
fn start_element_should_extract_one_html_class() {
    one_html_class();
}
#[test]
fn start_element_should_extract_many_html_classes() {
    many_html_classes();
}
#[test]
fn start_element_should_extract_consider_id_and_class_as_attributes() {
    id_and_class_as_attributes();
}
#[test]
fn start_element_should_extract_ignore_id_and_class_as_attributes_and_read_one() {
    id_class_and_one_more();
}
#[test]
fn start_element_should_extract_tag_name_from_tag_into_multi_line() {
    multi_line_tag();
}
#[test]
fn start_element_should_extract_auto_closing_tag() {
    auto_closing_tag();
}
#[test]
fn start_element_should_extract_tag_name_that_does_not_close() {
    tag_that_does_not_close();
}

#[test]
fn tag_should_extract_tag_name_from_tiny_tag() {
    tiny_tag();
}
#[test]
fn tag_should_extract_tag_name_from_tiny_tag_starting_with_blank() {
    tiny_tag_starting_with_blank();
}
#[test]
fn tag_should_extract_tag_name_from_tiny_tag_ending_with_blank() {
    tiny_tag_ending_with_blank();
}
#[test]
fn tag_should_extract_tag_name_from_tiny_tag_with_blank_after_tag_name() {
    tiny_tag_with_blank_after_tag_name();
}
#[test]
fn tag_should_extract_zero_html_class() {
    zero_html_class();
}
#[test]
fn tag_should_extract_one_html_class() {
    one_html_class();
}
#[test]
fn tag_should_extract_many_html_classes() {
    many_html_classes();
}
#[test]
fn tag_should_extract_consider_id_and_class_as_attributes() {
    id_and_class_as_attributes();
}
#[test]
fn tag_should_extract_ignore_id_and_class_as_attributes_and_read_one() {
    id_class_and_one_more();
}
#[test]
fn tag_should_extract_tag_name_from_tag_into_multi_line() {
    multi_line_tag();
}
#[test]
fn tag_should_extract_auto_closing_tag() {
    auto_closing_tag();
}
#[test]
fn tag_should_extract_tag_name_that_does_not_close() {
    tag_that_does_not_close();
}

#[test]
fn start_tag_needs_a_letter_after_the_angle() {
    assert_eq!(None, Tag::extract("<1div>"));
    assert_eq!(None, Tag::extract(" <div>"));
}

#[test]
fn self_closing_tag_with_attributes() {
    let tag = Tag::extract("<img src='a.png' alt=\"x\"/>").unwrap();
    assert_eq!("img", tag.name);
    assert!(tag.is_autoclosing);
    assert_eq!(Some(&String::from("a.png")), tag.attributes.get("src"));
    assert_eq!(Some(&String::from("x")), tag.attributes.get("alt"));
    assert_eq!(26, tag.length);
}

#[test]
fn closing_angle_before_slash_is_not_self_closing() {
    let tag = extract_tag_name("<a href='x'>b/>").unwrap();
    assert_eq!("a", tag.name);
    assert!(!tag.is_autoclosing);
    assert_eq!(12, tag.length);
}

#[test]
fn tab_ends_the_tag_name() {
    let tag = extract_tag_name("<div\tid='x'>").unwrap();
    assert_eq!("div", tag.name);
    assert_eq!(Some(&String::from("x")), tag.id());
}

#[test]
fn id_and_classes_read_the_attributes() {
    let tag = extract_tag_name("<p id='a' class='b c'>").unwrap();
    assert_eq!(Some(&String::from("a")), tag.id());
    assert_eq!(Some(&String::from("b c")), tag.classes());
    let tag = extract_tag_name("<p>").unwrap();
    assert_eq!(None, tag.id());
    assert_eq!(None, tag.classes());
}

#[test]
fn length_counts_bytes_of_non_ascii_values() {
    let html = "<p title='café'>";
    let tag = extract_tag_name(html).unwrap();
    assert_eq!(html.len(), tag.length);
    assert_eq!(Some(&String::from("café")), tag.attributes.get("title"));
}

#[test]
fn line_breaks_in_values_read_as_one_space_each() {
    let tag = extract_tag_name("<p title='a\n\rb\r\nc'>").unwrap();
    assert_eq!(Some(&String::from("a b  c")), tag.attributes.get("title"));
}

#[test]
fn written_tag_reads_back_its_name_and_pairs() {
    let tag = extract_tag_name("<section x='1' y-z='a b' w=''>").unwrap();
    assert_eq!("section", tag.name);
    assert!(!tag.is_autoclosing);
    assert_eq!(3, tag.attributes.len());
    assert_eq!(Some(&String::from("1")), tag.attributes.get("x"));
    assert_eq!(Some(&String::from("a b")), tag.attributes.get("y-z"));
    assert_eq!(Some(&String::from("")), tag.attributes.get("w"));
}
