use stream_html_selector::elements::{
    extract_element_like, extract_end_tag_name, extract_multiline_element_like, is_element_like, CommentElement,
    DoctypeElement, Element, EndElement, TextElement,
};

#[test]
fn should_detect_element_like_starting_tag() {
    let html = "<div id='ee'>";
    let start = "<";
    let smallest_length = 3;
    assert!(is_element_like(html, start, smallest_length));
}

#[test]
fn should_detect_invalid_element_like_starting_tag() {
    let html = "<1div id='ee'>";
    let start = "<";
    let smallest_length = 3;
    assert!(!is_element_like(html, start, smallest_length));
}

#[test]
fn should_detect_invalid_element_like_starting_tag_too_small() {
    let html = "<a>";
    let start = "<";
    let smallest_length = 4;
    assert!(!is_element_like(html, start, smallest_length));
}

#[test]
fn should_detect_invalid_element_like_starting_tag_bad_starting() {
    let html = "|a>";
    let start = "<";
    let smallest_length = 4;
    assert!(!is_element_like(html, start, smallest_length));
}

#[test]
fn comment_element_shohuld_test_end_element() {
    assert_eq!(true, CommentElement::extract("<!-- -->").is_some());
    assert_eq!(true, CommentElement::extract("<!-- hello -->").is_some());

    assert_eq!(false, CommentElement::extract("<!--").is_some());
    assert_eq!(false, CommentElement::extract("hello").is_some());
    assert_eq!(false, CommentElement::extract("</a foo -->").is_some());
}

#[test]
fn comment_element_should_return_none_in_case_of_invalid_end_element() {
    let html = "<div>";
    let end_element = CommentElement::extract(html);
    assert_eq!(None, end_element);
}

#[test]
fn comment_element_should_return_some_in_case_of_valid_end_element() {
    let html = "<!--div-->";
    let end_element = CommentElement::extract(html);
    assert_eq!(
        Some(CommentElement {
            content: "div".to_string(),
            length: 10
        }),
        end_element
    );
}

#[test]
fn doctype_element_shohuld_test_end_element() {
    assert_eq!(true, DoctypeElement::extract("<!doctype html>").is_some());
    assert_eq!(true, DoctypeElement::extract("<!DOCTYPE html>").is_some());
    assert_eq!(true, DoctypeElement::extract("<!doctype html>").is_some());
    assert_eq!(true, DoctypeElement::extract("<!DOCTYPE html PUBLIC \"-//W3C//DTD XHTML 1.0 Strict//EN\" \"http://www.w3.org/TR/xhtml1/DTD/xhtml1-strict.dtd\">").is_some());

    assert_eq!(false, DoctypeElement::extract("<!--").is_some());
    assert_eq!(false, DoctypeElement::extract("hello").is_some());
    assert_eq!(false, DoctypeElement::extract("</a foo -->").is_some());
}

#[test]
fn doctype_element_should_return_none_in_case_of_invalid_end_element() {
    let html = "<div>";
    let end_element = DoctypeElement::extract(html);
    assert_eq!(None, end_element);
}

#[test]
fn doctype_element_should_return_some_in_case_of_valid_end_element() {
    let html = "<!doctype html>";
    let end_element = DoctypeElement::extract(html);
    assert_eq!(
        Some(DoctypeElement {
            content: " html".to_string(),
            length: 15
        }),
        end_element
    );
}

#[test]
fn end_element_shohuld_test_end_element() {
    assert_eq!(true, EndElement::extract("</p>").is_some());
    assert_eq!(true, EndElement::extract("</div>").is_some());

    assert_eq!(false, EndElement::extract("<div>").is_some());
    assert_eq!(false, EndElement::extract("hello").is_some());
    assert_eq!(false, EndElement::extract("<!-- foo -->").is_some());
}

#[test]
fn end_element_should_return_none_in_case_of_invalid_end_element() {
    let html = "<div>";
    let end_element = EndElement::extract(html);
    assert_eq!(None, end_element);
}

#[test]
fn end_element_should_return_some_in_case_of_valid_end_element() {
    let html = "</div>";
    let end_element = EndElement::extract(html);
    assert_eq!(
        Some(EndElement {
            name: "div".to_string(),
            length: 6
        }),
        end_element
    );
}

#[test]
fn should_extract_element_like() {
    let content = "</div>";
    let start_str = "</";
    let end_str = ">";
    let (name, length) = extract_element_like(content, start_str, end_str);
    assert_eq!("div".to_string(), name);
    assert_eq!(6, length);
}

#[test]
fn should_extrat_multiline_element() {
    let html = r#"<!--Hello
        World-->"#;

    let (content, length) = extract_multiline_element_like(html, "<!--", "-->");

    let expected_content = r#"Hello
        World"#
        .to_string();
    assert_eq!(expected_content, content);
    assert_eq!(26, length);
}

#[test]
fn end_tag_name_runs_to_the_angle() {
    let end_element = EndElement::extract("</div\n>");
    assert_eq!(
        Some(EndElement {
            name: "div\n".to_string(),
            length: 7
        }),
        end_element
    );
    assert_eq!(("a\n".to_string(), 5), extract_end_tag_name("</a\n>"));
}

#[test]
fn element_like_reads_after_the_start_bytes() {
    assert_eq!((String::new(), 0), extract_element_like("", "", ""));
    assert_eq!(("iv".to_string(), 5), extract_element_like("<div>", "<d", ">"));
    assert_eq!(("bc".to_string(), 4), extract_element_like("abc>", "x", ">"));
    assert_eq!(("b\nc".to_string(), 6), extract_multiline_element_like("éb\nc-", "xy", "-"));
    assert_eq!(("a".to_string(), 6), extract_element_like("<!--a\n-->", "<!--", "\n"));
}

#[test]
fn end_tag_without_closing_is_not_read() {
    assert_eq!(None, EndElement::extract("</div"));
}

#[test]
fn comment_content_is_kept_verbatim() {
    let comment = CommentElement::extract("<!--a\r\nb-->x");
    assert_eq!(
        Some(CommentElement {
            content: "a\r\nb".to_string(),
            length: 11
        }),
        comment
    );
}

#[test]
fn comment_needs_eight_bytes() {
    assert_eq!(None, CommentElement::extract("<!---->"));
    assert!(CommentElement::extract("<!---->x").is_some());
}

#[test]
fn text_runs_to_the_next_tag() {
    assert_eq!(
        Some(TextElement {
            content: "hello ".to_string(),
            length: 6
        }),
        TextElement::extract("hello <b>")
    );
    assert_eq!(None, TextElement::extract("<b>"));
    assert_eq!(None, TextElement::extract(""));
}

#[test]
fn text_length_counts_bytes() {
    assert_eq!(
        Some(TextElement {
            content: "été".to_string(),
            length: 5
        }),
        TextElement::extract("été")
    );
}

#[test]
fn element_like_counts_bytes() {
    assert!(is_element_like("</é", "</", 3) == false);
    assert!(is_element_like("</aé", "</", 5));
    assert!(!is_element_like("</a", "</", 4));
}
