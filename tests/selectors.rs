use stream_html_selector::by_tag_path::{count, find_first};
use stream_html_selector::predicates::{
    and_predicate, class_predicate, id_predicate, nth_child_predicate, tag_name_predicate,
    Predicate,
};
use stream_html_selector::selectors::{FindFirstTextStore, TagPathHtmlSelector};

fn css(name: &str) -> Predicate {
    tag_name_predicate(name.to_string())
}

#[test]
fn count_child_paragraphs_of_a_div() {
    let html = "<div><p>foo</p><p>bar</p></div>";
    let chain = vec![css("div"), css("p")];
    let matchers = vec![&chain];
    assert_eq!(vec![2], count(html, &matchers));
}

#[test]
fn find_first_cell_of_a_table() {
    let html = "<table><tbody><tr><td>TOTAL</td></tr></tbody></table>";
    let chain = vec![css("table"), css("tbody"), css("tr"), css("td")];
    let matchers = vec![&chain];
    assert_eq!(vec!["TOTAL".to_string()], find_first(html, &matchers));
}

#[test]
fn find_first_inside_an_id() {
    let html = "<div id='foo'><div>bar</div></div>";
    let chain = vec![id_predicate("foo".to_string()), css("div")];
    let matchers = vec![&chain];
    assert_eq!(vec!["bar".to_string()], find_first(html, &matchers));
}

#[test]
fn nth_child_selects_the_second_sibling_only() {
    let html = "<body><div>first</div><div>second</div></body>";
    let chain = vec![and_predicate(vec![css("div"), nth_child_predicate(2)])];
    let matchers = vec![&chain];
    assert_eq!(vec![1], count(html, &matchers));
    assert_eq!(vec!["second".to_string()], find_first(html, &matchers));
}

#[test]
fn counting_twice_gives_the_same_counts() {
    let html = "<ul><li>a</li><li>b</li><li><ul><li>c</li></ul></li></ul>";
    let first = vec![css("li")];
    let second = vec![css("ul"), css("li")];
    let matchers = vec![&first, &second];
    let mut selector = TagPathHtmlSelector::new();
    let once = selector.count(html, &matchers);
    let twice = selector.count(html, &matchers);
    assert_eq!(vec![4, 4], once);
    assert_eq!(once, twice);
    assert_eq!(once, count(html, &matchers));
}

#[test]
fn several_chains_in_one_pass() {
    let html = "<html><body><div class='a'><p>x</p></div><div><p>y</p><p>z</p></div></body></html>";
    let by_class = vec![class_predicate("a".to_string()), css("p")];
    let paragraphs = vec![css("p")];
    let missing = vec![css("table")];
    let matchers = vec![&by_class, &paragraphs, &missing];
    assert_eq!(vec![1, 3, 0], count(html, &matchers));
    assert_eq!(
        vec!["x".to_string(), "x".to_string(), String::new()],
        find_first(html, &matchers)
    );
}

#[test]
fn chain_longer_than_the_document_depth_never_matches() {
    let html = "<a><b></b></a>";
    let chain = vec![css("a"), css("b"), css("c")];
    let matchers = vec![&chain];
    assert_eq!(vec![0], count(html, &matchers));
    assert_eq!(vec![String::new()], find_first(html, &matchers));
}

#[test]
fn autoclosing_tags_match_but_hold_no_children() {
    let html = "<p><br/><i>x</i></p>";
    let br = vec![css("br")];
    let under_br = vec![css("br"), css("i")];
    let under_p = vec![css("p"), css("i")];
    let matchers = vec![&br, &under_br, &under_p];
    assert_eq!(vec![1, 0, 1], count(html, &matchers));
}

#[test]
fn first_match_wins() {
    let html = "<p>one</p><p>two</p>";
    let chain = vec![css("p")];
    let matchers = vec![&chain];
    assert_eq!(vec!["one".to_string()], find_first(html, &matchers));
}

#[test]
fn captured_text_keeps_its_line_breaks() {
    let html = "<p>a\nb</p>";
    let chain = vec![css("p")];
    let matchers = vec![&chain];
    assert_eq!(vec!["a\nb".to_string()], find_first(html, &matchers));
}

#[test]
fn captured_text_keeps_inner_markup() {
    let html = "<td><a>x</a> y</td>";
    let chain = vec![css("td")];
    let matchers = vec![&chain];
    assert_eq!(vec!["<a>x".to_string()], find_first(html, &matchers));
}

#[test]
fn no_chains_no_results() {
    let matchers: Vec<&Vec<Predicate>> = vec![];
    assert_eq!(Vec::<usize>::new(), count("<a></a>", &matchers));
    assert_eq!(Vec::<String>::new(), find_first("<a></a>", &matchers));
}

#[test]
fn text_store_keeps_the_first_text() {
    let html: Vec<char> = "abcdef".chars().collect();
    let mut store = FindFirstTextStore::new(2);
    store.store_starting_position(0, 1);
    store.store_starting_position(5, 1);
    let mut founds = vec![String::new(), String::new()];
    store.update_content(&mut founds, 3, &html);
    assert_eq!(vec!["bc".to_string(), String::new()], founds);
    store.update_content(&mut founds, 5, &html);
    assert_eq!(vec!["bc".to_string(), String::new()], founds);
}

use stream_html_selector::matcher_selector::MatcherHtmlSelector;
use stream_html_selector::tag_name_selector::{format_css_request, TagNameHtmlSelector};

const FAMILY: &str = r#"
            <html>
            <body>
                <div>
                <p>foo</p>
                <p>bar</p>
                <p>baz</p>
                </div>
            </body>
            </html>
        "#;

#[test]
fn tag_name_html_selector_should_match_child_tag_request() {
    let html = String::from(FAMILY);
    let css_requests = vec![" body", " div p"];
    let mut html_selector = TagNameHtmlSelector::new();
    let counts = html_selector.count(&html, &css_requests);
    assert_eq!(counts, vec![1, 3]);
}

#[test]
fn tag_name_html_selector_should_find_firstpattern_and_return_text() {
    let html = String::from(FAMILY);
    let css_requests = vec![" body div p"];
    let mut html_selector = TagNameHtmlSelector::new();
    let founds = html_selector.find_first(&html, &css_requests);
    assert_eq!(founds, vec!["foo".to_string()]);
}

#[test]
fn mod_should_format_css_request() {
    let css_requests = vec!["body", "div p"];
    let actual_css_requests = format_css_request(&css_requests);
    assert_eq!(vec![" body", " div p"], actual_css_requests);
}

#[test]
fn mod_should_notformat_css_request_valid() {
    let css_requests = vec![" body", " div p"];
    let actual_css_requests = format_css_request(&css_requests);
    assert_eq!(vec![" body", " div p"], actual_css_requests);
}

#[test]
fn html_selector_should_format_css_request() {
    let css_requests = vec!["body", "div p"];
    let actual_css_requests = format_css_request(&css_requests);
    assert_eq!(vec![" body", " div p"], actual_css_requests);
}

#[test]
fn html_selector_should_notformat_css_request_valid() {
    let css_requests = vec![" body", " div p"];
    let actual_css_requests = format_css_request(&css_requests);
    assert_eq!(vec![" body", " div p"], actual_css_requests);
}

#[test]
fn should_find_first_simple_content() {
    let html = r#"
        <html>
            <body>
                <div>
                    <p id="head">foo</p>
                    <p>bar</p>
                    <p>baz</p>
                </div>
            </body>
        </html>
        "#;
    let id_matcher = id_predicate("head".to_string());
    let mut html_selector = MatcherHtmlSelector::new();
    let founds = html_selector.find_first(html, &[id_matcher]);
    assert_eq!(vec!["foo".to_string()], founds);
}

#[test]
fn matcher_counts_with_the_first_predicate_only() {
    let html = "<div id='a'><p>x</p></div><p id='a'></p>";
    let mut html_selector = MatcherHtmlSelector::new();
    let counts = html_selector.count(html, &[id_predicate("a".to_string()), css("p")]);
    assert_eq!(vec![2], counts);
    let counts = stream_html_selector::with_matcher::count(html, &[css("p")]);
    assert_eq!(vec![2], counts);
}

#[test]
fn names_match_whole_names_only() {
    let html = "<body><div><xp>a</xp><p>b</p></div></body>";
    assert_eq!(vec![1, 1], stream_html_selector::by_name::count(html, &["p", "div p"]));
    assert_eq!(vec![0], stream_html_selector::by_name::count(html, &["body"]));
    assert_eq!(
        vec!["b".to_string()],
        stream_html_selector::by_name::find_first(html, &["div p"])
    );
}

#[test]
fn first_matching_request_takes_the_tag() {
    let html = "<body><div><p>b</p></div></body>";
    assert_eq!(
        vec!["b".to_string(), String::new()],
        stream_html_selector::by_name::find_first(html, &["p", "div p"])
    );
}

use stream_html_selector::html_selector::HtmlSelector;

#[test]
fn html_selector_should_match_child_tag_request() {
    let html = String::from(FAMILY);
    let css_requests = vec![" body", " div p"];
    let mut html_selector = HtmlSelector::new();
    let counts = html_selector.count(&html, &css_requests);
    assert_eq!(counts, vec![1, 3]);
}

#[test]
fn html_selector_should_find_firstpattern_and_return_text() {
    let html = String::from(FAMILY);
    let css_requests = vec![" body div p"];
    let mut html_selector = HtmlSelector::new();
    let texts = html_selector.find_first(&html, &css_requests);
    assert_eq!(texts, "foo".to_string());
}

#[test]
fn html_selector_counts_with_a_matcher() {
    let html = "<div id='costBreakdown'><p id='x'></p></div>";
    let mut html_selector = HtmlSelector::new();
    let count = html_selector.count_with_matcher(html, &id_predicate("costBreakdown".to_string()));
    assert_eq!(1, count);
}

#[test]
fn html_selector_reads_up_to_the_next_end_tag() {
    let html = "<body><div><p>a<b>c</b></p></div></body>";
    let mut html_selector = HtmlSelector::new();
    assert_eq!("a<b>c".to_string(), html_selector.find_first(html, &["p"]));
    assert_eq!(String::new(), html_selector.find_first(html, &["table"]));
}

use stream_html_selector::selectors::{HtmlSelectorCounter, HtmlSelectorFindFirst};

fn count_through<T, S: HtmlSelectorCounter<T>>(selector: &mut S, html: &str, requests: &[T]) -> Vec<usize> {
    selector.count(html, requests)
}

fn find_through<T, S: HtmlSelectorFindFirst<T>>(selector: &mut S, html: &str, requests: &[T]) -> Vec<String> {
    selector.find_first(html, requests)
}

#[test]
fn engines_answer_through_their_traits() {
    let html = "<body><p class='a'>x</p><p>y</p></body>";
    let mut by_name = TagNameHtmlSelector::new();
    assert_eq!(vec![2, 0], count_through(&mut by_name, html, &["p", "body p"]));
    assert_eq!(vec!["x".to_string()], find_through(&mut by_name, html, &["p"]));
    let mut by_matcher = MatcherHtmlSelector::new();
    assert_eq!(vec![1], count_through(&mut by_matcher, html, &[class_predicate("a".to_string())]));
    assert_eq!(vec!["x".to_string()], find_through(&mut by_matcher, html, &[css("p")]));
}
