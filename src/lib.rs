//! A streaming HTML reader: it walks an HTML document once, left to right,
//! yields start tags, end tags, comments and text runs, and matches the
//! chain of open tags against selector chains to count elements or to
//! capture the text of the first element that matches.
pub mod attributes;
pub mod by_name;
pub mod by_tag_path;
pub mod chars;
pub mod elements;
pub mod html_selector;
pub mod matcher_selector;
pub mod predicates;
pub mod selectors;
pub mod start_element;
pub mod tag_iterator;
pub mod tag_name_selector;
pub mod tag_parser;
pub mod tag_path;
pub mod with_matcher;
