//! Extraction of HTML elements, attribute values and inner text from raw
//! markup, by pattern scanning rather than by building a document tree.
pub mod attribute;
pub mod content;
pub mod laws;
pub mod matcher;
pub mod parser;
pub mod text;

pub use crate::parser::Parser;

use vstd::prelude::*;
use crate::content::contents_of;
use crate::matcher::tag_texts;
use crate::parser::{tags_with_attr_of, attr_values_of};
use crate::text::{texts, opt_text};

verus! {

/// The text of every occurrence of `tag` in `html`.
pub fn parse_tags(html: String, tag: String) -> (r: Vec<String>)
    ensures
        texts(r@) == tag_texts(html@, tag@),
{
    let mut parser = Parser::new(html);
    parser.parse_tags(tag)
}

/// The occurrences of `tag` in `html` that carry the attribute `attr_name`,
/// with the value `attr_value` where one is given.
pub fn parse_tags_with_attr(
    html: String,
    tag: String,
    attr_name: &str,
    attr_value: Option<&str>,
) -> (r: Vec<String>)
    ensures
        texts(r@) == tags_with_attr_of(html@, tag@, attr_name@, opt_text(attr_value)),
{
    let mut parser = Parser::new(html);
    parser.parse_tags_with_attr(tag, attr_name, attr_value)
}

/// The inner text of every paired occurrence of `tag` in `html`.
pub fn extract_tag_content(html: String, tag: String) -> (r: Vec<String>)
    ensures
        texts(r@) == contents_of(html@, tag@),
{
    let mut parser = Parser::new(html);
    parser.extract_tag_content(tag)
}

/// The value of the attribute `attr_name` in each occurrence of `tag` in
/// `html` that carries it.
pub fn extract_attribute_values(html: String, tag: String, attr_name: &str) -> (r: Vec<String>)
    ensures
        texts(r@) == attr_values_of(html@, tag@, attr_name@),
{
    let mut parser = Parser::new(html);
    parser.extract_attribute_values(tag, attr_name)
}

} // verus!
