//! The extraction session: a document and the four operations on it.
use vstd::prelude::*;
use crate::attribute::{filter_by_attribute, attribute_values, with_attribute, attribute_values_of};
use crate::content::{contents_of, extract_content};
use crate::matcher::{MatchMode, match_tags_in, tag_matches, tag_texts, match_views};
use crate::text::{chars_of, text_between, texts, opt_text};

verus! {

/// The occurrences of `t` in `d` that carry the attribute `a`, with the value
/// `v` where one is given.
pub open spec fn tags_with_attr_of(
    d: Seq<char>,
    t: Seq<char>,
    a: Seq<char>,
    v: Option<Seq<char>>,
) -> Seq<Seq<char>> {
    with_attribute(tag_texts(d, t), a, v)
}

/// The value of the attribute `a` in each occurrence of `t` in `d` that carries it.
pub open spec fn attr_values_of(d: Seq<char>, t: Seq<char>, a: Seq<char>) -> Seq<Seq<char>> {
    attribute_values_of(tag_texts(d, t), a)
}

/// A markup document, fixed when the parser is made.
pub struct Parser {
    html: String,
}

impl View for Parser {
    type V = Seq<char>;

    closed spec fn view(&self) -> Seq<char> {
        self.html@
    }
}

impl Parser {
    /// A parser over the document `html`.
    pub fn new(html: String) -> (r: Self)
        ensures
            r@ == html@,
    {
        Parser { html }
    }

    /// The text of every occurrence of `tag`: paired elements, elements closed
    /// by a slash, then bare opening markers, each a verbatim part of the document.
    pub fn parse_tags(&mut self, tag: String) -> (r: Vec<String>)
        ensures
            *final(self) == *old(self),
            texts(r@) == tag_texts(old(self)@, tag@),
    {
        let html = self.html.as_str();
        let d = chars_of(html);
        let t = chars_of(tag.as_str());
        let found = match_tags_in(&d, &t);
        let ghost ms = match_views(found@);
        let mut out: Vec<String> = Vec::new();
        let mut i: usize = 0;
        while i < found.len()
            invariant
                i <= found@.len(),
                d@ == html@,
                html@ == self@,
                ms == match_views(found@),
                ms == tag_matches(d@, t@),
                t@ == tag@,
                forall|j: int|
                    0 <= j < found@.len() ==> (#[trigger] found@[j]).start <= found@[j].end
                        <= d@.len(),
                texts(out@) == ms.take(i as int).map_values(
                    |m: (MatchMode, int, int)| d@.subrange(m.1, m.2),
                ),
            decreases found@.len() - i,
        {
            let m = found[i];
            let ghost before = out@;
            out.push(text_between(html, m.start, m.end));
            assert(ms[i as int] == m@);
            assert(ms.take(i + 1) =~= ms.take(i as int).push(ms[i as int]));
            assert(texts(out@) =~= texts(before).push(d@.subrange(m.start as int, m.end as int)));
            i = i + 1;
        }
        assert(ms.take(i as int) =~= ms);
        out
    }

    /// The occurrences of `tag` that carry the attribute `attr_name` with a
    /// quoted value, equal to `attr_value` where one is given, in their order.
    pub fn parse_tags_with_attr(
        &mut self,
        tag: String,
        attr_name: &str,
        attr_value: Option<&str>,
    ) -> (r: Vec<String>)
        ensures
            *final(self) == *old(self),
            texts(r@) == tags_with_attr_of(old(self)@, tag@, attr_name@, opt_text(attr_value)),
    {
        let all = self.parse_tags(tag);
        filter_by_attribute(&all, attr_name, attr_value)
    }

    /// The inner text of every paired occurrence of `tag`, verbatim; an empty
    /// element gives an empty string.
    pub fn extract_tag_content(&mut self, tag: String) -> (r: Vec<String>)
        ensures
            *final(self) == *old(self),
            texts(r@) == contents_of(old(self)@, tag@),
    {
        extract_content(self.html.as_str(), tag.as_str())
    }

    /// The quoted value of the attribute `attr_name` in each occurrence of
    /// `tag` that carries it, in their order.
    pub fn extract_attribute_values(&mut self, tag: String, attr_name: &str) -> (r: Vec<String>)
        ensures
            *final(self) == *old(self),
            texts(r@) == attr_values_of(old(self)@, tag@, attr_name@),
    {
        let all = self.parse_tags(tag);
        attribute_values(&all, attr_name)
    }
}

} // verus!
