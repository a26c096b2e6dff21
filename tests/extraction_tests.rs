use tagparser::matcher::{match_tags, MatchMode, TagMatch};
use tagparser::attribute::{attribute_values, filter_by_attribute};
use tagparser::content::extract_content;
use tagparser::{extract_attribute_values, extract_tag_content, parse_tags, parse_tags_with_attr, Parser};

fn strings(v: &[&str]) -> Vec<String> {
    v.iter().map(|s| s.to_string()).collect()
}

#[test]
fn links_among_paragraphs() {
    let html = "<p>Test</p><a href='x'>L1</a><a class='test' href='x'>L2</a>".to_string();
    assert_eq!(
        parse_tags(html, "a".to_string()),
        strings(&["<a href='x'>L1</a>", "<a class='test' href='x'>L2</a>"])
    );
}

#[test]
fn attribute_value_filter_exact() {
    let html = "<a href='https://example.com' class='button'>Link</a>".to_string();
    assert_eq!(
        parse_tags_with_attr(html.clone(), "a".to_string(), "class", Some("button")),
        strings(&["<a href='https://example.com' class='button'>Link</a>"])
    );
    assert_eq!(
        parse_tags_with_attr(html, "a".to_string(), "class", Some("link")),
        Vec::<String>::new()
    );
}

#[test]
fn empty_element_gives_one_empty_entry() {
    assert_eq!(extract_tag_content("<p></p>".to_string(), "p".to_string()), strings(&[""]));
}

#[test]
fn empty_and_full_contents_keep_their_places() {
    assert_eq!(
        extract_tag_content("<p></p><p>x</p><p></p>".to_string(), "p".to_string()),
        strings(&["", "x", ""])
    );
}

#[test]
fn unclosed_tag_gives_nothing() {
    let html = "<a href='https://example.com'>Unclosed".to_string();
    assert_eq!(parse_tags(html, "a".to_string()), Vec::<String>::new());
}

#[test]
fn missing_attribute_is_skipped() {
    let html = "<div src='i1.jpg' alt='a1'>x</div><div src='i2.jpg'>y</div>".to_string();
    assert_eq!(parse_tags(html.clone(), "div".to_string()).len(), 2);
    assert_eq!(extract_attribute_values(html, "div".to_string(), "alt"), strings(&["a1"]));
}

#[test]
fn results_are_substrings_of_the_document() {
    let html = "<ul><li>one</li>\n<li class='b'>two</li><li/></ul><li>".to_string();
    let tags = parse_tags(html.clone(), "li".to_string());
    assert_eq!(tags.len(), 3);
    for tag in &tags {
        assert!(html.contains(tag.as_str()));
    }
}

#[test]
fn attribute_filter_keeps_order() {
    let html = "<a href='1'>a</a><a>b</a><a href='2' id='k'>c</a><a id='k'>d</a>".to_string();
    let all = parse_tags(html.clone(), "a".to_string());
    let with_href = parse_tags_with_attr(html.clone(), "a".to_string(), "href", None);
    assert_eq!(with_href, strings(&["<a href='1'>a</a>", "<a href='2' id='k'>c</a>"]));
    let mut pos = 0;
    for t in &with_href {
        let found = all[pos..].iter().position(|x| x == t).unwrap();
        pos += found + 1;
    }
    let with_value = parse_tags_with_attr(html, "a".to_string(), "href", Some("2"));
    assert_eq!(with_value, strings(&["<a href='2' id='k'>c</a>"]));
}

#[test]
fn extraction_is_repeatable() {
    let html = "<b>x</b><b class='c'>y</b><b/>".to_string();
    let mut parser = Parser::new(html);
    let first = parser.parse_tags("b".to_string());
    let again = parser.parse_tags("b".to_string());
    assert_eq!(first, again);
    assert_eq!(
        parser.extract_tag_content("b".to_string()),
        parser.extract_tag_content("b".to_string())
    );
    assert_eq!(
        parser.extract_attribute_values("b".to_string(), "class"),
        parser.extract_attribute_values("b".to_string(), "class")
    );
    assert_eq!(
        parser.parse_tags_with_attr("b".to_string(), "class", Some("c")),
        strings(&["<b class='c'>y</b>"])
    );
}

#[test]
fn missing_tag_gives_empty_results() {
    let html = "<p class='x'>text</p><div>more</div>".to_string();
    assert!(parse_tags(html.clone(), "span".to_string()).is_empty());
    assert!(parse_tags_with_attr(html.clone(), "span".to_string(), "class", None).is_empty());
    assert!(extract_tag_content(html.clone(), "span".to_string()).is_empty());
    assert!(extract_attribute_values(html, "span".to_string(), "class").is_empty());
}

#[test]
fn empty_document() {
    assert!(parse_tags(String::new(), "a".to_string()).is_empty());
    assert!(extract_tag_content(String::new(), "a".to_string()).is_empty());
    assert!(match_tags("", "a").is_empty());
}

#[test]
fn modes_are_reported() {
    let html = "<img src='a.png'/>\n<br>\n<p>x</p><img src='b.png' /></br>";
    assert_eq!(
        match_tags(html, "img"),
        vec![
            TagMatch { mode: MatchMode::SelfClosingSlash, start: 0, end: 18 },
            TagMatch { mode: MatchMode::SelfClosingSlash, start: 32, end: 51 },
        ]
    );
    assert_eq!(
        match_tags(html, "br"),
        vec![TagMatch { mode: MatchMode::BareOpening, start: 19, end: 23 }]
    );
    assert_eq!(
        match_tags(html, "p"),
        vec![TagMatch { mode: MatchMode::Paired, start: 24, end: 32 }]
    );
}

#[test]
fn bare_opening_needs_a_closing_marker_somewhere() {
    let html = "<input type='text'><input type='box'>".to_string();
    assert!(parse_tags(html.clone(), "input".to_string()).is_empty());
    let closed = "<input type='text'>\n<i>x</i></input>".to_string();
    assert_eq!(parse_tags(closed, "input".to_string()), strings(&["<input type='text'>"]));
}

#[test]
fn bare_opening_inside_a_paired_match_is_not_repeated() {
    let html = "<li>one<li>two</li>".to_string();
    assert_eq!(parse_tags(html, "li".to_string()), strings(&["<li>one<li>two</li>"]));
}

#[test]
fn repeated_bare_opening_is_kept_once() {
    let html = "<hr>\n<hr>\n</hr>".to_string();
    assert_eq!(parse_tags(html, "hr".to_string()), strings(&["<hr>"]));
}

#[test]
fn slash_marker_inside_paired_match_is_not_repeated() {
    let html = "<a href='x'/><a>y</a>".to_string();
    assert_eq!(parse_tags(html, "a".to_string()), strings(&["<a href='x'/><a>y</a>"]));
}

#[test]
fn inner_text_stays_on_one_line() {
    let html = "<div>\n<div>x</div>".to_string();
    assert_eq!(parse_tags(html.clone(), "div".to_string()), strings(&["<div>x</div>"]));
    assert_eq!(extract_tag_content(html, "div".to_string()), strings(&["x"]));
}

#[test]
fn nested_same_name_pairs_with_first_closer() {
    let html = "<div><div>x</div>y</div>".to_string();
    assert_eq!(parse_tags(html.clone(), "div".to_string()), strings(&["<div><div>x</div>"]));
    assert_eq!(extract_tag_content(html, "div".to_string()), strings(&["<div>x"]));
}

#[test]
fn longer_tag_name_is_not_matched() {
    let html = "<abbr>x</abbr><a>y</a>".to_string();
    assert_eq!(parse_tags(html.clone(), "a".to_string()), strings(&["<a>y</a>"]));
    assert_eq!(extract_tag_content(html, "a".to_string()), strings(&["y"]));
}

#[test]
fn tag_name_is_taken_literally() {
    let html = "<a.b>x</a.b><axb>y</axb>".to_string();
    assert_eq!(parse_tags(html.clone(), "a.b".to_string()), strings(&["<a.b>x</a.b>"]));
    assert!(parse_tags(html.clone(), "(".to_string()).is_empty());
    assert!(parse_tags(html, "a*".to_string()).is_empty());
}

#[test]
fn attribute_name_and_value_are_taken_literally() {
    let html = "<a href='x.y'>1</a><a href='xzy'>2</a>".to_string();
    assert_eq!(
        parse_tags_with_attr(html.clone(), "a".to_string(), "href", Some("x.y")),
        strings(&["<a href='x.y'>1</a>"])
    );
    assert!(parse_tags_with_attr(html, "a".to_string(), "h.ef", None).is_empty());
}

#[test]
fn attribute_value_ends_at_matching_quote() {
    let html = "<a title=\"it's\" href=x>1</a>".to_string();
    assert_eq!(extract_attribute_values(html.clone(), "a".to_string(), "title"), strings(&["it's"]));
    assert!(extract_attribute_values(html, "a".to_string(), "href").is_empty());
}

#[test]
fn first_attribute_occurrence_wins() {
    assert_eq!(
        attribute_values(&strings(&["<a id='1' id=\"2\">x</a>", "<a>y</a>", "<a id=''>z</a>"]), "id"),
        strings(&["1", ""])
    );
}

#[test]
fn filter_on_given_strings() {
    let tags = strings(&["<i k='v'>1</i>", "<i k=\"w\">2</i>", "<i>3</i>"]);
    assert_eq!(filter_by_attribute(&tags, "k", None), strings(&["<i k='v'>1</i>", "<i k=\"w\">2</i>"]));
    assert_eq!(filter_by_attribute(&tags, "k", Some("w")), strings(&["<i k=\"w\">2</i>"]));
}

#[test]
fn non_ascii_text_is_cut_by_characters() {
    let html = "<p>héllo</p><p title='ünï'>wörld</p>";
    assert_eq!(extract_content(html, "p"), strings(&["héllo", "wörld"]));
    assert_eq!(
        parse_tags(html.to_string(), "p".to_string()),
        strings(&["<p>héllo</p>", "<p title='ünï'>wörld</p>"])
    );
    assert_eq!(extract_attribute_values(html.to_string(), "p".to_string(), "title"), strings(&["ünï"]));
}

#[test]
fn closing_marker_needs_its_bracket() {
    assert_eq!(parse_tags("<a>x</a".to_string(), "a".to_string()), strings(&["<a>"]));
    assert!(extract_tag_content("<a>x</a".to_string(), "a".to_string()).is_empty());
}
