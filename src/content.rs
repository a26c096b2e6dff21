//! The content extractor: the inner text of each paired occurrence.
use vstd::prelude::*;
use crate::matcher::{
    MatchMode, paired_inner, scan, spans, scan_spans, paired_inner_at, lemma_scan_bounds,
    lemma_match_end,
};
use crate::text::{chars_of, text_between, texts};

verus! {

/// The inner text of the paired occurrence of `t` that starts at `s`.
pub open spec fn inner_text(d: Seq<char>, t: Seq<char>, s: int) -> Seq<char> {
    match paired_inner(d, t, s) {
        Some(inner) => d.subrange(inner.0, inner.1),
        None => Seq::empty(),
    }
}

/// The inner text of every paired occurrence of `t` in `d`, in document order.
pub open spec fn contents_of(d: Seq<char>, t: Seq<char>) -> Seq<Seq<char>> {
    scan(d, t, MatchMode::Paired, 0).map_values(|m: (int, int)| inner_text(d, t, m.0))
}

/// The inner text of every paired occurrence of `tag` in `html`, verbatim,
/// nested markup included.
pub fn extract_content(html: &str, tag: &str) -> (r: Vec<String>)
    ensures
        texts(r@) == contents_of(html@, tag@),
{
    let d = chars_of(html);
    let t = chars_of(tag);
    let paired = scan_spans(&d, &t, MatchMode::Paired);
    let ghost p = spans(paired@);
    proof {
        lemma_scan_bounds(d@, t@, MatchMode::Paired, 0);
    }
    let mut out: Vec<String> = Vec::new();
    let mut i: usize = 0;
    while i < paired.len()
        invariant
            i <= paired@.len(),
            d@ == html@,
            p == spans(paired@),
            p == scan(d@, t@, MatchMode::Paired, 0),
            forall|k: int|
                0 <= k < p.len() ==> 0 <= (#[trigger] p[k]).0 && paired_inner(d@, t@, p[k].0) is Some,
            texts(out@) == p.take(i as int).map_values(|m: (int, int)| inner_text(d@, t@, m.0)),
        decreases paired@.len() - i,
    {
        let s = paired[i].0;
        assert(p[i as int].0 == s as int);
        proof {
            lemma_match_end(d@, t@, MatchMode::Paired, s as int);
        }
        let ghost before = out@;
        match paired_inner_at(&d, &t, s) {
            Some((a, b)) => {
                out.push(text_between(html, a, b));
            },
            None => {},
        }
        assert(texts(out@) =~= texts(before).push(inner_text(d@, t@, s as int)));
        assert(p.take(i + 1) =~= p.take(i as int).push(p[i as int]));
        i = i + 1;
    }
    assert(p.take(i as int) =~= p);
    out
}

} // verus!
