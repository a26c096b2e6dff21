//! Laws that relate the operations of the library to each other and to the document.
use vstd::prelude::*;
use crate::attribute::{attr_matches, attr_value_at};
use crate::content::{contents_of, inner_text};
use crate::matcher::{
    MatchMode, tag_matches, tag_texts, scan, bare_pass, tagged, uncaptured, captured, name_at,
    match_end, paired_inner, lemma_scan_bounds, lemma_match_end,
};
use crate::parser::{tags_with_attr_of, attr_values_of};
use crate::text::{is_substring, occurs_at};

verus! {

/// `idx` maps each element of `x` to an equal element of `y`, at strictly
/// increasing positions.
pub open spec fn embeds<A>(x: Seq<A>, y: Seq<A>, idx: Seq<int>) -> bool {
    &&& idx.len() == x.len()
    &&& forall|i: int| 0 <= i < idx.len() ==> 0 <= #[trigger] idx[i] < y.len() && x[i] == y[idx[i]]
    &&& forall|i: int, j: int| 0 <= i < j < idx.len() ==> #[trigger] idx[i] < #[trigger] idx[j]
}

/// `x` is a subsequence of `y`: its elements occur in `y` in the same order.
pub open spec fn is_subsequence<A>(x: Seq<A>, y: Seq<A>) -> bool {
    exists|idx: Seq<int>| embeds(x, y, idx)
}

/// Filtering keeps the kept elements in their order.
pub proof fn lemma_filter_embeds<A>(xs: Seq<A>, p: spec_fn(A) -> bool) -> (idx: Seq<int>)
    ensures
        embeds(xs.filter(p), xs, idx),
    decreases xs.len(),
{
    reveal(Seq::filter);
    if xs.len() == 0 {
        Seq::empty()
    } else {
        let rest = lemma_filter_embeds(xs.drop_last(), p);
        if p(xs.last()) {
            rest.push(xs.len() - 1)
        } else {
            rest
        }
    }
}

/// Filtering by a stronger predicate keeps a subsequence of what a weaker one keeps.
pub proof fn lemma_filter_stronger_embeds<A>(
    xs: Seq<A>,
    p: spec_fn(A) -> bool,
    q: spec_fn(A) -> bool,
) -> (idx: Seq<int>)
    requires
        forall|x: A| #[trigger] p(x) ==> q(x),
    ensures
        embeds(xs.filter(p), xs.filter(q), idx),
    decreases xs.len(),
{
    reveal(Seq::filter);
    if xs.len() == 0 {
        Seq::empty()
    } else {
        let rest = lemma_filter_stronger_embeds(xs.drop_last(), p, q);
        if p(xs.last()) {
            rest.push(xs.drop_last().filter(q).len() as int)
        } else {
            rest
        }
    }
}

proof fn lemma_bare_pass_bounds(
    d: Seq<char>,
    t: Seq<char>,
    cands: Seq<(int, int)>,
    found: Seq<(MatchMode, int, int)>,
    n: int,
)
    requires
        0 <= n <= cands.len(),
        forall|i: int| 0 <= i < cands.len() ==> 0 <= (#[trigger] cands[i]).0 <= cands[i].1 <= d.len(),
        forall|i: int| 0 <= i < found.len() ==> 0 <= (#[trigger] found[i]).1 <= found[i].2 <= d.len(),
    ensures
        forall|i: int|
            0 <= i < bare_pass(d, t, cands, found, n).len() ==> 0 <= (#[trigger] bare_pass(
                d,
                t,
                cands,
                found,
                n,
            )[i]).1 <= bare_pass(d, t, cands, found, n)[i].2 <= d.len(),
    decreases n,
{
    if n > 0 {
        lemma_bare_pass_bounds(d, t, cands, found, n - 1);
        let prev = bare_pass(d, t, cands, found, n - 1);
        let c = cands[n - 1];
        let cur = bare_pass(d, t, cands, found, n);
        assert forall|i: int| 0 <= i < cur.len() implies 0 <= (#[trigger] cur[i]).1 <= cur[i].2
            <= d.len() by {
            if i < prev.len() {
                assert(cur[i] == prev[i]);
            } else {
                assert(cur[i] == (MatchMode::BareOpening, c.0, c.1));
            }
        }
    }
}

/// Every occurrence found is a range of the document.
pub proof fn lemma_tag_matches_bounds(d: Seq<char>, t: Seq<char>)
    ensures
        forall|i: int|
            0 <= i < tag_matches(d, t).len() ==> 0 <= (#[trigger] tag_matches(d, t)[i]).1
                <= tag_matches(d, t)[i].2 <= d.len(),
{
    let paired = scan(d, t, MatchMode::Paired, 0);
    let slashed = scan(d, t, MatchMode::SelfClosingSlash, 0);
    let kept = uncaptured(paired, slashed);
    let bare = scan(d, t, MatchMode::BareOpening, 0);
    lemma_scan_bounds(d, t, MatchMode::Paired, 0);
    lemma_scan_bounds(d, t, MatchMode::SelfClosingSlash, 0);
    lemma_scan_bounds(d, t, MatchMode::BareOpening, 0);
    let first = tagged(MatchMode::Paired, paired) + tagged(MatchMode::SelfClosingSlash, kept);
    assert forall|i: int| 0 <= i < kept.len() implies 0 <= (#[trigger] kept[i]).0 <= kept[i].1
        <= d.len() by {
        let pred = |m: (int, int)| !captured(paired, m);
        assert(kept.contains(kept[i]));
        slashed.lemma_filter_contains_rev(pred, kept[i]);
    }
    assert forall|i: int| 0 <= i < first.len() implies 0 <= (#[trigger] first[i]).1 <= first[i].2
        <= d.len() by {
        if i >= paired.len() {
            assert(first[i] == (MatchMode::SelfClosingSlash, kept[i - paired.len()].0, kept[i
                - paired.len()].1));
        }
    }
    lemma_bare_pass_bounds(d, t, bare, first, bare.len() as int);
}

/// Every tag text returned is a verbatim substring of the document.
pub proof fn law_tags_are_substrings(d: Seq<char>, t: Seq<char>)
    ensures
        forall|i: int| 0 <= i < tag_texts(d, t).len() ==> is_substring(#[trigger] tag_texts(d, t)[i], d),
{
    lemma_tag_matches_bounds(d, t);
    assert forall|i: int| 0 <= i < tag_texts(d, t).len() implies is_substring(
        #[trigger] tag_texts(d, t)[i],
        d,
    ) by {
        let m = tag_matches(d, t)[i];
        assert(tag_texts(d, t)[i] == d.subrange(m.1, m.2));
        assert(occurs_at(d, tag_texts(d, t)[i], m.1));
    }
}

/// Filtering by an attribute without a value keeps a subsequence of the tags.
pub proof fn law_attr_filter_is_subsequence(d: Seq<char>, t: Seq<char>, a: Seq<char>)
    ensures
        is_subsequence(tags_with_attr_of(d, t, a, None), tag_texts(d, t)),
{
    let idx = lemma_filter_embeds(tag_texts(d, t), |x: Seq<char>| attr_matches(x, a, None));
    assert(embeds(tags_with_attr_of(d, t, a, None), tag_texts(d, t), idx));
}

/// Filtering by an attribute value keeps a subsequence of what filtering by
/// the attribute alone keeps.
pub proof fn law_attr_value_filter_is_subsequence(
    d: Seq<char>,
    t: Seq<char>,
    a: Seq<char>,
    v: Seq<char>,
)
    ensures
        is_subsequence(tags_with_attr_of(d, t, a, Some(v)), tags_with_attr_of(d, t, a, None)),
{
    let p = |x: Seq<char>| attr_matches(x, a, Some(v));
    let q = |x: Seq<char>| attr_matches(x, a, None);
    assert forall|x: Seq<char>| #[trigger] p(x) implies q(x) by {
        let i = choose|i: int| #[trigger] attr_value_at(x, a, i) == Some(v);
        assert(attr_value_at(x, a, i) is Some);
    }
    let idx = lemma_filter_stronger_embeds(tag_texts(d, t), p, q);
    assert(embeds(tags_with_attr_of(d, t, a, Some(v)), tags_with_attr_of(d, t, a, None), idx));
}

/// Running an extraction again on the same document and arguments gives the
/// same sequence: each result is a function of those inputs alone.
pub proof fn law_extraction_is_repeatable(
    d: Seq<char>,
    t: Seq<char>,
    a: Seq<char>,
    v: Option<Seq<char>>,
    first: Seq<Seq<char>>,
    again: Seq<Seq<char>>,
)
    requires
        (first == tag_texts(d, t) && again == tag_texts(d, t)) || (first == tags_with_attr_of(
            d,
            t,
            a,
            v,
        ) && again == tags_with_attr_of(d, t, a, v)) || (first == contents_of(d, t) && again
            == contents_of(d, t)) || (first == attr_values_of(d, t, a) && again == attr_values_of(
            d,
            t,
            a,
        )),
    ensures
        first == again,
{
}

/// Each paired occurrence gives exactly one entry of the content extraction,
/// and one with nothing between its markers gives the empty string.
pub proof fn law_empty_content(d: Seq<char>, t: Seq<char>)
    ensures
        contents_of(d, t).len() == scan(d, t, MatchMode::Paired, 0).len(),
        forall|i: int|
            0 <= i < contents_of(d, t).len() ==> {
                let inner = paired_inner(d, t, scan(d, t, MatchMode::Paired, 0)[i].0)->0;
                (#[trigger] contents_of(d, t)[i]).len() == 0 <==> inner.0 == inner.1
            },
{
    lemma_scan_bounds(d, t, MatchMode::Paired, 0);
    assert forall|i: int| 0 <= i < contents_of(d, t).len() implies {
        let inner = paired_inner(d, t, scan(d, t, MatchMode::Paired, 0)[i].0)->0;
        (#[trigger] contents_of(d, t)[i]).len() == 0 <==> inner.0 == inner.1
    } by {
        let s = scan(d, t, MatchMode::Paired, 0)[i].0;
        lemma_match_end(d, t, MatchMode::Paired, s);
        assert(contents_of(d, t)[i] == inner_text(d, t, s));
    }
}

proof fn lemma_scan_without_name(d: Seq<char>, t: Seq<char>, mode: MatchMode, from: int)
    requires
        0 <= from,
        forall|s: int| !name_at(d, t, s),
    ensures
        scan(d, t, mode, from).len() == 0,
    decreases d.len() - from,
{
    if from < d.len() {
        assert(match_end(d, t, mode, from) is None);
        lemma_scan_without_name(d, t, mode, from + 1);
    }
}

/// A tag name whose opening `<t` occurs nowhere in the document gives empty
/// results from all four operations.
pub proof fn law_missing_tag(d: Seq<char>, t: Seq<char>, a: Seq<char>, v: Option<Seq<char>>)
    requires
        !is_substring(seq!['<'] + t, d),
    ensures
        tag_texts(d, t).len() == 0,
        tags_with_attr_of(d, t, a, v).len() == 0,
        contents_of(d, t).len() == 0,
        attr_values_of(d, t, a).len() == 0,
{
    assert forall|s: int| !name_at(d, t, s) by {
        if name_at(d, t, s) {
            assert(d.subrange(s, s + 1 + t.len()) =~= seq!['<'] + t);
            assert(occurs_at(d, seq!['<'] + t, s));
        }
    }
    lemma_scan_without_name(d, t, MatchMode::Paired, 0);
    lemma_scan_without_name(d, t, MatchMode::SelfClosingSlash, 0);
    lemma_scan_without_name(d, t, MatchMode::BareOpening, 0);
    let slashed = scan(d, t, MatchMode::SelfClosingSlash, 0);
    reveal(Seq::filter);
    assert(uncaptured(scan(d, t, MatchMode::Paired, 0), slashed).len() == 0);
    assert(tag_matches(d, t).len() == 0);
    assert(tag_texts(d, t).len() == 0);
    assert(tags_with_attr_of(d, t, a, v).len() == 0);
    assert(attr_values_of(d, t, a).len() == 0);
}

} // verus!
