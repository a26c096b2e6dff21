//! The tag matcher: locates the occurrences of a tag name in a document.
//!
//! Three scans run over the document, each left to right and without overlap:
//! paired elements `<t ...>...</t...>`, elements closed by a slash `<t .../>`,
//! and bare opening markers `<t ...>`. Their results are joined in that order.
use vstd::prelude::*;
use crate::text::{
    find_from, occurs_at, is_substring, lemma_find_from_bounds, find_char, occurs_at_index,
    contains_chars, copy_range, chars_of,
};

verus! {

/// The way an occurrence was recognised.
#[derive(Clone, Copy, Debug, PartialEq, Eq, Structural)]
pub enum MatchMode {
    /// An opening marker paired with the nearest closing marker on the same line.
    Paired,
    /// A single marker that ends in `/>`.
    SelfClosingSlash,
    /// An opening marker with no partner, kept because the document closes the
    /// tag name somewhere.
    BareOpening,
}

/// One occurrence of a tag: its mode and the character range `start..end` it
/// covers in the document.
#[derive(Clone, Copy, Debug, PartialEq, Eq, Structural)]
pub struct TagMatch {
    pub mode: MatchMode,
    pub start: usize,
    pub end: usize,
}

impl View for TagMatch {
    type V = (MatchMode, int, int);

    open spec fn view(&self) -> (MatchMode, int, int) {
        (self.mode, self.start as int, self.end as int)
    }
}

/// HTML whitespace.
pub open spec fn is_space(c: char) -> bool {
    c == ' ' || c == '\t' || c == '\n' || c == '\r' || c == '\x0C'
}

/// The index just past the name of a marker `<t` that starts at `s`.
pub open spec fn name_end(t: Seq<char>, s: int) -> int {
    s + 1 + t.len()
}

/// `<` followed by the tag name `t` starts at index `s` of `d`.
pub open spec fn name_at(d: Seq<char>, t: Seq<char>, s: int) -> bool {
    0 <= s < d.len() && d[s] == '<' && occurs_at(d, t, s + 1)
}

/// An opening marker that may start a paired element: the name is followed by
/// whitespace or `>`, so that `<t` does not match a longer name.
pub open spec fn paired_open_at(d: Seq<char>, t: Seq<char>, s: int) -> bool {
    &&& name_at(d, t, s)
    &&& name_end(t, s) < d.len()
    &&& (is_space(d[name_end(t, s)]) || d[name_end(t, s)] == '>')
}

/// An opening marker of the other two kinds: the name may also be followed by `/`.
pub open spec fn open_at(d: Seq<char>, t: Seq<char>, s: int) -> bool {
    paired_open_at(d, t, s) || (name_at(d, t, s) && name_end(t, s) < d.len() && d[name_end(t, s)]
        == '/')
}

/// `</` followed by the tag name `t` starts at index `k` of `d`.
pub open spec fn close_name_at(d: Seq<char>, t: Seq<char>, k: int) -> bool {
    0 <= k && k + 1 < d.len() && d[k] == '<' && d[k + 1] == '/' && occurs_at(d, t, k + 2)
}

/// A complete closing marker `</t...>` starts at `k`: some `>` follows its name.
pub open spec fn closer_at(d: Seq<char>, t: Seq<char>, k: int) -> bool {
    close_name_at(d, t, k) && find_from(d, '>', k + 2 + t.len()) < d.len()
}

/// The document contains `</t` somewhere.
pub open spec fn has_close_name(d: Seq<char>, t: Seq<char>) -> bool {
    exists|k: int| close_name_at(d, t, k)
}

/// The first complete closing marker at or after `k` that lies before the next
/// line feed: the inner text of a paired element stays on one line.
pub open spec fn first_closer(d: Seq<char>, t: Seq<char>, k: int) -> Option<int>
    decreases d.len() - k,
{
    if k < 0 || k >= d.len() {
        None
    } else if closer_at(d, t, k) {
        Some(k)
    } else if d[k] == '\n' {
        None
    } else {
        first_closer(d, t, k + 1)
    }
}

/// For a paired element that starts at `s`, the range of its inner text: from
/// just past the first `>` of the opening marker to the start of the closing
/// marker.
pub open spec fn paired_inner(d: Seq<char>, t: Seq<char>, s: int) -> Option<(int, int)> {
    if paired_open_at(d, t, s) {
        let g = find_from(d, '>', name_end(t, s));
        if g < d.len() {
            match first_closer(d, t, g + 1) {
                Some(k) => Some((g + 1, k)),
                None => None,
            }
        } else {
            None
        }
    } else {
        None
    }
}

/// The end (exclusive) of the occurrence of the given mode that starts at `s`, if any.
pub open spec fn match_end(d: Seq<char>, t: Seq<char>, mode: MatchMode, s: int) -> Option<int> {
    match mode {
        MatchMode::Paired => match paired_inner(d, t, s) {
            Some(inner) => Some(find_from(d, '>', inner.1 + 2 + t.len()) + 1),
            None => None,
        },
        MatchMode::SelfClosingSlash => {
            let g = find_from(d, '>', name_end(t, s));
            if open_at(d, t, s) && name_end(t, s) < g < d.len() && d[g - 1] == '/' {
                Some(g + 1)
            } else {
                None
            }
        },
        MatchMode::BareOpening => {
            let g = find_from(d, '>', name_end(t, s));
            if open_at(d, t, s) && g < d.len() {
                Some(g + 1)
            } else {
                None
            }
        },
    }
}

pub proof fn lemma_first_closer(d: Seq<char>, t: Seq<char>, k: int)
    requires
        0 <= k,
    ensures
        first_closer(d, t, k) matches Some(c) ==> k <= c < d.len() && closer_at(d, t, c),
    decreases d.len() - k,
{
    if k < d.len() && !closer_at(d, t, k) && d[k] != '\n' {
        lemma_first_closer(d, t, k + 1);
    }
}

/// Every occurrence is a non-empty range of the document.
pub proof fn lemma_match_end(d: Seq<char>, t: Seq<char>, mode: MatchMode, s: int)
    requires
        0 <= s,
    ensures
        match_end(d, t, mode, s) matches Some(e) ==> s < e <= d.len(),
        paired_inner(d, t, s) matches Some(inner) ==> s < inner.0 <= inner.1 && inner.1 + 2
            + t.len() < match_end(d, t, MatchMode::Paired, s)->0 <= d.len(),
{
    lemma_find_from_bounds(d, '>', name_end(t, s));
    let g = find_from(d, '>', name_end(t, s));
    if paired_open_at(d, t, s) && g < d.len() {
        lemma_first_closer(d, t, g + 1);
        if let Some(k) = first_closer(d, t, g + 1) {
            lemma_find_from_bounds(d, '>', k + 2 + t.len());
        }
    }
}

/// The occurrences of one mode found by a left-to-right scan from index
/// `from`: the first position where an occurrence starts gives one, and the
/// scan resumes at its end.
pub open spec fn scan(d: Seq<char>, t: Seq<char>, mode: MatchMode, from: int) -> Seq<(int, int)>
    decreases d.len() - from,
{
    if from < 0 || from >= d.len() {
        Seq::empty()
    } else {
        match match_end(d, t, mode, from) {
            Some(e) => {
                proof {
                    lemma_match_end(d, t, mode, from);
                }
                seq![(from, e)] + scan(d, t, mode, e)
            },
            None => scan(d, t, mode, from + 1),
        }
    }
}

pub proof fn lemma_scan_bounds(d: Seq<char>, t: Seq<char>, mode: MatchMode, from: int)
    requires
        0 <= from,
    ensures
        forall|i: int|
            0 <= i < scan(d, t, mode, from).len() ==> {
                let m = #[trigger] scan(d, t, mode, from)[i];
                from <= m.0 < m.1 <= d.len() && match_end(d, t, mode, m.0) == Some(m.1)
            },
    decreases d.len() - from,
{
    if from < d.len() {
        lemma_match_end(d, t, mode, from);
        match match_end(d, t, mode, from) {
            Some(e) => {
                lemma_scan_bounds(d, t, mode, e);
                let rest = scan(d, t, mode, e);
                assert forall|i: int| 0 < i < scan(d, t, mode, from).len() implies #[trigger] scan(
                    d,
                    t,
                    mode,
                    from,
                )[i] == rest[i - 1] by {}
            },
            None => {
                lemma_scan_bounds(d, t, mode, from + 1);
            },
        }
    }
}

/// The spans of one mode, each tagged with that mode.
pub open spec fn tagged(mode: MatchMode, sp: Seq<(int, int)>) -> Seq<(MatchMode, int, int)> {
    sp.map_values(|m: (int, int)| (mode, m.0, m.1))
}

/// The span `m` lies inside one of the paired spans.
pub open spec fn captured(paired: Seq<(int, int)>, m: (int, int)) -> bool {
    exists|j: int| 0 <= j < paired.len() && paired[j].0 <= m.0 && m.1 <= paired[j].1
}

/// The candidates that lie inside none of the paired spans, in their order.
pub open spec fn uncaptured(paired: Seq<(int, int)>, cands: Seq<(int, int)>) -> Seq<(int, int)> {
    cands.filter(|m: (int, int)| !captured(paired, m))
}

/// The text `x` is a substring of the text of one of the occurrences found so far.
pub open spec fn covered(d: Seq<char>, found: Seq<(MatchMode, int, int)>, x: Seq<char>) -> bool {
    exists|j: int| 0 <= j < found.len() && is_substring(x, d.subrange(found[j].1, found[j].2))
}

/// The occurrences after the bare-opening pass has looked at the first `n`
/// candidates, starting from `found`. A candidate is kept when the document
/// contains `</t` somewhere and its text is not part of any occurrence kept
/// before it.
pub open spec fn bare_pass(
    d: Seq<char>,
    t: Seq<char>,
    cands: Seq<(int, int)>,
    found: Seq<(MatchMode, int, int)>,
    n: int,
) -> Seq<(MatchMode, int, int)>
    decreases n,
{
    if n <= 0 {
        found
    } else {
        let prev = bare_pass(d, t, cands, found, n - 1);
        let c = cands[n - 1];
        if has_close_name(d, t) && !covered(d, prev, d.subrange(c.0, c.1)) {
            prev.push((MatchMode::BareOpening, c.0, c.1))
        } else {
            prev
        }
    }
}

/// All occurrences of the tag name `t` in `d`: the paired ones, then those
/// closed by a slash that lie inside no paired one, then the bare opening
/// markers that the bare-opening pass keeps.
pub open spec fn tag_matches(d: Seq<char>, t: Seq<char>) -> Seq<(MatchMode, int, int)> {
    let paired = scan(d, t, MatchMode::Paired, 0);
    let first = tagged(MatchMode::Paired, paired) + tagged(
        MatchMode::SelfClosingSlash,
        uncaptured(paired, scan(d, t, MatchMode::SelfClosingSlash, 0)),
    );
    let bare = scan(d, t, MatchMode::BareOpening, 0);
    bare_pass(d, t, bare, first, bare.len() as int)
}

/// The text of each occurrence of `t` in `d`, in the order of `tag_matches`.
pub open spec fn tag_texts(d: Seq<char>, t: Seq<char>) -> Seq<Seq<char>> {
    tag_matches(d, t).map_values(|m: (MatchMode, int, int)| d.subrange(m.1, m.2))
}

/// The views of a sequence of occurrences.
pub open spec fn match_views(v: Seq<TagMatch>) -> Seq<(MatchMode, int, int)> {
    v.map_values(|m: TagMatch| m@)
}

/// The spans of a vector of index pairs, as integers.
pub open spec fn spans(v: Seq<(usize, usize)>) -> Seq<(int, int)> {
    v.map_values(|p: (usize, usize)| (p.0 as int, p.1 as int))
}

/// An optional index, as an integer.
pub open spec fn opt_int(r: Option<usize>) -> Option<int> {
    match r {
        Some(i) => Some(i as int),
        None => None,
    }
}

/// An optional index pair, as integers.
pub open spec fn opt_span(r: Option<(usize, usize)>) -> Option<(int, int)> {
    match r {
        Some(p) => Some((p.0 as int, p.1 as int)),
        None => None,
    }
}

fn is_space_char(c: char) -> (r: bool)
    ensures
        r == is_space(c),
{
    c == ' ' || c == '\t' || c == '\n' || c == '\r' || c == '\x0C'
}

fn name_at_index(d: &Vec<char>, t: &Vec<char>, s: usize) -> (r: bool)
    ensures
        r == name_at(d@, t@, s as int),
{
    s < d.len() && d[s] == '<' && occurs_at_index(d, t, s + 1)
}

fn paired_open_at_index(d: &Vec<char>, t: &Vec<char>, s: usize) -> (r: bool)
    ensures
        r == paired_open_at(d@, t@, s as int),
{
    let len = d.len();
    if !name_at_index(d, t, s) {
        return false;
    }
    let ne = s + 1 + t.len();
    ne < d.len() && (is_space_char(d[ne]) || d[ne] == '>')
}

fn open_at_index(d: &Vec<char>, t: &Vec<char>, s: usize) -> (r: bool)
    ensures
        r == open_at(d@, t@, s as int),
{
    let len = d.len();
    if !name_at_index(d, t, s) {
        return false;
    }
    let ne = s + 1 + t.len();
    ne < d.len() && (is_space_char(d[ne]) || d[ne] == '>' || d[ne] == '/')
}

fn close_name_at_index(d: &Vec<char>, t: &Vec<char>, k: usize) -> (r: bool)
    ensures
        r == close_name_at(d@, t@, k as int),
{
    k < d.len() && k + 1 < d.len() && d[k] == '<' && d[k + 1] == '/' && occurs_at_index(d, t, k + 2)
}

fn closer_at_index(d: &Vec<char>, t: &Vec<char>, k: usize) -> (r: bool)
    ensures
        r == closer_at(d@, t@, k as int),
{
    let len = d.len();
    close_name_at_index(d, t, k) && find_char(d, '>', k + 2 + t.len()) < len
}

fn first_closer_from(d: &Vec<char>, t: &Vec<char>, k: usize) -> (r: Option<usize>)
    ensures
        first_closer(d@, t@, k as int) == opt_int(r),
{
    let mut j: usize = k;
    while j < d.len()
        invariant
            k <= j,
            first_closer(d@, t@, k as int) == first_closer(d@, t@, j as int),
        decreases d@.len() - j,
    {
        if closer_at_index(d, t, j) {
            return Some(j);
        }
        if d[j] == '\n' {
            return None;
        }
        j = j + 1;
    }
    None
}

pub(crate) fn paired_inner_at(d: &Vec<char>, t: &Vec<char>, s: usize) -> (r: Option<(usize, usize)>)
    ensures
        paired_inner(d@, t@, s as int) == opt_span(r),
{
    let len = d.len();
    if !paired_open_at_index(d, t, s) {
        return None;
    }
    let g = find_char(d, '>', s + 1 + t.len());
    if g >= d.len() {
        return None;
    }
    match first_closer_from(d, t, g + 1) {
        Some(k) => Some((g + 1, k)),
        None => None,
    }
}

fn match_end_at(d: &Vec<char>, t: &Vec<char>, mode: MatchMode, s: usize) -> (r: Option<usize>)
    ensures
        match_end(d@, t@, mode, s as int) == opt_int(r),
{
    let len = d.len();
    proof {
        lemma_match_end(d@, t@, mode, s as int);
    }
    match mode {
        MatchMode::Paired => match paired_inner_at(d, t, s) {
            Some(inner) => {
                let g = find_char(d, '>', inner.1 + 2 + t.len());
                Some(g + 1)
            },
            None => None,
        },
        MatchMode::SelfClosingSlash => {
            if !open_at_index(d, t, s) {
                return None;
            }
            let ne = s + 1 + t.len();
            let g = find_char(d, '>', ne);
            if ne < g && g < d.len() && d[g - 1] == '/' {
                Some(g + 1)
            } else {
                None
            }
        },
        MatchMode::BareOpening => {
            if !open_at_index(d, t, s) {
                return None;
            }
            let g = find_char(d, '>', s + 1 + t.len());
            if g < d.len() {
                Some(g + 1)
            } else {
                None
            }
        },
    }
}

/// The occurrences of one mode, as spans, from a left-to-right scan of the whole document.
pub fn scan_spans(d: &Vec<char>, t: &Vec<char>, mode: MatchMode) -> (r: Vec<(usize, usize)>)
    ensures
        spans(r@) == scan(d@, t@, mode, 0),
{
    let mut out: Vec<(usize, usize)> = Vec::new();
    let mut pos: usize = 0;
    while pos < d.len()
        invariant
            pos <= d@.len(),
            spans(out@) + scan(d@, t@, mode, pos as int) == scan(d@, t@, mode, 0),
        decreases d@.len() - pos,
    {
        proof {
            lemma_match_end(d@, t@, mode, pos as int);
        }
        match match_end_at(d, t, mode, pos) {
            Some(e) => {
                let ghost before = out@;
                out.push((pos, e));
                assert(spans(out@) =~= spans(before) + seq![(pos as int, e as int)]);
                assert(spans(out@) + scan(d@, t@, mode, e as int) =~= spans(before) + scan(
                    d@,
                    t@,
                    mode,
                    pos as int,
                ));
                pos = e;
            },
            None => {
                pos = pos + 1;
            },
        }
    }
    assert(spans(out@) =~= scan(d@, t@, mode, 0));
    out
}

fn is_captured(paired: &Vec<(usize, usize)>, m: (usize, usize)) -> (r: bool)
    ensures
        r == captured(spans(paired@), (m.0 as int, m.1 as int)),
{
    let mut j: usize = 0;
    while j < paired.len()
        invariant
            j <= paired@.len(),
            forall|i: int|
                0 <= i < j ==> !(spans(paired@)[i].0 <= m.0 && m.1 <= spans(paired@)[i].1),
        decreases paired@.len() - j,
    {
        if paired[j].0 <= m.0 && m.1 <= paired[j].1 {
            assert(spans(paired@)[j as int] == (paired@[j as int].0 as int, paired@[j as int].1 as int));
            return true;
        }
        j = j + 1;
    }
    false
}

fn is_covered(texts: &Vec<Vec<char>>, x: &Vec<char>) -> (r: bool)
    ensures
        r == exists|j: int| 0 <= j < texts@.len() && is_substring(x@, texts@[j]@),
{
    let mut j: usize = 0;
    while j < texts.len()
        invariant
            j <= texts@.len(),
            forall|i: int| 0 <= i < j ==> !is_substring(x@, texts@[i]@),
        decreases texts@.len() - j,
    {
        if contains_chars(&texts[j], x) {
            return true;
        }
        j = j + 1;
    }
    false
}

fn has_close_name_in(d: &Vec<char>, t: &Vec<char>) -> (r: bool)
    ensures
        r == has_close_name(d@, t@),
{
    let mut k: usize = 0;
    while k < d.len()
        invariant
            k <= d@.len(),
            forall|i: int| 0 <= i < k ==> !close_name_at(d@, t@, i),
        decreases d@.len() - k,
    {
        if close_name_at_index(d, t, k) {
            return true;
        }
        k = k + 1;
    }
    false
}

/// All occurrences of the tag name `t` in the document `d`.
pub fn match_tags_in(d: &Vec<char>, t: &Vec<char>) -> (r: Vec<TagMatch>)
    ensures
        match_views(r@) == tag_matches(d@, t@),
        forall|j: int| 0 <= j < r@.len() ==> (#[trigger] r@[j]).start <= r@[j].end <= d@.len(),
{
    let paired = scan_spans(d, t, MatchMode::Paired);
    let slashed = scan_spans(d, t, MatchMode::SelfClosingSlash);
    let bare = scan_spans(d, t, MatchMode::BareOpening);
    let ghost p = spans(paired@);
    let ghost sl = spans(slashed@);
    let ghost b = spans(bare@);
    proof {
        lemma_scan_bounds(d@, t@, MatchMode::Paired, 0);
        lemma_scan_bounds(d@, t@, MatchMode::SelfClosingSlash, 0);
        lemma_scan_bounds(d@, t@, MatchMode::BareOpening, 0);
    }
    let mut out: Vec<TagMatch> = Vec::new();
    let mut texts: Vec<Vec<char>> = Vec::new();
    let mut i: usize = 0;
    while i < paired.len()
        invariant
            i <= paired@.len(),
            p == spans(paired@),
            p == scan(d@, t@, MatchMode::Paired, 0),
            forall|k: int| 0 <= k < p.len() ==> 0 <= #[trigger] p[k].0 <= p[k].1 <= d@.len(),
            match_views(out@) == tagged(MatchMode::Paired, p.take(i as int)),
            texts@.len() == out@.len(),
            forall|j: int| 0 <= j < out@.len() ==> (#[trigger] out@[j]).start <= out@[j].end <= d@.len(),
            forall|j: int|
                0 <= j < out@.len() ==> #[trigger] texts@[j]@ == d@.subrange(
                    out@[j].start as int,
                    out@[j].end as int,
                ),
        decreases paired@.len() - i,
    {
        let (s, e) = paired[i];
        assert(p[i as int] == (s as int, e as int));
        let ghost before = out@;
        out.push(TagMatch { mode: MatchMode::Paired, start: s, end: e });
        texts.push(copy_range(d, s, e));
        assert(match_views(out@) =~= match_views(before).push(
            (MatchMode::Paired, s as int, e as int),
        ));
        assert(tagged(MatchMode::Paired, p.take(i + 1)) =~= tagged(
            MatchMode::Paired,
            p.take(i as int),
        ).push((MatchMode::Paired, s as int, e as int)));
        i = i + 1;
    }
    assert(p.take(i as int) =~= p);
    let ghost first_paired = match_views(out@);
    i = 0;
    while i < slashed.len()
        invariant
            i <= slashed@.len(),
            p == spans(paired@),
            sl == spans(slashed@),
            sl == scan(d@, t@, MatchMode::SelfClosingSlash, 0),
            forall|k: int| 0 <= k < sl.len() ==> 0 <= #[trigger] sl[k].0 <= sl[k].1 <= d@.len(),
            first_paired == tagged(MatchMode::Paired, p),
            match_views(out@) == first_paired + tagged(
                MatchMode::SelfClosingSlash,
                uncaptured(p, sl.take(i as int)),
            ),
            texts@.len() == out@.len(),
            forall|j: int| 0 <= j < out@.len() ==> (#[trigger] out@[j]).start <= out@[j].end <= d@.len(),
            forall|j: int|
                0 <= j < out@.len() ==> #[trigger] texts@[j]@ == d@.subrange(
                    out@[j].start as int,
                    out@[j].end as int,
                ),
        decreases slashed@.len() - i,
    {
        let (s, e) = slashed[i];
        assert(sl[i as int] == (s as int, e as int));
        assert(sl.take(i + 1) =~= sl.take(i as int).push((s as int, e as int)));
        proof {
            sl.take(i as int).lemma_filter_push((s as int, e as int), |m: (int, int)| !captured(p, m));
        }
        let ghost before = out@;
        if !is_captured(&paired, (s, e)) {
            out.push(TagMatch { mode: MatchMode::SelfClosingSlash, start: s, end: e });
            texts.push(copy_range(d, s, e));
            assert(match_views(out@) =~= match_views(before).push(
                (MatchMode::SelfClosingSlash, s as int, e as int),
            ));
        }
        i = i + 1;
    }
    assert(sl.take(i as int) =~= sl);
    let ghost first = match_views(out@);
    let closes = has_close_name_in(d, t);
    i = 0;
    while i < bare.len()
        invariant
            i <= bare@.len(),
            b == spans(bare@),
            b == scan(d@, t@, MatchMode::BareOpening, 0),
            forall|k: int| 0 <= k < b.len() ==> 0 <= #[trigger] b[k].0 <= b[k].1 <= d@.len(),
            closes == has_close_name(d@, t@),
            match_views(out@) == bare_pass(d@, t@, b, first, i as int),
            texts@.len() == out@.len(),
            forall|j: int| 0 <= j < out@.len() ==> (#[trigger] out@[j]).start <= out@[j].end <= d@.len(),
            forall|j: int|
                0 <= j < out@.len() ==> #[trigger] texts@[j]@ == d@.subrange(
                    out@[j].start as int,
                    out@[j].end as int,
                ),
        decreases bare@.len() - i,
    {
        let (s, e) = bare[i];
        assert(b[i as int] == (s as int, e as int));
        let cand = copy_range(d, s, e);
        let ghost before = out@;
        let hit = is_covered(&texts, &cand);
        assert(hit == covered(d@, match_views(before), d@.subrange(s as int, e as int))) by {
            if hit {
                let j = choose|j: int| 0 <= j < texts@.len() && is_substring(cand@, texts@[j]@);
                assert(match_views(before)[j] == before[j]@);
            }
            if covered(d@, match_views(before), d@.subrange(s as int, e as int)) {
                let j = choose|j: int|
                    0 <= j < match_views(before).len() && is_substring(
                        d@.subrange(s as int, e as int),
                        d@.subrange(match_views(before)[j].1, match_views(before)[j].2),
                    );
                assert(match_views(before)[j] == before[j]@);
                assert(texts@[j]@ == d@.subrange(before[j].start as int, before[j].end as int));
            }
        }
        if closes && !hit {
            out.push(TagMatch { mode: MatchMode::BareOpening, start: s, end: e });
            texts.push(cand);
            assert(match_views(out@) =~= match_views(before).push(
                (MatchMode::BareOpening, s as int, e as int),
            ));
        }
        i = i + 1;
    }
    out
}

/// All occurrences of the tag name `tag` in the document `html`, with the
/// mode that recognised each and its character range.
pub fn match_tags(html: &str, tag: &str) -> (r: Vec<TagMatch>)
    ensures
        match_views(r@) == tag_matches(html@, tag@),
{
    let d = chars_of(html);
    let t = chars_of(tag);
    match_tags_in(&d, &t)
}

} // verus!
