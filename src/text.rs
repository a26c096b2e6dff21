//! Character-level helpers shared by the tag matcher and the attribute reader.
use vstd::prelude::*;
use vstd::std_specs::iter::IteratorSpec;

verus! {

/// The first index at or after `i` that holds `c`, or `s.len()` when there is none.
pub open spec fn find_from(s: Seq<char>, c: char, i: int) -> int
    decreases s.len() - i,
{
    if i >= s.len() {
        s.len() as int
    } else if s[i] == c {
        i
    } else {
        find_from(s, c, i + 1)
    }
}

/// `pat` occurs in `s` starting at index `i`.
pub open spec fn occurs_at(s: Seq<char>, pat: Seq<char>, i: int) -> bool {
    0 <= i && i + pat.len() <= s.len() && s.subrange(i, i + pat.len()) == pat
}

/// The texts of a sequence of strings.
pub open spec fn texts(v: Seq<String>) -> Seq<Seq<char>> {
    v.map_values(|s: String| s@)
}

/// The text of an optional string.
pub open spec fn opt_text(v: Option<&str>) -> Option<Seq<char>> {
    match v {
        Some(s) => Some(s@),
        None => None,
    }
}

/// `x` is a verbatim substring of `y`.
pub open spec fn is_substring(x: Seq<char>, y: Seq<char>) -> bool {
    exists|i: int| occurs_at(y, x, i)
}

pub proof fn lemma_find_from_bounds(s: Seq<char>, c: char, i: int)
    requires
        0 <= i,
    ensures
        i <= find_from(s, c, i) <= s.len() || (i > s.len() && find_from(s, c, i) == s.len()),
        find_from(s, c, i) < s.len() ==> s[find_from(s, c, i)] == c,
        forall|k: int| i <= k < find_from(s, c, i) ==> s[k] != c,
    decreases s.len() - i,
{
    if i < s.len() && s[i] != c {
        lemma_find_from_bounds(s, c, i + 1);
    }
}

/// The characters of `s`, in order.
pub fn chars_of(s: &str) -> (r: Vec<char>)
    ensures
        r@ == s@,
{
    let mut out: Vec<char> = Vec::new();
    let mut it = s.chars();
    loop
        invariant
            it.remaining() == s@.subrange(out@.len() as int, s@.len() as int),
            out@ == s@.subrange(0, out@.len() as int),
            out@.len() <= s@.len(),
            it.obeys_prophetic_iter_laws(),
            it.decrease() is Some,
        ensures
            out@ == s@,
        decreases it.decrease()->0,
    {
        match it.next() {
            Some(c) => {
                out.push(c);
            },
            None => {
                break;
            },
        }
    }
    out
}

/// The index of the first `c` at or after `i`, or `s.len()` when there is none.
pub fn find_char(s: &Vec<char>, c: char, i: usize) -> (r: usize)
    ensures
        r as int == find_from(s@, c, i as int),
{
    if i >= s.len() {
        return s.len();
    }
    let mut k: usize = i;
    while k < s.len()
        invariant
            i <= k <= s@.len(),
            find_from(s@, c, i as int) == find_from(s@, c, k as int),
        decreases s@.len() - k,
    {
        if s[k] == c {
            return k;
        }
        k = k + 1;
    }
    k
}

/// Whether `pat` occurs in `s` starting at index `i`.
pub fn occurs_at_index(s: &Vec<char>, pat: &Vec<char>, i: usize) -> (r: bool)
    ensures
        r == occurs_at(s@, pat@, i as int),
{
    if i > s.len() || pat.len() > s.len() - i {
        return false;
    }
    let mut j: usize = 0;
    while j < pat.len()
        invariant
            j <= pat@.len(),
            i + pat@.len() <= s@.len(),
            s@.len() <= usize::MAX,
            forall|m: int| 0 <= m < j ==> s@[i + m] == pat@[m],
        decreases pat@.len() - j,
    {
        if s[i + j] != pat[j] {
            assert(s@.subrange(i as int, i + pat@.len())[j as int] != pat@[j as int]);
            return false;
        }
        j = j + 1;
    }
    assert(s@.subrange(i as int, i + pat@.len()) =~= pat@);
    true
}

/// Whether `x` is a verbatim substring of `y`.
pub fn contains_chars(y: &Vec<char>, x: &Vec<char>) -> (r: bool)
    ensures
        r == is_substring(x@, y@),
{
    if x.len() > y.len() {
        return false;
    }
    let last: usize = y.len() - x.len();
    let mut i: usize = 0;
    loop
        invariant
            last == y@.len() - x@.len(),
            i <= last,
            forall|k: int| 0 <= k < i ==> !occurs_at(y@, x@, k),
        decreases last - i,
    {
        if occurs_at_index(y, x, i) {
            return true;
        }
        if i == last {
            return false;
        }
        i = i + 1;
    }
}

/// A copy of the characters of `s` from index `from` up to, not including, `to`.
pub fn copy_range(s: &Vec<char>, from: usize, to: usize) -> (r: Vec<char>)
    requires
        from <= to <= s@.len(),
    ensures
        r@ == s@.subrange(from as int, to as int),
{
    let mut out: Vec<char> = Vec::new();
    let mut k: usize = from;
    while k < to
        invariant
            from <= k <= to <= s@.len(),
            out@ == s@.subrange(from as int, k as int),
        decreases to - k,
    {
        out.push(s[k]);
        assert(s@.subrange(from as int, k + 1) =~= s@.subrange(from as int, k as int).push(
            s@[k as int],
        ));
        k = k + 1;
    }
    out
}

/// The text of `s` from character index `from` up to, not including, `to`.
pub fn text_between(s: &str, from: usize, to: usize) -> (r: String)
    requires
        from <= to <= s@.len(),
    ensures
        r@ == s@.subrange(from as int, to as int),
{
    s.substring_char(from, to).to_owned()
}

} // verus!
