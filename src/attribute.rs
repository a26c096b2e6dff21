//! Attributes: the attribute filter and the attribute value reader.
//!
//! An attribute occurrence is written `name="value"` or `name='value'`; the
//! value ends at the next quote of the kind that opened it. Unquoted values are
//! not attribute occurrences. The whole text of an occurrence is searched.
use vstd::prelude::*;
use crate::text::{
    find_from, occurs_at, lemma_find_from_bounds, find_char, occurs_at_index, chars_of,
    text_between, texts, opt_text,
};

verus! {

/// A quote that may open an attribute value.
pub open spec fn is_quote(c: char) -> bool {
    c == '"' || c == '\''
}

/// The value of the attribute occurrence named `a` that starts at index `i` of `x`, if any.
pub open spec fn attr_value_at(x: Seq<char>, a: Seq<char>, i: int) -> Option<Seq<char>> {
    let q = i + a.len() + 1;
    if occurs_at(x, a, i) && q < x.len() && x[q - 1] == '=' && is_quote(x[q]) {
        let c = find_from(x, x[q], q + 1);
        if c < x.len() {
            Some(x.subrange(q + 1, c))
        } else {
            None
        }
    } else {
        None
    }
}

/// `x` holds an occurrence of the attribute `a`, with any quoted value.
pub open spec fn has_attribute(x: Seq<char>, a: Seq<char>) -> bool {
    exists|i: int| #[trigger] attr_value_at(x, a, i) is Some
}

/// `x` holds an occurrence of the attribute `a` whose value is exactly `v`.
pub open spec fn has_attribute_value(x: Seq<char>, a: Seq<char>, v: Seq<char>) -> bool {
    exists|i: int| #[trigger] attr_value_at(x, a, i) == Some(v)
}

/// The filter's predicate: the attribute is present, with the value `v` where one is given.
pub open spec fn attr_matches(x: Seq<char>, a: Seq<char>, v: Option<Seq<char>>) -> bool {
    match v {
        None => has_attribute(x, a),
        Some(w) => has_attribute_value(x, a, w),
    }
}

/// The value of the first occurrence of the attribute `a` that starts at or after `i`.
pub open spec fn first_attr_value(x: Seq<char>, a: Seq<char>, i: int) -> Option<Seq<char>>
    decreases x.len() - i,
{
    if i < 0 || i >= x.len() {
        None
    } else {
        match attr_value_at(x, a, i) {
            Some(v) => Some(v),
            None => first_attr_value(x, a, i + 1),
        }
    }
}

/// The texts that carry the attribute `a` (with the value `v`, where given), in order.
pub open spec fn with_attribute(xs: Seq<Seq<char>>, a: Seq<char>, v: Option<Seq<char>>) -> Seq<
    Seq<char>,
> {
    xs.filter(|x: Seq<char>| attr_matches(x, a, v))
}

/// The value of the attribute `a` in each text that has one, in order.
pub open spec fn attribute_values_of(xs: Seq<Seq<char>>, a: Seq<char>) -> Seq<Seq<char>> {
    xs.filter_map(|x: Seq<char>| first_attr_value(x, a, 0))
}

/// The range of the value of the attribute occurrence named `a` at index `i` of `x`.
fn attr_value_range(x: &Vec<char>, a: &Vec<char>, i: usize) -> (r: Option<(usize, usize)>)
    ensures
        match r {
            Some(p) => p.0 <= p.1 <= x@.len() && attr_value_at(x@, a@, i as int) == Some(
                x@.subrange(p.0 as int, p.1 as int),
            ),
            None => attr_value_at(x@, a@, i as int) is None,
        },
{
    let len = x.len();
    if !occurs_at_index(x, a, i) {
        return None;
    }
    let eq = i + a.len();
    if eq >= len || x[eq] != '=' {
        return None;
    }
    let q = eq + 1;
    if q >= len {
        return None;
    }
    let quote = x[q];
    if !(quote == '"' || quote == '\'') {
        return None;
    }
    let c = find_char(x, quote, q + 1);
    proof {
        lemma_find_from_bounds(x@, quote, q + 1);
    }
    if c < len {
        Some((q + 1, c))
    } else {
        None
    }
}

/// Whether `x` carries the attribute `a`, with the value `v` where one is given.
fn matches_attribute(x: &Vec<char>, a: &Vec<char>, v: &Option<Vec<char>>) -> (r: bool)
    ensures
        r == attr_matches(
            x@,
            a@,
            match v {
                Some(w) => Some(w@),
                None => None,
            },
        ),
{
    let len = x.len();
    let mut i: usize = 0;
    while i < len
        invariant
            len == x@.len(),
            i <= len,
            forall|k: int|
                0 <= k < i ==> match v {
                    Some(w) => #[trigger] attr_value_at(x@, a@, k) != Some(w@),
                    None => attr_value_at(x@, a@, k) is None,
                },
        decreases len - i,
    {
        match attr_value_range(x, a, i) {
            Some((s, e)) => {
                match v {
                    Some(w) => {
                        if e - s == w.len() && occurs_at_index(x, w, s) {
                            assert(attr_value_at(x@, a@, i as int) == Some(w@));
                            return true;
                        }
                        assert(x@.subrange(s as int, e as int) != w@);
                    },
                    None => {
                        assert(attr_value_at(x@, a@, i as int) is Some);
                        return true;
                    },
                }
            },
            None => {},
        }
        i = i + 1;
    }
    proof {
        assert forall|k: int| k >= len implies #[trigger] attr_value_at(x@, a@, k) is None by {}
    }
    false
}

/// The range of the value of the first occurrence of the attribute `a` in `x`.
fn first_attr_range(x: &Vec<char>, a: &Vec<char>) -> (r: Option<(usize, usize)>)
    ensures
        match r {
            Some(p) => p.0 <= p.1 <= x@.len() && first_attr_value(x@, a@, 0) == Some(
                x@.subrange(p.0 as int, p.1 as int),
            ),
            None => first_attr_value(x@, a@, 0) is None,
        },
{
    let len = x.len();
    let mut i: usize = 0;
    while i < len
        invariant
            len == x@.len(),
            i <= len,
            first_attr_value(x@, a@, 0) == first_attr_value(x@, a@, i as int),
        decreases len - i,
    {
        match attr_value_range(x, a, i) {
            Some(p) => {
                return Some(p);
            },
            None => {},
        }
        i = i + 1;
    }
    None
}

/// The tags among `tags` that carry the attribute `attr_name`, with the value
/// `attr_value` where one is given, in their order.
pub fn filter_by_attribute(tags: &Vec<String>, attr_name: &str, attr_value: Option<&str>) -> (r:
    Vec<String>)
    ensures
        texts(r@) == with_attribute(texts(tags@), attr_name@, opt_text(attr_value)),
{
    let a = chars_of(attr_name);
    let v: Option<Vec<char>> = match attr_value {
        Some(s) => Some(chars_of(s)),
        None => None,
    };
    let ghost xs = texts(tags@);
    let ghost pred = |x: Seq<char>| attr_matches(x, a@, opt_text(attr_value));
    let mut out: Vec<String> = Vec::new();
    let mut i: usize = 0;
    while i < tags.len()
        invariant
            i <= tags@.len(),
            xs == texts(tags@),
            a@ == attr_name@,
            match v {
                Some(w) => opt_text(attr_value) == Some(w@),
                None => opt_text(attr_value) is None,
            },
            pred == (|x: Seq<char>| attr_matches(x, a@, opt_text(attr_value))),
            texts(out@) == xs.take(i as int).filter(pred),
        decreases tags@.len() - i,
    {
        let x = chars_of(tags[i].as_str());
        proof {
            assert(xs.take(i + 1) =~= xs.take(i as int).push(xs[i as int]));
            xs.take(i as int).lemma_filter_push(xs[i as int], pred);
        }
        if matches_attribute(&x, &a, &v) {
            let ghost before = out@;
            out.push(tags[i].clone());
            assert(texts(out@) =~= texts(before).push(xs[i as int]));
        }
        i = i + 1;
    }
    assert(xs.take(i as int) =~= xs);
    out
}

/// The value of the attribute `attr_name` in each of `tags` that carries it,
/// in their order; tags without it give nothing.
pub fn attribute_values(tags: &Vec<String>, attr_name: &str) -> (r: Vec<String>)
    ensures
        texts(r@) == attribute_values_of(texts(tags@), attr_name@),
{
    let a = chars_of(attr_name);
    let ghost xs = texts(tags@);
    let ghost f = |x: Seq<char>| first_attr_value(x, a@, 0);
    let mut out: Vec<String> = Vec::new();
    let mut i: usize = 0;
    while i < tags.len()
        invariant
            i <= tags@.len(),
            xs == texts(tags@),
            a@ == attr_name@,
            f == (|x: Seq<char>| first_attr_value(x, a@, 0)),
            texts(out@) == xs.take(i as int).filter_map(f),
        decreases tags@.len() - i,
    {
        let tag = tags[i].as_str();
        let x = chars_of(tag);
        proof {
            xs.lemma_filter_map_take_succ(f, i as int);
        }
        match first_attr_range(&x, &a) {
            Some((s, e)) => {
                let ghost before = out@;
                out.push(text_between(tag, s, e));
                assert(texts(out@) =~= texts(before) + seq![x@.subrange(s as int, e as int)]);
            },
            None => {},
        }
        i = i + 1;
    }
    assert(xs.take(i as int) =~= xs);
    out
}

} // verus!
