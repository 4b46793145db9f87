//! The attribute decoder: from the text of a tag to its attribute map.
//!
//! The attributes of a tag stand between the first white-space character of
//! its span and the first `>`. They are read from left to right with a
//! buffer for the name that is being read. Nothing is rejected: what cannot
//! be read as an attribute leaves attributes out, and never fails.

use vstd::prelude::*;
use crate::attrs::{AttrMap, AttrView, Attrs, NodeAttrVal};
use crate::text::{
    find_char,
    find_char_in,
    find_space,
    find_space_in,
    lemma_find_char,
    string_of,
    white_space,
};

verus! {

/// The range of the attribute text of the span `start..end`: from behind
/// the first white-space character up to the first `>`. There is none where
/// the span holds no `>` or no white space, or where nothing stands between
/// the two.
pub open spec fn attrs_range(text: Seq<char>, start: int, end: int) -> Option<(int, int)> {
    let close = find_char(text, '>', start, end);
    let space = find_space(text, start, end);
    if close >= end || space >= end || space + 1 >= close {
        None
    } else {
        Some((space + 1, close))
    }
}

/// The offset behind the value whose opening quote stands at `quote`: the
/// value runs up to the next quote, or to `hi` where there is none, and the
/// closing quote and one space behind it are passed over.
pub open spec fn behind_value(text: Seq<char>, quote: int, hi: int) -> int {
    let close = find_char(text, '"', quote + 1, hi);
    let after = if close < hi {
        close + 1
    } else {
        hi
    };
    if after < hi && text[after] == ' ' {
        after + 1
    } else {
        after
    }
}

/// The attributes that the text `i..hi` adds to `acc` when `name` has been
/// read so far.
///
/// - White space ends a name, which becomes an attribute that is merely
///   present; before a name it is passed over.
/// - `=` with a quote behind it gives the name that was read the text up to
///   the next quote as its value.
/// - `=` without a quote behind it is dropped together with the character
///   behind it; the name read so far stays.
/// - Any other character is added to the name.
/// - A name that is left at the end becomes an attribute that is present.
pub open spec fn decode(text: Seq<char>, i: int, hi: int, name: Seq<char>, acc: Attrs) -> Attrs
    decreases hi - i,
{
    if i >= hi {
        if name.len() > 0 {
            acc.insert(name, AttrView::True)
        } else {
            acc
        }
    } else if white_space(text[i]) {
        if name.len() == 0 {
            decode(text, i + 1, hi, name, acc)
        } else {
            decode(text, i + 1, hi, Seq::empty(), acc.insert(name, AttrView::True))
        }
    } else if text[i] == '=' {
        if i + 1 < hi && text[i + 1] == '"' {
            let value = text.subrange(i + 2, find_char(text, '"', i + 2, hi));
            let next = behind_value(text, i + 1, hi);
            if next > i {
                decode(text, next, hi, Seq::empty(), acc.insert(name, AttrView::String(value)))
            } else {
                // never the case: the value starts behind the quote
                acc
            }
        } else if i + 1 < hi {
            decode(text, i + 2, hi, name, acc)
        } else {
            decode(text, i + 1, hi, name, acc)
        }
    } else {
        decode(text, i + 1, hi, name.push(text[i]), acc)
    }
}

/// The attribute map of the span `start..end` of `text`.
pub open spec fn decode_attrs(text: Seq<char>, start: int, end: int) -> Attrs {
    match attrs_range(text, start, end) {
        Some((lo, hi)) => decode(text, lo, hi, Seq::empty(), Attrs::empty()),
        None => Attrs::empty(),
    }
}

/// The range of the attribute text of the span `start..end`, if it has one.
pub fn attrs_str_from_coords(html: &Vec<char>, start: usize, end: usize) -> (out: Option<
    (usize, usize),
>)
    requires
        start <= end <= html.len(),
    ensures
        match out {
            Some((lo, hi)) => attrs_range(html@, start as int, end as int) == Some(
                (lo as int, hi as int),
            ) && start < lo < hi < end,
            None => attrs_range(html@, start as int, end as int) is None,
        },
{
    let close = find_char_in(html, '>', start, end);
    let space = find_space_in(html, start, end);
    if close >= end || space >= end || space + 1 >= close {
        None
    } else {
        Some((space + 1, close))
    }
}

/// The attribute map of the span `start..end` of `html`.
pub fn attrs_from_coords(html: &Vec<char>, start: usize, end: usize) -> (attrs: AttrMap)
    requires
        start <= end <= html.len(),
    ensures
        attrs@ == decode_attrs(html@, start as int, end as int),
{
    let mut attrs = AttrMap::new();
    let (lo, hi) = match attrs_str_from_coords(html, start, end) {
        Some(range) => range,
        None => {
            return attrs;
        },
    };
    let mut current_name = String::new();
    let mut i: usize = lo;
    while i < hi
        invariant
            lo <= i <= hi <= html.len(),
            decode(html@, lo as int, hi as int, Seq::empty(), Attrs::empty()) == decode(
                html@,
                i as int,
                hi as int,
                current_name@,
                attrs@,
            ),
        decreases hi - i,
    {
        let c = html[i];
        if c.is_whitespace() {
            if !current_name.as_str().is_empty() {
                attrs.insert(current_name, NodeAttrVal::True);
                current_name = String::new();
            }
            i += 1;
        } else if c == '=' {
            if i + 1 < hi && html[i + 1] == '"' {
                proof {
                    lemma_find_char(html@, '"', i + 2, hi as int);
                }
                let close = find_char_in(html, '"', i + 2, hi);
                let value = string_of(html, i + 2, close);
                attrs.insert(current_name, NodeAttrVal::String(value));
                current_name = String::new();
                let after = if close < hi {
                    close + 1
                } else {
                    hi
                };
                if after < hi && html[after] == ' ' {
                    i = after + 1;
                } else {
                    i = after;
                }
            } else if i + 1 < hi {
                i += 2;
            } else {
                i += 1;
            }
        } else {
            current_name.push(c);
            i += 1;
        }
    }
    if !current_name.as_str().is_empty() {
        attrs.insert(current_name, NodeAttrVal::True);
    }
    attrs
}

} // verus!
