//! The way back: markup that was written from a tree parses to that tree.
//!
//! This holds of the trees that markup can say: text without angle
//! brackets, names and attribute names without white space, values without
//! quotes, no two texts side by side, void names on void elements only, and
//! no fragments.

use vstd::prelude::*;
use crate::attrs::{lemma_listing_exists, lists_names, ordered_names, AttrView, Attrs};
use crate::decoder::{attrs_range, behind_value, decode, decode_attrs};
use crate::forest::{contained, inside, join, join_from, key_of, lemma_contained, IrNodeView};
use crate::markup::{render_attr, render_attrs, render_names, render_node, render_nodes};
use crate::node::NodeView;
use crate::span::{is_void_name, resolved, text_name, ParseError, SpanView};
use crate::text::{find_char, find_space, lemma_find_space, white_space};
use crate::tree::{build, build_node, first_unresolved, lemma_build_block, lemma_first_unresolved, parse};
use crate::tokenizer::{
    awaits,
    close_last,
    last_open,
    lemma_scan_inv,
    mark,
    scan,
    step,
    tag_name,
    take_tag,
    take_text,
    Scan,
};

verus! {

/// `s` holds neither `<` nor `>`.
pub open spec fn no_angle(s: Seq<char>) -> bool {
    forall|i: int| 0 <= i < s.len() ==> #[trigger] s[i] != '<' && s[i] != '>'
}

/// `s` holds no white space and no angle bracket.
pub open spec fn word(s: Seq<char>) -> bool {
    forall|i: int|
        0 <= i < s.len() ==> !white_space(#[trigger] s[i]) && s[i] != '<' && s[i] != '>'
}

/// `k` can be written as the name of an attribute and read again: a word
/// of at least one character, without `=`.
pub open spec fn says_key(k: Seq<char>) -> bool {
    &&& k.len() > 0
    &&& word(k)
    &&& forall|i: int| 0 <= i < k.len() ==> #[trigger] k[i] != '='
}

/// `v` can be written as the value of an attribute and read again: a text
/// holds no quote and no angle bracket.
pub open spec fn says_value(v: AttrView) -> bool {
    match v {
        AttrView::True => true,
        AttrView::String(text) => no_angle(text) && forall|i: int|
            0 <= i < text.len() ==> #[trigger] text[i] != '"',
    }
}

/// `m` can be written as the attributes of a tag and read again: it is
/// finite, and each name and value can be written and read again.
pub open spec fn says_attrs(m: Attrs) -> bool {
    &&& m.dom().finite()
    &&& forall|k: Seq<char>| m.contains_key(k) ==> says_key(k) && says_value(#[trigger] m[k])
}

/// The map `acc` after the attributes `names` of `m` were set in it, one
/// after the other.
pub open spec fn set_all(acc: Attrs, names: Seq<Seq<char>>, m: Attrs) -> Attrs
    decreases names.len(),
{
    if names.len() == 0 {
        acc
    } else {
        set_all(acc.insert(names[0], m[names[0]]), names.drop_first(), m)
    }
}

/// The attributes as they are written, the first and then the others.
pub proof fn lemma_render_names_first(names: Seq<Seq<char>>, m: Attrs)
    requires
        names.len() > 0,
    ensures
        render_names(names, m) == render_attr(names[0], m[names[0]]) + render_names(
            names.drop_first(),
            m,
        ),
    decreases names.len(),
{
    if names.len() == 1 {
        assert(names.drop_last() =~= Seq::<Seq<char>>::empty());
        assert(names.drop_first() =~= Seq::<Seq<char>>::empty());
        assert(render_names(names, m) =~= render_attr(names[0], m[names[0]]) + render_names(
            names.drop_first(),
            m,
        ));
    } else {
        lemma_render_names_first(names.drop_last(), m);
        assert(names.drop_last().drop_first() =~= names.drop_first().drop_last());
        assert(names.drop_last()[0] == names[0]);
        assert(names.drop_first().last() == names.last());
        let head = render_attr(names[0], m[names[0]]);
        let mid = render_names(names.drop_first().drop_last(), m);
        let tail = render_attr(names.last(), m[names.last()]);
        assert((head + mid) + tail =~= head + (mid + tail));
    }
}

/// What the map holds after attributes were set in it: what it held, and
/// each attribute that was set with the value that `m` gives it.
pub proof fn lemma_set_all(acc: Attrs, names: Seq<Seq<char>>, m: Attrs)
    ensures
        forall|k: Seq<char>| #[trigger]
            set_all(acc, names, m).contains_key(k) <==> acc.contains_key(k) || names.contains(k),
        forall|k: Seq<char>| names.contains(k) ==> #[trigger] set_all(acc, names, m)[k] == m[k],
        forall|k: Seq<char>|
            !names.contains(k) ==> #[trigger] set_all(acc, names, m)[k] == acc[k],
    decreases names.len(),
{
    if names.len() > 0 {
        let rest = names.drop_first();
        let next = acc.insert(names[0], m[names[0]]);
        let all = set_all(acc, names, m);
        assert(all == set_all(next, rest, m));
        lemma_set_all(next, rest, m);
        assert forall|k: Seq<char>| names.contains(k) <==> (k == names[0] || rest.contains(k)) by {
            if names.contains(k) {
                let i = choose|i: int| 0 <= i < names.len() && names[i] == k;
                if i > 0 {
                    assert(rest[i - 1] == k);
                }
            }
            if rest.contains(k) {
                let i = choose|i: int| 0 <= i < rest.len() && rest[i] == k;
                assert(names[i + 1] == k);
            }
            if k == names[0] {
                assert(names[0] == k);
            }
        }
        assert forall|k: Seq<char>| #[trigger]
            all.contains_key(k) <==> acc.contains_key(k) || names.contains(k) by {
            assert(names.contains(k) <==> (k == names[0] || rest.contains(k)));
        }
        assert forall|k: Seq<char>| names.contains(k) implies #[trigger] all[k] == m[k] by {
            assert(names.contains(k) <==> (k == names[0] || rest.contains(k)));
        }
        assert forall|k: Seq<char>| !names.contains(k) implies #[trigger] all[k] == acc[k] by {
            assert(names.contains(k) <==> (k == names[0] || rest.contains(k)));
        }
    }
}

/// Reading a word adds it to the name that is being read.
pub proof fn lemma_decode_word(
    text: Seq<char>,
    i: int,
    hi: int,
    name: Seq<char>,
    acc: Attrs,
    w: Seq<char>,
)
    requires
        0 <= i,
        i + w.len() <= hi <= text.len(),
        text.subrange(i, i + w.len()) == w,
        word(w),
        forall|j: int| 0 <= j < w.len() ==> #[trigger] w[j] != '=',
    ensures
        decode(text, i, hi, name, acc) == decode(text, i + w.len(), hi, name + w, acc),
    decreases w.len(),
{
    if w.len() == 0 {
        assert(name + w =~= name);
    } else {
        assert(text[i] == w[0]) by {
            assert(text.subrange(i, i + w.len())[0] == w[0]);
        }
        let rest = w.drop_first();
        assert(text.subrange(i + 1, i + 1 + rest.len()) =~= rest) by {
            assert forall|j: int| 0 <= j < rest.len() implies text.subrange(
                i + 1,
                i + 1 + rest.len(),
            )[j] == rest[j] by {
                assert(text.subrange(i, i + w.len())[j + 1] == w[j + 1]);
            }
        }
        assert forall|j: int| 0 <= j < rest.len() implies !white_space(#[trigger] rest[j])
            && rest[j] != '<' && rest[j] != '>' && rest[j] != '=' by {
            assert(rest[j] == w[j + 1]);
        }
        lemma_decode_word(text, i + 1, hi, name.push(w[0]), acc, rest);
        assert(name.push(w[0]) + rest =~= name + w);
    }
}

/// Where `part` stands in `text` at `at`, its characters do.
pub proof fn lemma_stands(text: Seq<char>, at: int, part: Seq<char>)
    requires
        0 <= at,
        at + part.len() <= text.len(),
        text.subrange(at, at + part.len()) == part,
    ensures
        forall|j: int| 0 <= j < part.len() ==> text[at + j] == #[trigger] part[j],
{
    assert forall|j: int| 0 <= j < part.len() implies text[at + j] == #[trigger] part[j] by {
        assert(text.subrange(at, at + part.len())[j] == part[j]);
    }
}

/// Where `whole` stands in `text` at `at`, the part of it from `lo` to
/// `hi` stands at `at + lo`.
pub proof fn lemma_part_stands(text: Seq<char>, at: int, whole: Seq<char>, lo: int, hi: int)
    requires
        0 <= at,
        at + whole.len() <= text.len(),
        text.subrange(at, at + whole.len()) == whole,
        0 <= lo <= hi <= whole.len(),
    ensures
        text.subrange(at + lo, at + hi) == whole.subrange(lo, hi),
{
    lemma_stands(text, at, whole);
    assert(text.subrange(at + lo, at + hi) =~= whole.subrange(lo, hi));
}

/// The first `c` from `lo` on stands at `at` if none stands before it.
pub proof fn lemma_find_char_at(s: Seq<char>, c: char, lo: int, hi: int, at: int)
    requires
        lo <= at <= hi,
        forall|j: int| lo <= j < at ==> s[j] != c,
        at < hi ==> s[at] == c,
    ensures
        find_char(s, c, lo, hi) == at,
    decreases at - lo,
{
    if lo < at {
        lemma_find_char_at(s, c, lo + 1, hi, at);
    }
}

/// The first white space from `lo` on stands at `at` if none stands before
/// it.
pub proof fn lemma_find_space_at(s: Seq<char>, lo: int, hi: int, at: int)
    requires
        lo <= at <= hi,
        forall|j: int| lo <= j < at ==> !white_space(s[j]),
        at < hi ==> white_space(s[at]),
    ensures
        find_space(s, lo, hi) == at,
    decreases at - lo,
{
    if lo < at {
        lemma_find_space_at(s, lo + 1, hi, at);
    }
}

/// Attributes that were written are read again: where the attributes
/// `names` of `m` stand in `text` from `at` up to `hi`, decoding from
/// behind their first space sets each of them.
pub proof fn lemma_decode_written(
    text: Seq<char>,
    at: int,
    hi: int,
    names: Seq<Seq<char>>,
    m: Attrs,
    acc: Attrs,
)
    requires
        0 <= at,
        hi <= text.len(),
        names.len() > 0,
        hi == at + render_names(names, m).len(),
        text.subrange(at, hi) == render_names(names, m),
        forall|i: int|
            0 <= i < names.len() ==> says_key(#[trigger] names[i]) && says_value(m[names[i]]),
    ensures
        decode(text, at + 1, hi, Seq::empty(), acc) == set_all(acc, names, m),
    decreases names.len(),
{
    let k = names[0];
    let v = m[k];
    let rest = names.drop_first();
    let first = render_attr(k, v);
    let others = render_names(rest, m);
    lemma_render_names_first(names, m);
    let whole = render_names(names, m);
    assert(whole == first + others);
    lemma_stands(text, at, whole);
    assert(says_key(names[0]) && says_value(m[names[0]]));
    assert forall|i: int| 0 <= i < rest.len() implies says_key(#[trigger] rest[i]) && says_value(
        m[rest[i]],
    ) by {
        assert(rest[i] == names[i + 1]);
    }
    // the name
    let q = at + 1 + k.len();
    assert(text.subrange(at + 1, q) =~= k) by {
        assert forall|j: int| 0 <= j < k.len() implies text[at + 1 + j] == k[j] by {
            assert(whole[1 + j] == k[j]);
        }
    }
    lemma_decode_word(text, at + 1, hi, Seq::empty(), acc, k);
    assert(Seq::<char>::empty() + k =~= k);
    let next = at + first.len();
    if rest.len() > 0 {
        lemma_render_names_first(rest, m);
        assert(others[0] == ' ');
        assert(text[next] == ' ') by {
            assert(whole[first.len() as int] == others[0]);
        }
        lemma_part_stands(text, at, whole, first.len() as int, whole.len() as int);
        assert(whole.subrange(first.len() as int, whole.len() as int) =~= others);
    } else {
        assert(others =~= Seq::<char>::empty());
    }
    match v {
        AttrView::True => {
            assert(first =~= seq![' '] + k);
            assert(q == next);
            assert(set_all(acc, names, m) == set_all(acc.insert(k, v), rest, m));
            if rest.len() > 0 {
                lemma_decode_written(text, next, hi, rest, m, acc.insert(k, v));
                assert(white_space(text[q]));
                assert(decode(text, q, hi, k, acc) == decode(
                    text,
                    q + 1,
                    hi,
                    Seq::empty(),
                    acc.insert(k, v),
                ));
            } else {
                assert(q == hi);
                assert(set_all(acc.insert(k, v), rest, m) == acc.insert(k, v));
                assert(decode(text, q, hi, k, acc) == acc.insert(k, v));
            }
        },
        AttrView::String(value) => {
            assert(first =~= seq![' '] + k + seq!['=', '"'] + value + seq!['"']);
            assert(text[q] == '=') by {
                assert(whole[q - at] == '=');
            }
            assert(text[q + 1] == '"') by {
                assert(whole[q + 1 - at] == '"');
            }
            let close = q + 2 + value.len();
            assert(text[close] == '"') by {
                assert(whole[close - at] == '"');
            }
            assert forall|j: int| q + 2 <= j < close implies text[j] != '"' by {
                assert(whole[j - at] == value[j - q - 2]);
            }
            lemma_find_char_at(text, '"', q + 2, hi, close);
            assert(text.subrange(q + 2, close) =~= value) by {
                assert forall|j: int| 0 <= j < value.len() implies text[q + 2 + j] == value[j] by {
                    assert(whole[3 + k.len() + j] == value[j]);
                }
            }
            assert(next == close + 1);
            assert(set_all(acc, names, m) == set_all(acc.insert(k, v), rest, m));
            assert(!white_space(text[q]));
            if rest.len() > 0 {
                assert(behind_value(text, q + 1, hi) == next + 1);
                lemma_decode_written(text, next, hi, rest, m, acc.insert(k, v));
                assert(decode(text, q, hi, k, acc) == decode(
                    text,
                    next + 1,
                    hi,
                    Seq::empty(),
                    acc.insert(k, v),
                ));
            } else {
                assert(behind_value(text, q + 1, hi) == hi);
                assert(set_all(acc.insert(k, v), rest, m) == acc.insert(k, v));
                assert(decode(text, hi, hi, Seq::empty(), acc.insert(k, v)) == acc.insert(k, v));
                assert(decode(text, q, hi, k, acc) == acc.insert(k, v));
            }
        },
    }
}

/// What is written of attributes holds no angle bracket, and starts with a
/// space if anything is written.
pub proof fn lemma_written_names(names: Seq<Seq<char>>, m: Attrs)
    requires
        forall|i: int|
            0 <= i < names.len() ==> says_key(#[trigger] names[i]) && says_value(m[names[i]]),
    ensures
        no_angle(render_names(names, m)),
        names.len() > 0 ==> render_names(names, m).len() > 1 && render_names(names, m)[0] == ' ',
        names.len() == 0 ==> render_names(names, m).len() == 0,
    decreases names.len(),
{
    if names.len() > 0 {
        let rest = names.drop_first();
        lemma_render_names_first(names, m);
        assert forall|i: int| 0 <= i < rest.len() implies says_key(#[trigger] rest[i])
            && says_value(m[rest[i]]) by {
            assert(rest[i] == names[i + 1]);
        }
        lemma_written_names(rest, m);
        let k = names[0];
        let v = m[k];
        assert(says_key(names[0]) && says_value(m[names[0]]));
        let first = render_attr(k, v);
        assert(no_angle(first)) by {
            match v {
                AttrView::True => {
                    assert(first =~= seq![' '] + k);
                    assert forall|i: int| 0 <= i < first.len() implies #[trigger] first[i] != '<'
                        && first[i] != '>' by {
                        if i > 0 {
                            assert(first[i] == k[i - 1]);
                        }
                    }
                },
                AttrView::String(value) => {
                    assert(first =~= seq![' '] + k + seq!['=', '"'] + value + seq!['"']);
                    assert forall|i: int| 0 <= i < first.len() implies #[trigger] first[i] != '<'
                        && first[i] != '>' by {
                        if 0 < i <= k.len() {
                            assert(first[i] == k[i - 1]);
                        } else if k.len() + 3 <= i < k.len() + 3 + value.len() {
                            assert(first[i] == value[i - k.len() - 3]);
                        }
                    }
                },
            }
        }
        let whole = render_names(names, m);
        let others = render_names(rest, m);
        assert forall|i: int| 0 <= i < whole.len() implies #[trigger] whole[i] != '<' && whole[i]
            != '>' by {
            if i < first.len() {
                assert(whole[i] == first[i]);
            } else {
                assert(whole[i] == others[i - first.len()]);
            }
        }
        assert(first[0] == ' ');
        assert(first.len() > 1);
    }
}

/// Each name of the listing of `m` is a name of `m`, and can be written and
/// read again with its value.
pub proof fn lemma_listed(m: Attrs)
    requires
        says_attrs(m),
    ensures
        forall|i: int|
            0 <= i < ordered_names(m).len() ==> {
                &&& m.contains_key(#[trigger] ordered_names(m)[i])
                &&& says_key(ordered_names(m)[i])
                &&& says_value(m[ordered_names(m)[i]])
            },
        lists_names(ordered_names(m), m),
{
    let names = ordered_names(m);
    lemma_listing_exists(m);
    assert forall|i: int| 0 <= i < names.len() implies {
        &&& m.contains_key(#[trigger] names[i])
        &&& says_key(names[i])
        &&& says_value(m[names[i]])
    } by {
        let k = names[i];
        assert(names.contains(k));
        assert(m.contains_key(k));
        assert(says_value(m[k]));
    }
}

/// What an attribute map writes, it reads again: where the attributes of
/// `m` stand in `text` from `at` up to `hi`, and `m` has attributes,
/// decoding from behind their first space gives `m`.
pub proof fn lemma_attrs_read_again(text: Seq<char>, at: int, hi: int, m: Attrs)
    requires
        0 <= at,
        hi <= text.len(),
        says_attrs(m),
        ordered_names(m).len() > 0,
        hi == at + render_attrs(m).len(),
        text.subrange(at, hi) == render_attrs(m),
    ensures
        decode(text, at + 1, hi, Seq::empty(), Attrs::empty()) == m,
{
    let names = ordered_names(m);
    lemma_listed(m);
    lemma_decode_written(text, at, hi, names, m, Attrs::empty());
    lemma_set_all(Attrs::empty(), names, m);
    let read = set_all(Attrs::empty(), names, m);
    assert forall|k: Seq<char>| read.contains_key(k) <==> m.contains_key(k) by {
        assert(names.contains(k) <==> m.contains_key(k));
    }
    assert forall|k: Seq<char>| read.contains_key(k) implies read[k] == m[k] by {
        assert(names.contains(k) <==> m.contains_key(k));
    }
    assert(read =~= m);
}

/// `name` can be written as the name of a tag and read again: a word that
/// does not start with `/` and is not the name that marks text.
pub open spec fn says_name(name: Seq<char>) -> bool {
    &&& word(name)
    &&& name.len() > 0 ==> name[0] != '/'
    &&& name != text_name()
}

/// `v` can be written as markup and read again.
pub open spec fn sayable(v: NodeView) -> bool
    decreases v, 0nat,
{
    match v {
        NodeView::Text { value } => value.len() > 0 && no_angle(value),
        NodeView::Void { name, attributes } => says_name(name) && is_void_name(name) && says_attrs(
            attributes,
        ),
        NodeView::Block { name, attributes, children } => says_name(name) && !is_void_name(name)
            && says_attrs(attributes) && all_sayable(children),
        NodeView::Fragment { .. } => false,
    }
}

/// The nodes `s` can be written as markup one behind the other and read
/// again: each of them can, and no two texts stand side by side.
pub open spec fn all_sayable(s: Seq<NodeView>) -> bool
    decreases s, 1nat,
{
    forall|i: int|
        0 <= i < s.len() ==> sayable(#[trigger] s[i]) && (i > 0 ==> !(s[i - 1] is Text && s[i]
            is Text))
}

/// The tag that opens an element, or that is a void element.
pub open spec fn open_tag(name: Seq<char>, attributes: Attrs) -> Seq<char> {
    seq!['<'] + name + render_attrs(attributes) + seq!['>']
}

/// The tag that closes an element.
pub open spec fn close_tag(name: Seq<char>) -> Seq<char> {
    seq!['<', '/'] + name + seq!['>']
}

/// The spans of the node `v` when it is written at the offset `at`: its
/// own, and for an element those of its children behind it.
pub open spec fn node_spans(v: NodeView, at: int) -> Seq<SpanView>
    decreases v, 0nat,
{
    match v {
        NodeView::Text { value } => seq![
            SpanView { name: text_name(), start: at, end: at + value.len() },
        ],
        NodeView::Void { name, attributes } => seq![
            SpanView { name, start: at, end: at + render_node(v).len() },
        ],
        NodeView::Block { name, attributes, children } => seq![
            SpanView { name, start: at, end: at + render_node(v).len() },
        ] + list_spans(children, at + open_tag(name, attributes).len()),
        NodeView::Fragment { .. } => Seq::empty(),
    }
}

/// The spans of the nodes `s` when they are written from the offset `at`
/// on.
pub open spec fn list_spans(s: Seq<NodeView>, at: int) -> Seq<SpanView>
    decreases s, 1nat,
{
    if s.len() == 0 {
        Seq::empty()
    } else {
        list_spans(s.drop_last(), at) + node_spans(
            s.last(),
            at + render_nodes(s.drop_last()).len(),
        )
    }
}

/// The scan reads neither a tag nor the end of a text.
pub open spec fn calm(st: Scan) -> bool {
    &&& st.fault is None
    &&& st.tag_start is None
    &&& st.tag_end is None
    &&& st.text_end is None
}

/// The spans that the scan has found in the first `n` characters, with the
/// text that it is reading as a span that ends there.
pub open spec fn seen(st: Scan, n: int) -> Seq<SpanView> {
    match st.text_start {
        Some(a) => st.spans.push(SpanView { name: text_name(), start: a, end: n }),
        None => st.spans,
    }
}

/// A state without cursors that holds the spans `spans`.
pub open spec fn rest_with(spans: Seq<SpanView>) -> Scan {
    Scan {
        spans,
        tag_start: None,
        tag_end: None,
        text_start: None,
        text_end: None,
        fault: None,
    }
}

/// Characters that are no angle brackets and stand before the last
/// character change nothing but that a text may start with them.
pub proof fn lemma_scan_run(text: Seq<char>, lo: int, hi: int)
    requires
        0 <= lo <= hi < text.len(),
        forall|j: int| lo <= j < hi ==> text[j] != '<' && text[j] != '>',
        scan(text, lo).fault is None,
    ensures
        scan(text, hi) == (if lo < hi && scan(text, lo).tag_start is None && scan(
            text,
            lo,
        ).tag_end is None && scan(text, lo).text_start is None {
            Scan { text_start: Some(lo), ..scan(text, lo) }
        } else {
            scan(text, lo)
        }),
    decreases hi - lo,
{
    if lo < hi {
        lemma_scan_run(text, lo, hi - 1);
        lemma_scan_inv(text, hi - 1);
        let before = scan(text, hi - 1);
        assert(scan(text, hi) == step(text, before, hi - 1));
        assert(mark(text, before, hi - 1) == before);
    }
}

/// The spans after a closing tag, where the spans behind the element that
/// it closes are all resolved.
pub proof fn lemma_close_last_behind(
    before: Seq<SpanView>,
    opened: SpanView,
    behind: Seq<SpanView>,
    end: int,
)
    requires
        opened.end == 0,
        forall|i: int| 0 <= i < behind.len() ==> (#[trigger] behind[i]).end != 0,
    ensures
        close_last(before.push(opened) + behind, opened.name, end) == before.push(
            SpanView { end, ..opened },
        ) + behind,
{
    let all = before.push(opened) + behind;
    lemma_last_open_behind(all, opened.name, before.len() as int, all.len() as int);
    assert(all[before.len() as int] == opened);
    assert(all.update(before.len() as int, SpanView { end, ..opened }) =~= before.push(
        SpanView { end, ..opened },
    ) + behind);
}

/// The last span that waits is the one at `at` if none behind it waits.
pub proof fn lemma_last_open_behind(spans: Seq<SpanView>, name: Seq<char>, at: int, upto: int)
    requires
        0 <= at < upto <= spans.len(),
        awaits(spans[at], name),
        forall|i: int| at < i < upto ==> (#[trigger] spans[i]).end != 0,
    ensures
        last_open(spans, name, upto) == at,
    decreases upto - at,
{
    if at < upto - 1 {
        assert(spans[upto - 1].end != 0);
        lemma_last_open_behind(spans, name, at, upto - 1);
    }
}

/// The scan of a tag that opens an element or is a void element: the text
/// before it becomes a span, and the tag becomes a span, resolved if its
/// name is that of a void element.
pub proof fn lemma_scan_open_tag(
    text: Seq<char>,
    at: int,
    name: Seq<char>,
    attrs_text: Seq<char>,
)
    requires
        0 <= at,
        at + name.len() + attrs_text.len() + 2 <= text.len(),
        text.subrange(at, at + name.len() + attrs_text.len() + 2) == seq!['<'] + name + attrs_text
            + seq!['>'],
        word(name),
        name.len() > 0 ==> name[0] != '/',
        no_angle(attrs_text),
        attrs_text.len() > 0 ==> attrs_text[0] == ' ',
        calm(scan(text, at)),
    ensures
        scan(text, at + name.len() + attrs_text.len() + 2) == rest_with(
            seen(scan(text, at), at).push(
                SpanView {
                    name,
                    start: at,
                    end: if is_void_name(name) {
                        at + name.len() + attrs_text.len() + 2
                    } else {
                        0
                    },
                },
            ),
        ),
{
    let tag = seq!['<'] + name + attrs_text + seq!['>'];
    let end = at + tag.len();
    let st = scan(text, at);
    lemma_stands(text, at, tag);
    lemma_scan_inv(text, at);
    // the opening bracket
    assert(text[at] == '<') by {
        assert(tag[0] == '<');
    }
    let st1 = scan(text, at + 1);
    assert(st1 == step(text, st, at));
    assert(st1 == Scan { tag_start: Some(at), ..rest_with(seen(st, at)) });
    // the name and the attributes
    assert forall|j: int| at + 1 <= j < end - 1 implies text[j] != '<' && text[j] != '>' by {
        assert(text[j] == tag[j - at]);
        if j - at - 1 < name.len() {
            assert(tag[j - at] == name[j - at - 1]);
        } else {
            assert(tag[j - at] == attrs_text[j - at - 1 - name.len()]);
        }
    }
    lemma_scan_run(text, at + 1, end - 1);
    let st2 = scan(text, end - 1);
    assert(st2 == st1);
    // the closing bracket
    assert(text[end - 1] == '>') by {
        assert(tag[tag.len() - 1] == '>');
    }
    let st3 = scan(text, end);
    assert(st3 == step(text, st2, end - 1));
    let m = mark(text, st2, end - 1);
    assert(m == Scan { tag_end: Some(end), ..st2 });
    assert(st3 == take_tag(text, m, at, end));
    // the name that is read
    let name_end = at + 1 + name.len();
    assert forall|j: int| at + 1 <= j < name_end implies text[j] != ' ' by {
        assert(text[j] == tag[j - at]);
        assert(tag[j - at] == name[j - at - 1]);
        assert(white_space(' '));
    }
    if attrs_text.len() > 0 {
        assert(text[name_end] == ' ') by {
            assert(tag[name_end - at] == attrs_text[0]);
        }
    }
    lemma_find_char_at(text, ' ', at + 1, end - 1, name_end);
    assert(tag_name(text, at, end) =~= name) by {
        assert forall|j: int| 0 <= j < name.len() implies text[at + 1 + j] == name[j] by {
            assert(tag[1 + j] == name[j]);
        }
    }
    assert(text[at + 1] != '/') by {
        assert(text[at + 1] == tag[1]);
        if name.len() > 0 {
            assert(tag[1] == name[0]);
        } else if attrs_text.len() > 0 {
            assert(tag[1] == attrs_text[0]);
        }
    }
}

/// The scan of a closing tag: the text before it becomes a span, and the
/// nearest element that waits for the tag is resolved.
pub proof fn lemma_scan_close_tag(text: Seq<char>, at: int, name: Seq<char>)
    requires
        0 <= at,
        at + name.len() + 3 <= text.len(),
        text.subrange(at, at + name.len() + 3) == close_tag(name),
        word(name),
        calm(scan(text, at)),
    ensures
        scan(text, at + name.len() + 3) == rest_with(
            close_last(seen(scan(text, at), at), name, at + name.len() + 3),
        ),
{
    let tag = close_tag(name);
    let end = at + tag.len();
    let st = scan(text, at);
    lemma_stands(text, at, tag);
    lemma_scan_inv(text, at);
    assert(text[at] == '<') by {
        assert(tag[0] == '<');
    }
    let st1 = scan(text, at + 1);
    assert(st1 == step(text, st, at));
    assert(st1 == Scan { tag_start: Some(at), ..rest_with(seen(st, at)) });
    assert forall|j: int| at + 1 <= j < end - 1 implies text[j] != '<' && text[j] != '>'
        && text[j] != ' ' by {
        assert(text[j] == tag[j - at]);
        assert(white_space(' '));
        if j - at >= 2 {
            assert(tag[j - at] == name[j - at - 2]);
        }
    }
    lemma_scan_run(text, at + 1, end - 1);
    let st2 = scan(text, end - 1);
    assert(st2 == st1);
    assert(text[end - 1] == '>') by {
        assert(tag[tag.len() - 1] == '>');
    }
    let st3 = scan(text, end);
    assert(st3 == step(text, st2, end - 1));
    let m = mark(text, st2, end - 1);
    assert(m == Scan { tag_end: Some(end), ..st2 });
    assert(st3 == take_tag(text, m, at, end));
    lemma_find_char_at(text, ' ', at + 1, end - 1, end - 1);
    assert(text[at + 1] == '/') by {
        assert(tag[1] == '/');
    }
    assert(tag_name(text, at, end).drop_first() =~= name) by {
        assert forall|j: int| 0 <= j < name.len() implies text[at + 2 + j] == name[j] by {
            assert(tag[2 + j] == name[j]);
        }
    }
}

/// The scan of a text: it becomes a span at once where the source ends
/// with it, and is the text that is being read where more follows.
pub proof fn lemma_scan_text(text: Seq<char>, at: int, value: Seq<char>)
    requires
        0 <= at,
        at + value.len() <= text.len(),
        text.subrange(at, at + value.len()) == value,
        value.len() > 0,
        no_angle(value),
        calm(scan(text, at)),
        scan(text, at).text_start is None,
    ensures
        scan(text, at + value.len()) == (if at + value.len() < text.len() {
            Scan { text_start: Some(at), ..scan(text, at) }
        } else {
            Scan {
                spans: scan(text, at).spans.push(
                    SpanView { name: text_name(), start: at, end: at + value.len() },
                ),
                ..scan(text, at)
            }
        }),
{
    let end = at + value.len();
    let st = scan(text, at);
    lemma_stands(text, at, value);
    assert forall|j: int| at <= j < end implies text[j] != '<' && text[j] != '>' by {
        assert(text[j] == value[j - at]);
    }
    if end < text.len() {
        lemma_scan_run(text, at, end);
    } else {
        lemma_scan_run(text, at, end - 1);
        let before = scan(text, end - 1);
        assert(scan(text, end) == step(text, before, end - 1));
        let m = mark(text, before, end - 1);
        assert(m == Scan { text_end: Some(end), ..before });
        assert(scan(text, end) == take_text(m, end - 1));
    }
}

/// An element is written as its opening tag, its children and its closing
/// tag; a void element as its tag.
pub proof fn lemma_render_shape(v: NodeView)
    ensures
        v matches NodeView::Block { name, attributes, children } ==> render_node(v) == open_tag(
            name,
            attributes,
        ) + render_nodes(children) + close_tag(name),
        v matches NodeView::Void { name, attributes } ==> render_node(v) == open_tag(
            name,
            attributes,
        ),
{
    match v {
        NodeView::Block { name, attributes, children } => {
            assert(render_node(v) =~= open_tag(name, attributes) + render_nodes(children)
                + close_tag(name));
        },
        _ => {},
    }
}

/// What is written of attributes that can be read again holds no angle
/// bracket, and starts with a space if anything is written.
pub proof fn lemma_written_attrs(m: Attrs)
    requires
        says_attrs(m),
    ensures
        no_angle(render_attrs(m)),
        render_attrs(m).len() > 0 ==> render_attrs(m)[0] == ' ',
        render_attrs(m).len() > 0 <==> ordered_names(m).len() > 0,
{
    lemma_listed(m);
    lemma_written_names(ordered_names(m), m);
}

/// A tag is at least two characters long.
pub proof fn lemma_tag_len(name: Seq<char>, attributes: Attrs)
    ensures
        open_tag(name, attributes).len() == name.len() + render_attrs(attributes).len() + 2,
        close_tag(name).len() == name.len() + 3,
{
}

/// A node that can be read again is written with at least one character.
pub proof fn lemma_written_len(v: NodeView)
    requires
        sayable(v),
    ensures
        render_node(v).len() > 0,
{
    lemma_render_shape(v);
    match v {
        NodeView::Block { name, attributes, children } => {
            lemma_tag_len(name, attributes);
        },
        NodeView::Void { name, attributes } => {
            lemma_tag_len(name, attributes);
        },
        _ => {},
    }
}

/// The first of nodes that can be written and read again can be, too.
pub proof fn lemma_all_sayable_head(s: Seq<NodeView>)
    requires
        all_sayable(s),
        s.len() > 0,
    ensures
        all_sayable(s.drop_last()),
        sayable(s.last()),
        s.len() > 1 ==> !(s[s.len() - 2] is Text && s.last() is Text),
{
    let head = s.drop_last();
    assert forall|i: int| 0 <= i < head.len() implies sayable(#[trigger] head[i]) && (i > 0 ==> !(
    head[i - 1] is Text && head[i] is Text)) by {
        assert(head[i] == s[i]);
        if i > 0 {
            assert(head[i - 1] == s[i - 1]);
        }
    }
    assert(sayable(s[s.len() - 1]));
}

/// The scan of a node that is written at `at`: it adds the spans of the
/// node to what it has seen, and reads on without a tag at hand.
pub proof fn lemma_scan_node(text: Seq<char>, at: int, v: NodeView)
    requires
        0 <= at,
        at + render_node(v).len() <= text.len(),
        text.subrange(at, at + render_node(v).len()) == render_node(v),
        sayable(v),
        calm(scan(text, at)),
        v is Text ==> scan(text, at).text_start is None,
    ensures
        calm(scan(text, at + render_node(v).len())),
        seen(scan(text, at + render_node(v).len()), at + render_node(v).len()) == seen(
            scan(text, at),
            at,
        ) + node_spans(v, at),
        scan(text, at + render_node(v).len()).text_start is Some <==> (v is Text && at
            + render_node(v).len() < text.len()),
    decreases v, 0nat,
{
    let r = render_node(v);
    let end = at + r.len();
    let st = scan(text, at);
    lemma_render_shape(v);
    match v {
        NodeView::Text { value } => {
            lemma_scan_text(text, at, value);
            assert(seen(scan(text, end), end) =~= seen(st, at) + node_spans(v, at));
        },
        NodeView::Void { name, attributes } => {
            lemma_written_attrs(attributes);
            lemma_scan_open_tag(text, at, name, render_attrs(attributes));
            assert(seen(scan(text, end), end) =~= seen(st, at) + node_spans(v, at));
        },
        NodeView::Block { name, attributes, children } => {
            let open = open_tag(name, attributes);
            let kids = render_nodes(children);
            let close = close_tag(name);
            assert(r == open + kids + close);
            let from = at + open.len();
            let to = from + kids.len();
            lemma_part_stands(text, at, r, 0, open.len() as int);
            assert(r.subrange(0, open.len() as int) =~= open);
            lemma_part_stands(text, at, r, open.len() as int, (open.len() + kids.len()) as int);
            assert(r.subrange(open.len() as int, (open.len() + kids.len()) as int) =~= kids);
            lemma_part_stands(text, at, r, (open.len() + kids.len()) as int, r.len() as int);
            assert(r.subrange((open.len() + kids.len()) as int, r.len() as int) =~= close);
            // the opening tag
            lemma_written_attrs(attributes);
            lemma_scan_open_tag(text, at, name, render_attrs(attributes));
            let opened = SpanView { name, start: at, end: 0 };
            let st1 = scan(text, from);
            assert(st1 == rest_with(seen(st, at).push(opened)));
            // the children
            lemma_scan_list(text, from, children);
            let st2 = scan(text, to);
            let below = list_spans(children, from);
            assert(seen(st2, to) == seen(st, at).push(opened) + below);
            // the closing tag
            lemma_scan_close_tag(text, to, name);
            lemma_tag_len(name, attributes);
            lemma_list_range(children, from);
            assert forall|i: int| 0 <= i < below.len() implies (#[trigger] below[i]).end != 0 by {
                assert(lies_in(below[i], from, from + render_nodes(children).len()));
            }
            lemma_close_last_behind(seen(st, at), opened, below, end);
            assert(scan(text, end) == rest_with(
                seen(st, at).push(SpanView { name, start: at, end }) + below,
            ));
            assert(seen(scan(text, end), end) =~= seen(st, at) + node_spans(v, at));
        },
        NodeView::Fragment { .. } => {},
    }
}

/// The scan of nodes that are written from `at` on: it adds the spans of
/// the nodes to what it has seen, and reads on without a tag at hand.
pub proof fn lemma_scan_list(text: Seq<char>, at: int, s: Seq<NodeView>)
    requires
        0 <= at,
        at + render_nodes(s).len() <= text.len(),
        text.subrange(at, at + render_nodes(s).len()) == render_nodes(s),
        all_sayable(s),
        calm(scan(text, at)),
        scan(text, at).text_start is None,
    ensures
        calm(scan(text, at + render_nodes(s).len())),
        seen(scan(text, at + render_nodes(s).len()), at + render_nodes(s).len()) == seen(
            scan(text, at),
            at,
        ) + list_spans(s, at),
        scan(text, at + render_nodes(s).len()).text_start is Some <==> (s.len() > 0 && s.last()
            is Text && at + render_nodes(s).len() < text.len()),
    decreases s, 1nat,
{
    let st = scan(text, at);
    if s.len() == 0 {
        assert(seen(st, at) + list_spans(s, at) =~= seen(st, at));
    } else {
        let head = s.drop_last();
        let v = s.last();
        let r = render_nodes(s);
        let first = render_nodes(head);
        let last = render_node(v);
        assert(r == first + last);
        lemma_all_sayable_head(s);
        let mid = at + first.len();
        let end = at + r.len();
        lemma_part_stands(text, at, r, 0, first.len() as int);
        assert(r.subrange(0, first.len() as int) =~= first);
        lemma_part_stands(text, at, r, first.len() as int, r.len() as int);
        assert(r.subrange(first.len() as int, r.len() as int) =~= last);
        if head.len() > 0 {
            assert(head.last() == s[s.len() - 2]);
        }
        lemma_scan_list(text, at, head);
        lemma_scan_node(text, mid, v);
        assert(seen(scan(text, end), end) == seen(st, at) + list_spans(head, at) + node_spans(
            v,
            mid,
        ));
        assert(seen(st, at) + list_spans(head, at) + node_spans(v, mid) =~= seen(st, at) + (
        list_spans(head, at) + node_spans(v, mid)));
    }
}

/// Markup that was written is scanned into the spans of its nodes.
pub proof fn lemma_tokenize_written(t: Seq<NodeView>)
    requires
        all_sayable(t),
    ensures
        scan(render_nodes(t), render_nodes(t).len() as int).fault is None,
        scan(render_nodes(t), render_nodes(t).len() as int).spans == list_spans(t, 0),
{
    let text = render_nodes(t);
    assert(text.subrange(0, text.len() as int) =~= text);
    lemma_scan_list(text, 0, t);
    assert(Seq::<SpanView>::empty() + list_spans(t, 0) =~= list_spans(t, 0));
}

/// The span of the node `v` itself when it is written at `at`.
pub open spec fn own_span(v: NodeView, at: int) -> SpanView {
    match v {
        NodeView::Text { value } => SpanView { name: text_name(), start: at, end: at + value.len() },
        NodeView::Void { name, attributes } => SpanView {
            name,
            start: at,
            end: at + render_node(v).len(),
        },
        NodeView::Block { name, attributes, children } => SpanView {
            name,
            start: at,
            end: at + render_node(v).len(),
        },
        NodeView::Fragment { .. } => SpanView { name: Seq::empty(), start: at, end: at },
    }
}

/// The spans below the node `v` when it is written at `at`.
pub open spec fn spans_below(v: NodeView, at: int) -> Seq<SpanView> {
    match v {
        NodeView::Block { name, attributes, children } => list_spans(
            children,
            at + open_tag(name, attributes).len(),
        ),
        _ => Seq::empty(),
    }
}

/// The spans of a node are its own and then those below it.
pub proof fn lemma_node_spans(v: NodeView, at: int)
    requires
        !(v is Fragment),
    ensures
        node_spans(v, at) == seq![own_span(v, at)] + spans_below(v, at),
{
    match v {
        NodeView::Block { .. } => {},
        _ => {
            assert(node_spans(v, at) =~= seq![own_span(v, at)] + spans_below(v, at));
        },
    }
}

/// `x` starts and ends in `lo..hi`, and ends behind its start.
pub open spec fn lies_in(x: SpanView, lo: int, hi: int) -> bool {
    lo <= x.start && x.start < x.end && x.end <= hi
}

/// Where the spans of a node lie: its own span is what is written of it,
/// and the spans below lie strictly inside that.
pub proof fn lemma_node_range(v: NodeView, at: int)
    requires
        0 <= at,
        sayable(v),
    ensures
        own_span(v, at).start == at,
        own_span(v, at).end == at + render_node(v).len(),
        render_node(v).len() > 0,
        forall|i: int|
            0 <= i < spans_below(v, at).len() ==> {
                let x = #[trigger] spans_below(v, at)[i];
                x.start < x.end && inside(x, at, at + render_node(v).len())
            },
    decreases v, 0nat,
{
    lemma_written_len(v);
    lemma_render_shape(v);
    match v {
        NodeView::Block { name, attributes, children } => {
            lemma_tag_len(name, attributes);
            let from = at + open_tag(name, attributes).len();
            lemma_list_range(children, from);
        },
        _ => {},
    }
}

/// Where the spans of nodes lie: in what is written of the nodes.
pub proof fn lemma_list_range(s: Seq<NodeView>, at: int)
    requires
        0 <= at,
        all_sayable(s),
    ensures
        forall|i: int|
            0 <= i < list_spans(s, at).len() ==> lies_in(
                #[trigger] list_spans(s, at)[i],
                at,
                at + render_nodes(s).len(),
            ),
    decreases s, 1nat,
{
    if s.len() > 0 {
        let head = s.drop_last();
        let v = s.last();
        lemma_all_sayable_head(s);
        lemma_list_range(head, at);
        let mid = at + render_nodes(head).len();
        let end = at + render_nodes(s).len();
        lemma_node_range(v, mid);
        lemma_node_spans(v, mid);
        let first = list_spans(head, at);
        let below = spans_below(v, mid);
        let last = node_spans(v, mid);
        let all = list_spans(s, at);
        assert(all == first + last);
        assert(last == seq![own_span(v, mid)] + below);
        assert forall|i: int| 0 <= i < last.len() implies lies_in(#[trigger] last[i], mid, end)
            by {
            if i > 0 {
                assert(last[i] == below[i - 1]);
            }
        }
        assert forall|i: int| 0 <= i < all.len() implies lies_in(#[trigger] all[i], at, end) by {
            if i < first.len() {
                assert(all[i] == first[i]);
            } else {
                assert(all[i] == last[i - first.len()]);
            }
        }
    }
}

/// What is contained in a range of spans one behind the other is what is
/// contained of the first and then of the others.
pub proof fn lemma_contained_add(a: Seq<SpanView>, b: Seq<SpanView>, start: int, end: int)
    ensures
        contained(a + b, start, end, (a + b).len() as int) == contained(
            a,
            start,
            end,
            a.len() as int,
        ) + contained(b, start, end, b.len() as int),
{
    lemma_contained_prefix(a + b, a, start, end, a.len() as int);
    lemma_contained_suffix(a, b, start, end, b.len() as int);
}

/// What is contained among the first spans of a list does not depend on
/// the others.
pub proof fn lemma_contained_prefix(
    whole: Seq<SpanView>,
    a: Seq<SpanView>,
    start: int,
    end: int,
    upto: int,
)
    requires
        0 <= upto <= a.len() <= whole.len(),
        forall|i: int| 0 <= i < a.len() ==> whole[i] == a[i],
    ensures
        contained(whole, start, end, upto) == contained(a, start, end, upto),
    decreases upto,
{
    if upto > 0 {
        lemma_contained_prefix(whole, a, start, end, upto - 1);
    }
}

/// What is contained in spans one behind the other, up to a span of the
/// others.
pub proof fn lemma_contained_suffix(
    a: Seq<SpanView>,
    b: Seq<SpanView>,
    start: int,
    end: int,
    upto: int,
)
    requires
        0 <= upto <= b.len(),
    ensures
        contained(a + b, start, end, a.len() + upto) == contained(a + b, start, end, a.len() as int)
            + contained(b, start, end, upto),
    decreases upto,
{
    if upto > 0 {
        lemma_contained_suffix(a, b, start, end, upto - 1);
        assert((a + b)[a.len() + upto - 1] == b[upto - 1]);
        let x = contained(a + b, start, end, a.len() as int);
        let y = contained(b, start, end, upto - 1);
        if inside(b[upto - 1], start, end) {
            assert((x + y).push(b[upto - 1]) =~= x + y.push(b[upto - 1]));
        }
    } else {
        assert(contained(a + b, start, end, a.len() as int) + contained(b, start, end, 0)
            =~= contained(a + b, start, end, a.len() as int));
    }
}

/// Spans that all lie inside the range are all contained.
pub proof fn lemma_contained_all(a: Seq<SpanView>, start: int, end: int, upto: int)
    requires
        0 <= upto <= a.len(),
        forall|i: int| 0 <= i < a.len() ==> inside(#[trigger] a[i], start, end),
    ensures
        contained(a, start, end, upto) == a.take(upto),
    decreases upto,
{
    if upto > 0 {
        lemma_contained_all(a, start, end, upto - 1);
        assert(a.take(upto - 1).push(a[upto - 1]) =~= a.take(upto));
    } else {
        assert(a.take(0) =~= Seq::<SpanView>::empty());
    }
}

/// Of spans that all lie outside the range none is contained.
pub proof fn lemma_contained_none(a: Seq<SpanView>, start: int, end: int, upto: int)
    requires
        0 <= upto <= a.len(),
        forall|i: int| 0 <= i < a.len() ==> !inside(#[trigger] a[i], start, end),
    ensures
        contained(a, start, end, upto) == Seq::<SpanView>::empty(),
    decreases upto,
{
    if upto > 0 {
        lemma_contained_none(a, start, end, upto - 1);
    }
}

/// The ranges of `m`.
pub open spec fn key_set(m: Seq<SpanView>) -> Set<(int, int)> {
    Set::new(|k: (int, int)| exists|i: int| 0 <= i < m.len() && key_of(#[trigger] m[i]) == k)
}

/// Spans whose ranges were all visited give no trees.
pub proof fn lemma_join_visited(nodes: Seq<SpanView>, i: int, seen: Set<(int, int)>)
    requires
        0 <= i,
        forall|j: int| i <= j < nodes.len() ==> seen.contains(key_of(#[trigger] nodes[j])),
    ensures
        join_from(nodes, i, seen) == (Seq::<IrNodeView>::empty(), seen),
    decreases nodes.len() - i,
{
    if i < nodes.len() {
        assert(seen.contains(key_of(nodes[i])));
        lemma_join_visited(nodes, i + 1, seen);
    }
}

/// Spans behind a list that lie inside none of its spans do not change the
/// trees of the list: the join of the whole is the join of the list and
/// then the join of the spans behind it.
pub proof fn lemma_join_extend(
    a: Seq<SpanView>,
    z: Seq<SpanView>,
    i: int,
    seen: Set<(int, int)>,
)
    requires
        0 <= i <= a.len(),
        forall|j: int, k: int|
            0 <= j < a.len() && 0 <= k < z.len() ==> !inside(
                #[trigger] z[k],
                (#[trigger] a[j]).start,
                a[j].end,
            ),
    ensures
        join_from(a + z, i, seen).0 == join_from(a, i, seen).0 + join_from(
            a + z,
            a.len() as int,
            join_from(a, i, seen).1,
        ).0,
        join_from(a + z, i, seen).1 == join_from(a + z, a.len() as int, join_from(a, i, seen).1).1,
    decreases a.len() - i,
{
    let whole = a + z;
    if i < a.len() {
        assert(whole[i] == a[i]);
        let node = a[i];
        if seen.contains(key_of(node)) {
            lemma_join_extend(a, z, i + 1, seen);
        } else {
            lemma_contained_add(a, z, node.start, node.end);
            assert forall|k: int| 0 <= k < z.len() implies !inside(
                #[trigger] z[k],
                node.start,
                node.end,
            ) by {
                assert(!inside(z[k], a[i].start, a[i].end));
            }
            lemma_contained_none(z, node.start, node.end, z.len() as int);
            let inner = contained(a, node.start, node.end, a.len() as int);
            assert(contained(whole, node.start, node.end, whole.len() as int) =~= inner);
            lemma_contained(a, node.start, node.end, a.len() as int);
            assert(!inside(a[i], node.start, node.end));
            assert(inner.len() < a.len());
            let below = join_from(inner, 0, seen.insert(key_of(node)));
            lemma_join_extend(a, z, i + 1, below.1);
            let head = seq![IrNodeView { span: node, children: below.0 }];
            let rest_a = join_from(a, i + 1, below.1);
            let tail = join_from(whole, a.len() as int, rest_a.1);
            assert(join_from(a, i, seen).0 == head + rest_a.0);
            assert(join_from(whole, i, seen).0 == head + (rest_a.0 + tail.0));
            assert(head + (rest_a.0 + tail.0) =~= (head + rest_a.0) + tail.0);
        }
    } else {
        assert(join_from(a, i, seen).0 + join_from(whole, a.len() as int, seen).0 =~= join_from(
            whole,
            a.len() as int,
            seen,
        ).0);
    }
}

/// Spans before a list that lie inside none of its spans do not change the
/// trees of the list.
pub proof fn lemma_join_shift(a: Seq<SpanView>, z: Seq<SpanView>, i: int, seen: Set<(int, int)>)
    requires
        0 <= i <= z.len(),
        forall|j: int, k: int|
            0 <= j < a.len() && 0 <= k < z.len() ==> !inside(
                #[trigger] a[j],
                (#[trigger] z[k]).start,
                z[k].end,
            ),
    ensures
        join_from(a + z, a.len() + i, seen) == join_from(z, i, seen),
    decreases z.len() - i,
{
    let whole = a + z;
    if i < z.len() {
        assert(whole[a.len() + i] == z[i]);
        let node = z[i];
        if seen.contains(key_of(node)) {
            lemma_join_shift(a, z, i + 1, seen);
        } else {
            lemma_contained_add(a, z, node.start, node.end);
            assert forall|j: int| 0 <= j < a.len() implies !inside(
                #[trigger] a[j],
                node.start,
                node.end,
            ) by {
                assert(!inside(a[j], z[i].start, z[i].end));
            }
            lemma_contained_none(a, node.start, node.end, a.len() as int);
            let inner = contained(z, node.start, node.end, z.len() as int);
            assert(contained(whole, node.start, node.end, whole.len() as int) =~= inner);
            lemma_contained(z, node.start, node.end, z.len() as int);
            assert(!inside(z[i], node.start, node.end));
            assert(inner.len() < z.len());
            let below = join_from(inner, 0, seen.insert(key_of(node)));
            lemma_join_shift(a, z, i + 1, below.1);
        }
    }
}

/// The tree of spans of the node `v` when it is written at `at`.
pub open spec fn node_tree(v: NodeView, at: int) -> IrNodeView
    decreases v, 0nat,
{
    IrNodeView {
        span: own_span(v, at),
        children: match v {
            NodeView::Block { name, attributes, children } => list_trees(
                children,
                at + open_tag(name, attributes).len(),
            ),
            _ => Seq::empty(),
        },
    }
}

/// The trees of spans of the nodes `s` when they are written from `at` on.
pub open spec fn list_trees(s: Seq<NodeView>, at: int) -> Seq<IrNodeView>
    decreases s, 1nat,
{
    if s.len() == 0 {
        Seq::empty()
    } else {
        list_trees(s.drop_last(), at).push(
            node_tree(s.last(), at + render_nodes(s.drop_last()).len()),
        )
    }
}

/// The spans of a node that is written join to its tree.
pub proof fn lemma_join_node(v: NodeView, at: int, seen: Set<(int, int)>)
    requires
        0 <= at,
        sayable(v),
        forall|i: int|
            0 <= i < node_spans(v, at).len() ==> !seen.contains(
                key_of(#[trigger] node_spans(v, at)[i]),
            ),
    ensures
        join_from(node_spans(v, at), 0, seen) == (
            seq![node_tree(v, at)],
            seen.union(key_set(node_spans(v, at))),
        ),
    decreases v, 0nat,
{
    let all = node_spans(v, at);
    let own = own_span(v, at);
    let below = spans_below(v, at);
    lemma_node_spans(v, at);
    lemma_node_range(v, at);
    assert(all == seq![own] + below);
    assert(all[0] == own);
    assert(!seen.contains(key_of(all[0])));
    // what the node contains
    lemma_contained_add(seq![own], below, own.start, own.end);
    assert(!inside(seq![own][0], own.start, own.end));
    lemma_contained_none(seq![own], own.start, own.end, 1);
    lemma_contained_all(below, own.start, own.end, below.len() as int);
    assert(below.take(below.len() as int) =~= below);
    let inner = contained(all, own.start, own.end, all.len() as int);
    assert(inner =~= below);
    // the trees below
    let visited = seen.insert(key_of(own));
    assert forall|i: int| 0 <= i < below.len() implies !visited.contains(
        key_of(#[trigger] below[i]),
    ) by {
        assert(all[i + 1] == below[i]);
        assert(!seen.contains(key_of(all[i + 1])));
    }
    let joined = join_from(below, 0, visited);
    match v {
        NodeView::Block { name, attributes, children } => {
            lemma_tag_len(name, attributes);
            lemma_join_list(children, at + open_tag(name, attributes).len(), visited);
        },
        _ => {
            assert(below =~= Seq::<SpanView>::empty());
            assert(key_set(below) =~= Set::<(int, int)>::empty());
            assert(visited.union(key_set(below)) =~= visited);
        },
    }
    assert(joined == (node_tree(v, at).children, visited.union(key_set(below))));
    // the spans below were visited
    assert forall|j: int| 1 <= j < all.len() implies joined.1.contains(key_of(#[trigger] all[j]))
        by {
        assert(all[j] == below[j - 1]);
        assert(key_set(below).contains(key_of(below[j - 1])));
    }
    lemma_join_visited(all, 1, joined.1);
    let tree = IrNodeView { span: own, children: joined.0 };
    assert(tree == node_tree(v, at));
    assert(join_from(all, 0, seen).0 =~= seq![tree]);
    assert(join_from(all, 0, seen).1 == joined.1);
    assert(joined.1 =~= seen.union(key_set(all))) by {
        assert forall|k: (int, int)| joined.1.contains(k) <==> seen.union(key_set(all)).contains(
            k,
        ) by {
            if key_set(below).contains(k) {
                let i = choose|i: int| 0 <= i < below.len() && key_of(#[trigger] below[i]) == k;
                assert(all[i + 1] == below[i]);
            }
            if k == key_of(own) {
                assert(key_of(all[0]) == k);
            }
            if key_set(all).contains(k) {
                let i = choose|i: int| 0 <= i < all.len() && key_of(#[trigger] all[i]) == k;
                if i > 0 {
                    assert(all[i] == below[i - 1]);
                }
            }
        }
    }
}

/// The spans of nodes that are written join to their trees.
pub proof fn lemma_join_list(s: Seq<NodeView>, at: int, seen: Set<(int, int)>)
    requires
        0 <= at,
        all_sayable(s),
        forall|i: int|
            0 <= i < list_spans(s, at).len() ==> !seen.contains(
                key_of(#[trigger] list_spans(s, at)[i]),
            ),
    ensures
        join_from(list_spans(s, at), 0, seen) == (
            list_trees(s, at),
            seen.union(key_set(list_spans(s, at))),
        ),
    decreases s, 1nat,
{
    let all = list_spans(s, at);
    if s.len() == 0 {
        assert(key_set(all) =~= Set::<(int, int)>::empty());
        assert(seen.union(key_set(all)) =~= seen);
    } else {
        let head = s.drop_last();
        let v = s.last();
        lemma_all_sayable_head(s);
        let mid = at + render_nodes(head).len();
        let first = list_spans(head, at);
        let last = node_spans(v, mid);
        assert(all == first + last);
        lemma_list_range(head, at);
        lemma_node_range(v, mid);
        lemma_node_spans(v, mid);
        let below = spans_below(v, mid);
        assert forall|k: int| 0 <= k < last.len() implies mid <= (#[trigger] last[k]).start
            && last[k].start < last[k].end by {
            if k > 0 {
                assert(last[k] == below[k - 1]);
            }
        }
        // the nodes before the last
        assert forall|i: int| 0 <= i < first.len() implies !seen.contains(
            key_of(#[trigger] first[i]),
        ) by {
            assert(all[i] == first[i]);
        }
        lemma_join_list(head, at, seen);
        let visited = seen.union(key_set(first));
        assert forall|j: int, k: int| 0 <= j < first.len() && 0 <= k < last.len() implies !inside(
            #[trigger] last[k],
            (#[trigger] first[j]).start,
            first[j].end,
        ) by {
            assert(lies_in(first[j], at, mid));
        }
        lemma_join_extend(first, last, 0, seen);
        // the last node
        assert forall|j: int, k: int| 0 <= j < first.len() && 0 <= k < last.len() implies !inside(
            #[trigger] first[j],
            (#[trigger] last[k]).start,
            last[k].end,
        ) by {
            assert(lies_in(first[j], at, mid));
        }
        lemma_join_shift(first, last, 0, visited);
        assert forall|k: int| 0 <= k < last.len() implies !visited.contains(
            key_of(#[trigger] last[k]),
        ) by {
            assert(all[first.len() + k] == last[k]);
            assert(!seen.contains(key_of(all[first.len() + k])));
            if key_set(first).contains(key_of(last[k])) {
                let j = choose|j: int|
                    0 <= j < first.len() && key_of(#[trigger] first[j]) == key_of(last[k]);
                assert(lies_in(first[j], at, mid));
            }
        }
        lemma_join_node(v, mid, visited);
        assert(join_from(all, 0, seen).0 =~= list_trees(s, at));
        assert(visited.union(key_set(last)) =~= seen.union(key_set(all))) by {
            assert forall|k: (int, int)|
                visited.union(key_set(last)).contains(k) <==> seen.union(key_set(all)).contains(
                    k,
                ) by {
                if key_set(first).contains(k) {
                    let i = choose|i: int|
                        0 <= i < first.len() && key_of(#[trigger] first[i]) == k;
                    assert(all[i] == first[i]);
                }
                if key_set(last).contains(k) {
                    let i = choose|i: int| 0 <= i < last.len() && key_of(#[trigger] last[i]) == k;
                    assert(all[first.len() + i] == last[i]);
                }
                if key_set(all).contains(k) {
                    let i = choose|i: int| 0 <= i < all.len() && key_of(#[trigger] all[i]) == k;
                    if i < first.len() {
                        assert(all[i] == first[i]);
                    } else {
                        assert(all[i] == last[i - first.len()]);
                    }
                }
            }
        }
    }
}

/// The attributes of a tag that was written are read again from the span
/// of its element.
pub proof fn lemma_decode_tag(
    text: Seq<char>,
    at: int,
    end: int,
    name: Seq<char>,
    attributes: Attrs,
)
    requires
        0 <= at,
        at + open_tag(name, attributes).len() <= end <= text.len(),
        text.subrange(at, at + open_tag(name, attributes).len()) == open_tag(name, attributes),
        word(name),
        says_attrs(attributes),
    ensures
        decode_attrs(text, at, end) == attributes,
{
    let open = open_tag(name, attributes);
    let attrs_text = render_attrs(attributes);
    lemma_tag_len(name, attributes);
    lemma_written_attrs(attributes);
    lemma_listed(attributes);
    lemma_written_names(ordered_names(attributes), attributes);
    lemma_stands(text, at, open);
    let close = at + open.len() - 1;
    let space = at + 1 + name.len();
    assert(text[at] == '<') by {
        assert(open[0] == '<');
    }
    assert(text[close] == '>') by {
        assert(open[open.len() - 1] == '>');
    }
    assert forall|j: int| at < j < space implies !white_space(text[j]) && text[j] != '>' by {
        assert(text[j] == open[j - at]);
        assert(open[j - at] == name[j - at - 1]);
    }
    assert forall|j: int| space <= j < close implies text[j] != '>' by {
        assert(text[j] == open[j - at]);
        assert(open[j - at] == attrs_text[j - space]);
    }
    lemma_find_char_at(text, '>', at, end, close);
    if ordered_names(attributes).len() > 0 {
        assert(text[space] == ' ') by {
            assert(open[space - at] == attrs_text[0]);
        }
        lemma_find_space_at(text, at, end, space);
        lemma_part_stands(text, at, open, space - at, close - at);
        assert(open.subrange(space - at, close - at) =~= attrs_text);
        lemma_attrs_read_again(text, space, close, attributes);
        assert(attrs_range(text, at, end) == Some((space + 1, close)));
    } else {
        assert(space == close);
        lemma_find_space(text, at, end);
        let found = find_space(text, at, end);
        if found < end {
            assert(white_space(text[found]));
            assert(found > close);
        }
        assert(attrs_range(text, at, end) is None);
        assert forall|k: Seq<char>| !attributes.contains_key(k) by {
            assert(!ordered_names(attributes).contains(k));
        }
        assert(attributes =~= Attrs::empty());
    }
}

/// The tree of spans of a node that was written builds to the node.
pub proof fn lemma_build_node(text: Seq<char>, v: NodeView, at: int)
    requires
        0 <= at,
        at + render_node(v).len() <= text.len(),
        text.subrange(at, at + render_node(v).len()) == render_node(v),
        sayable(v),
    ensures
        build_node(text, node_tree(v, at)) == v,
    decreases v, 0nat,
{
    let r = render_node(v);
    let end = at + r.len();
    let n = node_tree(v, at);
    lemma_render_shape(v);
    match v {
        NodeView::Text { value } => {},
        NodeView::Void { name, attributes } => {
            lemma_decode_tag(text, at, end, name, attributes);
        },
        NodeView::Block { name, attributes, children } => {
            let open = open_tag(name, attributes);
            let kids = render_nodes(children);
            let close = close_tag(name);
            assert(r == open + kids + close);
            lemma_part_stands(text, at, r, 0, open.len() as int);
            assert(r.subrange(0, open.len() as int) =~= open);
            lemma_part_stands(text, at, r, open.len() as int, (open.len() + kids.len()) as int);
            assert(r.subrange(open.len() as int, (open.len() + kids.len()) as int) =~= kids);
            lemma_decode_tag(text, at, end, name, attributes);
            lemma_build_list(text, children, at + open.len());
            lemma_build_block(text, n);
        },
        NodeView::Fragment { .. } => {},
    }
}

/// The trees of spans of nodes that were written build to the nodes.
pub proof fn lemma_build_list(text: Seq<char>, s: Seq<NodeView>, at: int)
    requires
        0 <= at,
        at + render_nodes(s).len() <= text.len(),
        text.subrange(at, at + render_nodes(s).len()) == render_nodes(s),
        all_sayable(s),
    ensures
        build(text, list_trees(s, at)) == s,
    decreases s, 1nat,
{
    if s.len() == 0 {
        assert(build(text, list_trees(s, at)) =~= s);
    } else {
        let head = s.drop_last();
        let v = s.last();
        let r = render_nodes(s);
        let first = render_nodes(head);
        let last = render_node(v);
        assert(r == first + last);
        lemma_all_sayable_head(s);
        let mid = at + first.len();
        lemma_part_stands(text, at, r, 0, first.len() as int);
        assert(r.subrange(0, first.len() as int) =~= first);
        lemma_part_stands(text, at, r, first.len() as int, r.len() as int);
        assert(r.subrange(first.len() as int, r.len() as int) =~= last);
        lemma_build_list(text, head, at);
        lemma_build_node(text, v, mid);
        let trees = list_trees(s, at);
        assert(trees == list_trees(head, at).push(node_tree(v, mid)));
        let built = build(text, trees);
        assert forall|i: int| 0 <= i < s.len() implies built[i] == s[i] by {
            if i < head.len() {
                assert(trees[i] == list_trees(head, at)[i]);
                assert(build(text, list_trees(head, at))[i] == head[i]);
            }
        }
        assert(built =~= s);
    }
}

/// Markup that was written from nodes that it can say parses to those
/// nodes.
pub proof fn lemma_parse_written(t: Seq<NodeView>)
    requires
        all_sayable(t),
    ensures
        parse(render_nodes(t)) == Ok::<Seq<NodeView>, ParseError>(t),
{
    let text = render_nodes(t);
    let spans = list_spans(t, 0);
    lemma_tokenize_written(t);
    lemma_list_range(t, 0);
    lemma_first_unresolved(spans, 0);
    let k = first_unresolved(spans, 0);
    if k < spans.len() {
        assert(lies_in(spans[k], 0, text.len() as int));
    }
    lemma_join_list(t, 0, Set::empty());
    assert(text.subrange(0, text.len() as int) =~= text);
    lemma_build_list(text, t, 0);
}

} // verus!
