//! The tokenizer: one pass over the source, character by character, that
//! yields the spans of its tags and of its text in the order in which they
//! begin to be read.
//!
//! The scan keeps four cursors: where a tag starts and ends, and where a run
//! of text starts and ends. A `<` starts a tag and ends the text before it;
//! a `>` ends a tag. A tag that is complete is either a closing tag, which
//! resolves the nearest unresolved element of its name, or an opening tag,
//! which becomes a new span. Text that is complete becomes a span too.
//!
//! Quotes mean nothing to the scan: a `>` inside a quoted value ends the
//! tag. A `>` that ends no tag is kept in mind, and the scan gives up at the
//! next `<`, where the tag would end before it starts.

use vstd::prelude::*;
use crate::span::{is_void, is_void_name, span_views, text_name, ParseError, Span, SpanView};
use crate::text::{find_char, find_char_in, lemma_find_char, string_of};

verus! {

/// The state of the scan.
pub struct Scan {
    /// The spans found so far.
    pub spans: Seq<SpanView>,
    /// The offset of the `<` of the tag that is being read.
    pub tag_start: Option<int>,
    /// The offset behind the last `>` that has not been used for a tag.
    pub tag_end: Option<int>,
    /// The offset of the first character of the text that is being read.
    pub text_start: Option<int>,
    /// The offset behind the last character of that text.
    pub text_end: Option<int>,
    /// The offset of the `<` at which the scan gave up: a `>` that closed no
    /// tag had come before it, so that the tag would end before it starts.
    pub fault: Option<int>,
}

/// The state before the first character.
pub open spec fn scan_start() -> Scan {
    Scan {
        spans: Seq::empty(),
        tag_start: None,
        tag_end: None,
        text_start: None,
        text_end: None,
        fault: None,
    }
}

/// The name of the tag whose `<` is at `start` and whose `>` is at
/// `end - 1`: what stands between them, up to the first space.
pub open spec fn tag_name(text: Seq<char>, start: int, end: int) -> Seq<char> {
    text.subrange(start + 1, find_char(text, ' ', start + 1, end - 1))
}

/// Whether `s` is an element named `name` that waits for its closing tag.
pub open spec fn awaits(s: SpanView, name: Seq<char>) -> bool {
    s.name == name && s.end == 0
}

/// The index of the last span among the first `upto` that waits for the
/// closing tag `name`, or `-1` when none does.
pub open spec fn last_open(spans: Seq<SpanView>, name: Seq<char>, upto: int) -> int
    decreases upto,
{
    if upto <= 0 {
        -1
    } else if awaits(spans[upto - 1], name) {
        upto - 1
    } else {
        last_open(spans, name, upto - 1)
    }
}

/// The spans after a closing tag `name` that ends at `end`: the nearest
/// element that waits for it is resolved, and where none waits nothing
/// changes.
pub open spec fn close_last(spans: Seq<SpanView>, name: Seq<char>, end: int) -> Seq<SpanView> {
    let at = last_open(spans, name, spans.len() as int);
    if at < 0 {
        spans
    } else {
        spans.update(at, SpanView { end, ..spans[at] })
    }
}

/// The cursors after the character at `i` was looked at.
pub open spec fn mark(text: Seq<char>, st: Scan, i: int) -> Scan {
    let c = text[i];
    if c == '<' {
        Scan {
            text_end: if st.text_start is Some {
                Some(i)
            } else {
                st.text_end
            },
            tag_start: Some(i),
            ..st
        }
    } else if i == text.len() - 1 && c != '>' {
        Scan { text_end: Some(i + 1), ..st }
    } else if c == '>' {
        Scan { tag_end: Some(i + 1), ..st }
    } else {
        st
    }
}

/// The state after the complete tag `start..end` was taken: a closing tag
/// resolves an element, any other tag becomes a span, resolved at once if
/// its name is that of a void element.
pub open spec fn take_tag(text: Seq<char>, st: Scan, start: int, end: int) -> Scan {
    let name = tag_name(text, start, end);
    let spans = if text[start + 1] == '/' {
        close_last(st.spans, name.drop_first(), end)
    } else {
        st.spans.push(
            SpanView {
                name,
                start,
                end: if is_void_name(name) {
                    end
                } else {
                    0
                },
            },
        )
    };
    Scan { spans, tag_start: None, tag_end: None, ..st }
}

/// The state after the text cursors were looked at, at the character `i`:
/// text starts here where neither a tag nor text is being read, and text
/// that has both its ends becomes a span.
pub open spec fn take_text(st: Scan, i: int) -> Scan {
    let st = if st.tag_start is None && st.tag_end is None && st.text_start is None {
        Scan { text_start: Some(i), ..st }
    } else {
        st
    };
    if st.text_start is Some && st.text_end is Some {
        Scan {
            spans: st.spans.push(
                SpanView { name: text_name(), start: st.text_start->0, end: st.text_end->0 },
            ),
            text_start: None,
            text_end: None,
            ..st
        }
    } else {
        st
    }
}

/// The state after the character at `i`.
pub open spec fn step(text: Seq<char>, st: Scan, i: int) -> Scan {
    if st.fault is Some {
        st
    } else {
        let m = mark(text, st, i);
        if m.tag_start is Some && m.tag_end is Some {
            if m.tag_end->0 <= m.tag_start->0 {
                Scan { fault: Some(i), ..m }
            } else {
                take_tag(text, m, m.tag_start->0, m.tag_end->0)
            }
        } else {
            take_text(m, i)
        }
    }
}

/// The state after the first `n` characters.
pub open spec fn scan(text: Seq<char>, n: int) -> Scan
    decreases n,
{
    if n <= 0 {
        scan_start()
    } else {
        step(text, scan(text, n - 1), n - 1)
    }
}

/// The spans of `text`, or the offset at which the scan gave up.
pub open spec fn tokenize(text: Seq<char>) -> Result<Seq<SpanView>, ParseError> {
    let st = scan(text, text.len() as int);
    match st.fault {
        Some(at) => Err(ParseError::MisplacedBracket { at: at as usize }),
        None => Ok(st.spans),
    }
}

/// What holds of every span that the scan has found in the first `n`
/// characters: it starts inside them, and it either waits for its closing
/// tag or ends behind its start and inside them.
pub open spec fn span_in(s: SpanView, n: int) -> bool {
    &&& 0 <= s.start < n
    &&& (s.end == 0 || s.start < s.end <= n)
}

/// What holds of the state after `n` characters of `text`: every span lies
/// in what was read, the spans start one behind the other, and the cursors
/// point at what they are named after.
pub open spec fn scan_inv(text: Seq<char>, st: Scan, n: int) -> bool {
    &&& 0 <= n <= text.len()
    &&& forall|k: int| 0 <= k < st.spans.len() ==> span_in(#[trigger] st.spans[k], n)
    &&& forall|j: int, k: int|
        0 <= j < k < st.spans.len() ==> (#[trigger] st.spans[j]).start < (
        #[trigger] st.spans[k]).start
    &&& st.fault is Some ==> 0 <= st.fault->0 < n
    &&& st.fault is None ==> {
        &&& st.tag_start is Some ==> {
            &&& 0 <= st.tag_start->0 < n
            &&& text[st.tag_start->0] == '<'
            &&& st.tag_end is None
            &&& st.text_start is None
        }
        &&& st.tag_end is Some ==> 1 <= st.tag_end->0 <= n && text[st.tag_end->0 - 1] == '>'
        &&& st.text_start is Some ==> 0 <= st.text_start->0 < n
        &&& st.text_end is Some ==> n == text.len() && st.text_end->0 == n && st.text_start
            is None
        &&& forall|k: int|
            0 <= k < st.spans.len() ==> {
                &&& st.text_start is Some ==> (#[trigger] st.spans[k]).start < st.text_start->0
                &&& st.tag_start is Some ==> st.spans[k].start < st.tag_start->0
            }
    }
}

/// Resolving an element keeps the spans where they start and gives one of
/// them the new end.
pub proof fn lemma_close_last(spans: Seq<SpanView>, name: Seq<char>, end: int)
    ensures
        close_last(spans, name, end).len() == spans.len(),
        forall|k: int|
            0 <= k < spans.len() ==> {
                let s = #[trigger] close_last(spans, name, end)[k];
                &&& s.start == spans[k].start
                &&& s.name == spans[k].name
                &&& (s.end == spans[k].end || (spans[k].end == 0 && s.end == end))
            },
{
    lemma_last_open(spans, name, spans.len() as int);
}

/// `last_open` returns the last span that waits.
pub proof fn lemma_last_open(spans: Seq<SpanView>, name: Seq<char>, upto: int)
    requires
        upto <= spans.len(),
    ensures
        -1 <= last_open(spans, name, upto) < upto || (upto < 0 && last_open(spans, name, upto)
            == -1),
        last_open(spans, name, upto) >= 0 ==> awaits(spans[last_open(spans, name, upto)], name),
        forall|k: int| last_open(spans, name, upto) < k < upto && 0 <= k ==> !awaits(spans[k], name),
    decreases upto,
{
    if upto > 0 && !awaits(spans[upto - 1], name) {
        lemma_last_open(spans, name, upto - 1);
    }
}

/// One step keeps what holds of the state.
pub proof fn lemma_step_inv(text: Seq<char>, st: Scan, i: int)
    requires
        scan_inv(text, st, i),
        i < text.len(),
    ensures
        scan_inv(text, step(text, st, i), i + 1),
{
    if st.fault is None {
        let m = mark(text, st, i);
        if m.tag_start is Some && m.tag_end is Some {
            let s = m.tag_start->0;
            let e = m.tag_end->0;
            if e > s {
                let next = take_tag(text, m, s, e);
                if text[s + 1] == '/' {
                    lemma_close_last(
                        st.spans,
                        tag_name(text, s, e).drop_first(),
                        e,
                    );
                }
                assert(scan_inv(text, next, i + 1));
            }
        } else {
            let next = take_text(m, i);
            assert(scan_inv(text, next, i + 1));
        }
    }
}

/// What holds of the state after any number of characters.
pub proof fn lemma_scan_inv(text: Seq<char>, n: int)
    requires
        0 <= n <= text.len(),
    ensures
        scan_inv(text, scan(text, n), n),
    decreases n,
{
    if n > 0 {
        lemma_scan_inv(text, n - 1);
        lemma_step_inv(text, scan(text, n - 1), n - 1);
    }
}

/// Resolves the nearest element that waits for the closing tag `name`.
pub fn set_end_coord_of_last_ir_node(nodes: &mut Vec<Span>, name: &str, end_coord: usize)
    ensures
        span_views(final(nodes)@) == close_last(span_views(old(nodes)@), name@, end_coord as int),
{
    let ghost before = span_views(nodes@);
    let mut i: usize = nodes.len();
    while i > 0
        invariant
            i <= nodes@.len(),
            nodes@ == old(nodes)@,
            before == span_views(nodes@),
            last_open(before, name@, before.len() as int) == last_open(before, name@, i as int),
        decreases i,
    {
        if nodes[i - 1].end == 0 && nodes[i - 1].name.as_str().eq(name) {
            nodes[i - 1].end = end_coord;
            assert(span_views(nodes@) =~= close_last(before, name@, end_coord as int));
            return ;
        }
        i -= 1;
    }
}

/// Scans `html` and returns its spans in the order in which they start, or
/// the fault at which the scan gave up.
pub fn create_ir_nodes(html: &Vec<char>) -> (out: Result<Vec<Span>, ParseError>)
    ensures
        match out {
            Ok(spans) => tokenize(html@) == Ok::<Seq<SpanView>, ParseError>(span_views(spans@)),
            Err(e) => tokenize(html@) == Err::<Seq<SpanView>, ParseError>(e),
        },
{
    let mut ir_nodes: Vec<Span> = Vec::new();
    let mut tag_start: Option<usize> = None;
    let mut tag_end: Option<usize> = None;
    let mut text_start: Option<usize> = None;
    let mut text_end: Option<usize> = None;
    let n = html.len();
    let mut i: usize = 0;
    assert(span_views(ir_nodes@) =~= scan_start().spans);
    while i < n
        invariant
            n == html@.len(),
            i <= n,
            scan(html@, i as int) == (Scan {
                spans: span_views(ir_nodes@),
                tag_start: cursor(tag_start),
                tag_end: cursor(tag_end),
                text_start: cursor(text_start),
                text_end: cursor(text_end),
                fault: None,
            }),
        decreases n - i,
    {
        let ghost st = scan(html@, i as int);
        proof {
            lemma_scan_inv(html@, i as int);
            assert(scan(html@, i + 1) == step(html@, st, i as int));
        }
        let c = html[i];
        if c == '<' {
            if text_start.is_some() {
                text_end = Some(i);
            }
            tag_start = Some(i);
        } else if i == n - 1 && c != '>' {
            text_end = Some(i + 1);
        } else if c == '>' {
            tag_end = Some(i + 1);
        }
        let ghost m = mark(html@, st, i as int);
        assert(m == (Scan {
            spans: span_views(ir_nodes@),
            tag_start: cursor(tag_start),
            tag_end: cursor(tag_end),
            text_start: cursor(text_start),
            text_end: cursor(text_end),
            fault: None,
        }));

        let mut tag_taken = false;
        if let Some(start) = tag_start {
            if let Some(end) = tag_end {
                if end <= start {
                    proof {
                        lemma_faulted(html@, i as int + 1, n as int);
                    }
                    return Err(ParseError::MisplacedBracket { at: i });
                }
                proof {
                    lemma_find_char(html@, ' ', start + 1, end - 1);
                }
                let name_end = find_char_in(html, ' ', start + 1, end - 1);
                let name = string_of(html, start + 1, name_end);
                if html[start + 1] == '/' {
                    let closed = string_of(html, start + 2, name_end);
                    assert(closed@ =~= name@.drop_first());
                    set_end_coord_of_last_ir_node(&mut ir_nodes, closed.as_str(), end);
                } else {
                    let void = is_void(name.as_str());
                    let ghost before = span_views(ir_nodes@);
                    let span = Span { name, start, end: if void { end } else { 0 } };
                    ir_nodes.push(span);
                    assert(span_views(ir_nodes@) =~= before.push(span@));
                }
                tag_start = None;
                tag_end = None;
                tag_taken = true;
            }
        }
        if !tag_taken {
            if tag_start.is_none() && tag_end.is_none() && text_start.is_none() {
                text_start = Some(i);
            }
            if let Some(start) = text_start {
                if let Some(end) = text_end {
                    let ghost before = span_views(ir_nodes@);
                    let span = Span { name: "_text_node".to_owned(), start, end };
                    ir_nodes.push(span);
                    assert(span_views(ir_nodes@) =~= before.push(span@));
                    text_start = None;
                    text_end = None;
                }
            }
        }
        i += 1;
    }
    Ok(ir_nodes)
}

/// The offset that a cursor of the scan holds.
pub open spec fn cursor(c: Option<usize>) -> Option<int> {
    match c {
        Some(v) => Some(v as int),
        None => None,
    }
}

/// Once the scan has given up, its state stays as it is.
pub proof fn lemma_faulted(text: Seq<char>, n: int, m: int)
    requires
        0 <= n <= m,
        scan(text, n).fault is Some,
    ensures
        scan(text, m) == scan(text, n),
    decreases m - n,
{
    if n < m {
        lemma_faulted(text, n, m - 1);
    }
}

} // verus!
