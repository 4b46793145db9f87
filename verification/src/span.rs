//! Spans: the occurrences of tags and of text that the tokenizer finds in
//! the source, each with its range of character offsets.

use vstd::prelude::*;

verus! {

/// A tag or a run of text in the source: a name and the half-open range
/// `start..end` of offsets, which count characters. An element that has not met its
/// closing tag yet has `end == 0`.
#[derive(Debug, PartialEq)]
pub struct Span {
    pub name: String,
    pub start: usize,
    pub end: usize,
}

/// What a span stands for.
pub struct SpanView {
    pub name: Seq<char>,
    pub start: int,
    pub end: int,
}

impl View for Span {
    type V = SpanView;

    open spec fn view(&self) -> SpanView {
        SpanView { name: self.name@, start: self.start as int, end: self.end as int }
    }
}

impl Clone for Span {
    fn clone(&self) -> (out: Self)
        ensures
            out == *self,
    {
        Span { name: self.name.clone(), start: self.start, end: self.end }
    }
}

/// What a sequence of spans stands for, span by span.
pub open spec fn span_views(s: Seq<Span>) -> Seq<SpanView> {
    Seq::new(s.len(), |i: int| s[i]@)
}

/// The name that marks a span of text. No tag is told apart from text by
/// anything else, so a tag of this name is read as text.
pub open spec fn text_name() -> Seq<char> {
    "_text_node"@
}

/// Whether `name` is one of the elements that never have children nor a
/// closing tag.
pub open spec fn is_void_name(name: Seq<char>) -> bool {
    ||| name == "!doctype"@
    ||| name == "area"@
    ||| name == "base"@
    ||| name == "br"@
    ||| name == "col"@
    ||| name == "embed"@
    ||| name == "hr"@
    ||| name == "img"@
    ||| name == "input"@
    ||| name == "link"@
    ||| name == "meta"@
    ||| name == "source"@
    ||| name == "track"@
    ||| name == "wbr"@
}

/// Whether `name` names a void element.
pub fn is_void(name: &str) -> (r: bool)
    ensures
        r == is_void_name(name@),
{
    name.eq("!doctype") || name.eq("area") || name.eq("base") || name.eq("br") || name.eq("col")
        || name.eq("embed") || name.eq("hr") || name.eq("img") || name.eq("input") || name.eq(
        "link",
    ) || name.eq("meta") || name.eq("source") || name.eq("track") || name.eq("wbr")
}

/// Whether `name` is the name that marks text.
pub fn is_text(name: &str) -> (r: bool)
    ensures
        r == (name@ == text_name()),
{
    name.eq("_text_node")
}

/// A span is resolved once its end lies behind its start.
pub open spec fn resolved(s: SpanView) -> bool {
    s.start < s.end
}

/// Why a source text has no tree. Offsets count characters.
#[derive(Debug, Clone, Copy, PartialEq, Eq)]
pub enum ParseError {
    /// A `>` that closes no tag came before the `<` at offset `at`.
    MisplacedBracket { at: usize },
    /// The element whose tag opens at offset `at` is never closed.
    UnclosedTag { at: usize },
}

} // verus!
