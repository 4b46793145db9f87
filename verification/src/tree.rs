//! The tree builder, and the parser that the three stages make together:
//! tokenizer, forest, tree.
//!
//! A source in which an element is never closed, or in which the scan gives
//! up, has no tree. `try_nodes` says so with an error; `nodes` is for
//! sources that are known to have a tree.

use vstd::prelude::*;
use crate::decoder::{attrs_from_coords, decode_attrs};
use crate::forest::{all_spans, ir_views, join, join_ir_nodes, lemma_ir_view, lemma_join_from, IrNode, IrNodeView};
use crate::node::{lemma_view_children, views, BlockNode, Node, NodeView, TextNode, VoidNode};
use crate::span::{is_text, is_void, is_void_name, resolved, span_views, text_name, ParseError, Span, SpanView};
use crate::text::{chars_of, string_of};
use crate::tokenizer::{create_ir_nodes, lemma_scan_inv, scan, tokenize};

verus! {

/// The node that the tree of spans `n` stands for in `text`: a span of text
/// is the text of its range, a span with the name of a void element is that
/// element without children, whatever spans it holds, and any other span is
/// an element with the nodes of its children. Elements get the attributes
/// that their span decodes to.
pub open spec fn build_node(text: Seq<char>, n: IrNodeView) -> NodeView
    decreases n,
{
    if n.span.name == text_name() {
        NodeView::Text { value: text.subrange(n.span.start, n.span.end) }
    } else if is_void_name(n.span.name) {
        NodeView::Void {
            name: n.span.name,
            attributes: decode_attrs(text, n.span.start, n.span.end),
        }
    } else {
        NodeView::Block {
            name: n.span.name,
            attributes: decode_attrs(text, n.span.start, n.span.end),
            children: Seq::new(
                n.children.len(),
                |i: int|
                    if 0 <= i < n.children.len() {
                        build_node(text, n.children[i])
                    } else {
                        arbitrary()
                    },
            ),
        }
    }
}

/// The nodes that a forest of spans stands for in `text`.
pub open spec fn build(text: Seq<char>, forest: Seq<IrNodeView>) -> Seq<NodeView> {
    Seq::new(forest.len(), |i: int| build_node(text, forest[i]))
}

/// The node of an element holds the nodes of its children.
pub proof fn lemma_build_block(text: Seq<char>, n: IrNodeView)
    requires
        n.span.name != text_name(),
        !is_void_name(n.span.name),
    ensures
        build_node(text, n) == (NodeView::Block {
            name: n.span.name,
            attributes: decode_attrs(text, n.span.start, n.span.end),
            children: build(text, n.children),
        }),
{
    reveal_with_fuel(build_node, 2);
    assert(build_node(text, n)->Block_children =~= build(text, n.children));
}

/// Whether the range of `s` can be cut out of a text of `len` characters.
pub open spec fn cuts(len: int) -> spec_fn(SpanView) -> bool {
    |s: SpanView| 0 <= s.start <= s.end <= len
}

/// The nodes that the forest `ir_nodes` stands for in `html`.
pub fn create_nodes(html: &Vec<char>, ir_nodes: &Vec<IrNode>) -> (out: Vec<Node>)
    requires
        forall|i: int|
            0 <= i < ir_nodes@.len() ==> all_spans(
                #[trigger] ir_views(ir_nodes@)[i],
                cuts(html@.len() as int),
            ),
    ensures
        views(out@) == build(html@, ir_views(ir_nodes@)),
    decreases ir_nodes,
{
    let mut out: Vec<Node> = Vec::new();
    let mut i: usize = 0;
    while i < ir_nodes.len()
        invariant
            i <= ir_nodes@.len(),
            out@.len() == i,
            forall|j: int|
                0 <= j < ir_nodes@.len() ==> all_spans(
                    #[trigger] ir_views(ir_nodes@)[j],
                    cuts(html@.len() as int),
                ),
            forall|j: int|
                0 <= j < i ==> (#[trigger] out@[j])@ == build_node(html@, ir_nodes@[j]@),
        decreases ir_nodes@.len() - i,
    {
        let ir_node = &ir_nodes[i];
        proof {
            lemma_ir_view(*ir_node);
            assert(all_spans(ir_views(ir_nodes@)[i as int], cuts(html@.len() as int)));
        }
        let name = ir_node.span.name.as_str();
        let node = if is_text(name) {
            Node::Text(TextNode { value: string_of(html, ir_node.span.start, ir_node.span.end) })
        } else if is_void(name) {
            Node::Void(
                VoidNode {
                    name: ir_node.span.name.clone(),
                    attributes: attrs_from_coords(html, ir_node.span.start, ir_node.span.end),
                },
            )
        } else {
            proof {
                lemma_build_block(html@, ir_node@);
                assert forall|j: int| 0 <= j < ir_node.children@.len() implies all_spans(
                    #[trigger] ir_views(ir_node.children@)[j],
                    cuts(html@.len() as int),
                ) by {
                    assert(ir_views(ir_node.children@)[j] == ir_node@.children[j]);
                }
            }
            let block = Node::Block(
                BlockNode {
                    name: ir_node.span.name.clone(),
                    attributes: attrs_from_coords(html, ir_node.span.start, ir_node.span.end),
                    children: create_nodes(html, &ir_node.children),
                },
            );
            proof {
                lemma_view_children(block);
            }
            block
        };
        out.push(node);
        i += 1;
    }
    assert(views(out@) =~= build(html@, ir_views(ir_nodes@)));
    out
}

/// The index of the first span from `from` on that is not resolved, or the
/// number of spans when all are.
pub open spec fn first_unresolved(spans: Seq<SpanView>, from: int) -> int
    decreases spans.len() - from,
{
    if from < 0 || from >= spans.len() {
        spans.len() as int
    } else if !resolved(spans[from]) {
        from
    } else {
        first_unresolved(spans, from + 1)
    }
}

/// From `first_unresolved` on backwards, every span is resolved.
pub proof fn lemma_first_unresolved(spans: Seq<SpanView>, from: int)
    requires
        0 <= from,
    ensures
        from <= first_unresolved(spans, from) || first_unresolved(spans, from) == spans.len(),
        first_unresolved(spans, from) <= spans.len(),
        forall|k: int| from <= k < first_unresolved(spans, from) ==> resolved(#[trigger] spans[k]),
        first_unresolved(spans, from) < spans.len() ==> !resolved(
            spans[first_unresolved(spans, from)],
        ),
    decreases spans.len() - from,
{
    if from < spans.len() && resolved(spans[from]) {
        lemma_first_unresolved(spans, from + 1);
    }
}

/// The tree of `text`, or why it has none. The source is scanned for its
/// spans; if the scan gives up, or if an element is never closed, there is
/// no tree. Otherwise the spans are joined to a forest and the forest is
/// built into nodes.
pub open spec fn parse(text: Seq<char>) -> Result<Seq<NodeView>, ParseError> {
    match tokenize(text) {
        Err(e) => Err(e),
        Ok(spans) => {
            let k = first_unresolved(spans, 0);
            if k < spans.len() {
                Err(ParseError::UnclosedTag { at: spans[k].start as usize })
            } else {
                Ok(build(text, join(spans)))
            }
        },
    }
}

/// The first span that is not resolved, if there is one.
fn find_unresolved(spans: &Vec<Span>) -> (out: Option<usize>)
    ensures
        match out {
            Some(k) => k == first_unresolved(span_views(spans@), 0) && k < spans@.len(),
            None => first_unresolved(span_views(spans@), 0) == spans@.len(),
        },
{
    let ghost views = span_views(spans@);
    let mut i: usize = 0;
    while i < spans.len()
        invariant
            i <= spans@.len(),
            views == span_views(spans@),
            first_unresolved(views, 0) == first_unresolved(views, i as int),
        decreases spans@.len() - i,
    {
        if !(spans[i].start < spans[i].end) {
            return Some(i);
        }
        i += 1;
    }
    None
}

/// Parses `html` into its node tree, or says why it has none.
pub fn try_nodes(html: String) -> (out: Result<Vec<Node>, ParseError>)
    ensures
        match out {
            Ok(tree) => parse(html@) == Ok::<Seq<NodeView>, ParseError>(views(tree@)),
            Err(e) => parse(html@) == Err::<Seq<NodeView>, ParseError>(e),
        },
{
    let chars = chars_of(html.as_str());
    let ir_nodes = match create_ir_nodes(&chars) {
        Ok(spans) => spans,
        Err(e) => {
            return Err(e);
        },
    };
    let ghost spans = span_views(ir_nodes@);
    match find_unresolved(&ir_nodes) {
        Some(k) => {
            return Err(ParseError::UnclosedTag { at: ir_nodes[k].start });
        },
        None => {},
    }
    proof {
        let len = chars@.len() as int;
        lemma_scan_inv(chars@, len);
        lemma_first_unresolved(spans, 0);
        assert(scan(chars@, len).spans == spans);
        assert forall|j: int| 0 <= j < spans.len() implies cuts(len)(#[trigger] spans[j]) by {
            assert(resolved(spans[j]));
        }
        lemma_join_from(spans, 0, Set::empty(), cuts(len));
    }
    let joined_ir_nodes = join_ir_nodes(ir_nodes);
    Ok(create_nodes(&chars, &joined_ir_nodes))
}

/// Parses `html` into its node tree.
pub fn nodes(html: String) -> (out: Vec<Node>)
    requires
        parse(html@) is Ok,
    ensures
        parse(html@) == Ok::<Seq<NodeView>, ParseError>(views(out@)),
{
    match try_nodes(html) {
        Ok(tree) => tree,
        Err(_) => Vec::new(),
    }
}

} // verus!
