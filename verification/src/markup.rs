//! The markup serializer: from a node tree back to markup text.
//!
//! Nothing is escaped. Attributes are written in ascending lexicographic
//! order of their names, whatever the order in which the map was filled.

use vstd::prelude::*;
use vstd::string::StringExecFns;
use crate::attrs::{entry_names, ordered_names, AttrMap, AttrView, Attrs, NodeAttrVal};
use crate::node::{lemma_view_children, views, Node, NodeView};

verus! {

/// One attribute as it is written: a space and the name, and behind it,
/// where the attribute has a value, `="value"`.
pub open spec fn render_attr(name: Seq<char>, value: AttrView) -> Seq<char> {
    match value {
        AttrView::True => seq![' '] + name,
        AttrView::String(text) => seq![' '] + name + seq!['=', '"'] + text + seq!['"'],
    }
}

/// The attributes `names` of `m` as they are written, one behind the other.
pub open spec fn render_names(names: Seq<Seq<char>>, m: Attrs) -> Seq<char>
    decreases names.len(),
{
    if names.len() == 0 {
        Seq::empty()
    } else {
        render_names(names.drop_last(), m) + render_attr(names.last(), m[names.last()])
    }
}

/// The attributes of `m` as they are written: in ascending order of their
/// names. A map without attributes writes nothing.
pub open spec fn render_attrs(m: Attrs) -> Seq<char> {
    render_names(ordered_names(m), m)
}

/// A node as it is written.
pub open spec fn render_node(n: NodeView) -> Seq<char>
    decreases n,
{
    match n {
        NodeView::Block { name, attributes, children } => seq!['<'] + name + render_attrs(
            attributes,
        ) + seq!['>'] + render_nodes(children) + seq!['<', '/'] + name + seq!['>'],
        NodeView::Text { value } => value,
        NodeView::Void { name, attributes } => seq!['<'] + name + render_attrs(attributes) + seq![
            '>',
        ],
        NodeView::Fragment { children } => render_nodes(children),
    }
}

/// Nodes as they are written, one behind the other.
pub open spec fn render_nodes(s: Seq<NodeView>) -> Seq<char>
    decreases s,
{
    if s.len() == 0 {
        Seq::empty()
    } else {
        render_nodes(s.drop_last()) + render_node(s.last())
    }
}

/// Appends the attributes of `attrs` to `out`.
fn push_attrs(out: &mut String, attrs: &AttrMap)
    ensures
        final(out)@ == old(out)@ + render_attrs(attrs@),
{
    let entries = attrs.entries();
    let ghost names = entry_names(entries@);
    let ghost m = attrs@;
    let mut i: usize = 0;
    assert(names.take(0) =~= Seq::<Seq<char>>::empty());
    while i < entries.len()
        invariant
            i <= entries@.len(),
            names == entry_names(entries@),
            names == ordered_names(m),
            forall|j: int|
                0 <= j < entries@.len() ==> m.contains_key(#[trigger] entries@[j].0@)
                    && m[entries@[j].0@] == entries@[j].1@,
            out@ == old(out)@ + render_names(names.take(i as int), m),
        decreases entries@.len() - i,
    {
        let ghost before = out@;
        out.push(' ');
        out.append(entries[i].0.as_str());
        match &entries[i].1 {
            NodeAttrVal::True => {},
            NodeAttrVal::String(text) => {
                out.push('=');
                out.push('"');
                out.append(text.as_str());
                out.push('"');
            },
        }
        proof {
            let upto = names.take(i + 1);
            assert(upto.drop_last() =~= names.take(i as int));
            assert(upto.last() == entries@[i as int].0@);
            assert(out@ =~= before + render_attr(upto.last(), m[upto.last()]));
            assert(out@ =~= old(out)@ + render_names(upto, m));
        }
        i += 1;
    }
    assert(names.take(names.len() as int) =~= names);
}

/// The attributes of `attrs` as they are written.
pub fn attrs_to_html_str(attrs: &AttrMap) -> (out: String)
    ensures
        out@ == render_attrs(attrs@),
{
    let mut out = String::new();
    push_attrs(&mut out, attrs);
    assert(Seq::<char>::empty() + render_attrs(attrs@) =~= render_attrs(attrs@));
    out
}

/// Appends `nodes` to `out` as they are written.
fn push_nodes(out: &mut String, nodes: &Vec<Node>)
    ensures
        final(out)@ == old(out)@ + render_nodes(views(nodes@)),
    decreases nodes,
{
    let ghost all = views(nodes@);
    let mut i: usize = 0;
    assert(all.take(0) =~= Seq::<NodeView>::empty());
    assert(out@ =~= old(out)@ + render_nodes(all.take(0)));
    while i < nodes.len()
        invariant
            i <= nodes@.len(),
            all == views(nodes@),
            out@ == old(out)@ + render_nodes(all.take(i as int)),
        decreases nodes@.len() - i,
    {
        let ghost before = out@;
        proof {
            lemma_view_children(nodes@[i as int]);
        }
        match &nodes[i] {
            Node::Block(block) => {
                out.push('<');
                out.append(block.name.as_str());
                push_attrs(out, &block.attributes);
                out.push('>');
                push_nodes(out, &block.children);
                out.push('<');
                out.push('/');
                out.append(block.name.as_str());
                out.push('>');
            },
            Node::Text(text) => {
                out.append(text.value.as_str());
            },
            Node::Void(void) => {
                out.push('<');
                out.append(void.name.as_str());
                push_attrs(out, &void.attributes);
                out.push('>');
            },
            Node::Fragment(fragment) => {
                push_nodes(out, &fragment.children);
            },
        }
        proof {
            let upto = all.take(i + 1);
            assert(upto.drop_last() =~= all.take(i as int));
            assert(upto.last() == nodes@[i as int]@);
            assert(out@ =~= before + render_node(upto.last()));
            assert(out@ =~= old(out)@ + render_nodes(upto));
        }
        i += 1;
    }
    assert(all.take(all.len() as int) =~= all);
}

/// The markup of `nodes`.
pub fn to_html(nodes: Vec<Node>) -> (out: String)
    ensures
        out@ == render_nodes(views(nodes@)),
{
    let mut out = String::new();
    push_nodes(&mut out, &nodes);
    assert(Seq::<char>::empty() + render_nodes(views(nodes@)) =~= render_nodes(views(nodes@)));
    out
}

} // verus!
