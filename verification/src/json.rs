//! The data serializer: from a node tree to JSON text, one record for each
//! node.
//!
//! The records are text `{"value"}`, a void element `{"name", "attributes"}`,
//! an element `{"name", "attributes", "children"}` and a fragment
//! `{"children"}`. The attributes are an object whose keys ascend; an
//! attribute that is merely present has the value `true`. Strings are
//! written as `serde_json` writes them.

use vstd::prelude::*;
use vstd::string::StringExecFns;
use crate::attrs::{entry_names, ordered_names, AttrMap, AttrView, Attrs, NodeAttrVal};
use crate::node::{lemma_view_children, views, Node, NodeView};

verus! {

/// `serde_json::Error`: it is handed on as it comes and never looked into.
#[verifier::external_type_specification]
#[verifier::external_body]
pub struct ExJsonError(serde_json::Error);

/// What `serde_json` writes for the text `s`: the JSON string literal of
/// `s`, the text between double quotes with the escapes that JSON asks for;
/// or nothing, where it reports an error.
pub uninterp spec fn json_string(s: Seq<char>) -> Option<Seq<char>>;

/// `serde_json::to_string`, called on a string slice. What it returns,
/// the text or the error, is assumed to depend on the characters of the
/// slice alone.
#[verifier::external_body]
fn quote(s: &str) -> (out: Result<String, serde_json::Error>)
    ensures
        match out {
            Ok(q) => json_string(s@) == Some(q@),
            Err(_) => json_string(s@) is None,
        },
{
    serde_json::to_string(s)
}

/// A string of the tree has no JSON string literal.
#[derive(Debug, Clone, Copy, PartialEq, Eq)]
pub struct EncodeError;

/// `before` and then `text`, where there is a text.
pub open spec fn prefixed(before: Seq<char>, text: Option<Seq<char>>) -> Option<Seq<char>> {
    match text {
        Some(t) => Some(before + t),
        None => None,
    }
}

/// The value of an attribute as JSON.
pub open spec fn json_value(v: AttrView) -> Option<Seq<char>> {
    match v {
        AttrView::True => Some("true"@),
        AttrView::String(text) => json_string(text),
    }
}

/// One member of the attribute object: the name, a colon, and the value.
pub open spec fn json_member(name: Seq<char>, value: AttrView) -> Option<Seq<char>> {
    match (json_string(name), json_value(value)) {
        (Some(key), Some(value)) => Some(key + ":"@ + value),
        _ => None,
    }
}

/// A comma, behind anything but the first of a list.
pub open spec fn comma(first: bool) -> Seq<char> {
    if first {
        Seq::empty()
    } else {
        ","@
    }
}

/// The members of the attribute object for the names `names` of `m`,
/// with commas between them.
pub open spec fn json_members(names: Seq<Seq<char>>, m: Attrs) -> Option<Seq<char>>
    decreases names.len(),
{
    if names.len() == 0 {
        Some(Seq::empty())
    } else {
        match (json_members(names.drop_last(), m), json_member(names.last(), m[names.last()])) {
            (Some(before), Some(member)) => Some(before + comma(names.len() == 1) + member),
            _ => None,
        }
    }
}

/// The attributes of `m` as a JSON object whose keys ascend.
pub open spec fn json_attrs(m: Attrs) -> Option<Seq<char>> {
    match json_members(ordered_names(m), m) {
        Some(members) => Some("{"@ + members + "}"@),
        None => None,
    }
}

/// The record of a text whose JSON string literal is `value`.
pub open spec fn text_record(value: Seq<char>) -> Seq<char> {
    "{\"value\":"@ + value + "}"@
}

/// The record of a void element, from the JSON of its name and of its
/// attributes.
pub open spec fn void_record(name: Seq<char>, attributes: Seq<char>) -> Seq<char> {
    "{\"name\":"@ + name + ",\"attributes\":"@ + attributes + "}"@
}

/// The record of an element, from the JSON of its name, of its attributes
/// and of its children.
pub open spec fn block_record(
    name: Seq<char>,
    attributes: Seq<char>,
    children: Seq<char>,
) -> Seq<char> {
    "{\"name\":"@ + name + ",\"attributes\":"@ + attributes + ",\"children\":"@ + children
        + "}"@
}

/// The record of a fragment, from the JSON of its children.
pub open spec fn fragment_record(children: Seq<char>) -> Seq<char> {
    "{\"children\":"@ + children + "}"@
}

/// The record of a node; nothing where a string of the node has no JSON
/// string literal.
pub open spec fn json_node(n: NodeView) -> Option<Seq<char>>
    decreases n, 0nat,
{
    match n {
        NodeView::Block { name, attributes, children } => match (
            json_string(name),
            json_attrs(attributes),
            json_nodes(children),
        ) {
            (Some(name), Some(attributes), Some(children)) => Some(
                block_record(name, attributes, children),
            ),
            _ => None,
        },
        NodeView::Text { value } => match json_string(value) {
            Some(value) => Some(text_record(value)),
            None => None,
        },
        NodeView::Void { name, attributes } => match (json_string(name), json_attrs(attributes)) {
            (Some(name), Some(attributes)) => Some(void_record(name, attributes)),
            _ => None,
        },
        NodeView::Fragment { children } => match json_nodes(children) {
            Some(children) => Some(fragment_record(children)),
            None => None,
        },
    }
}

/// The records of `s` with commas between them.
pub open spec fn json_items(s: Seq<NodeView>) -> Option<Seq<char>>
    decreases s, 0nat,
{
    if s.len() == 0 {
        Some(Seq::empty())
    } else {
        match (json_items(s.drop_last()), json_node(s.last())) {
            (Some(before), Some(item)) => Some(before + comma(s.len() == 1) + item),
            _ => None,
        }
    }
}

/// The JSON array of the records of `s`; nothing where a string of `s` has
/// no JSON string literal.
pub open spec fn json_nodes(s: Seq<NodeView>) -> Option<Seq<char>>
    decreases s, 1nat,
{
    match json_items(s) {
        Some(items) => Some("["@ + items + "]"@),
        None => None,
    }
}

/// Members that cannot be written stay so when more names follow.
pub proof fn lemma_members_fail(names: Seq<Seq<char>>, m: Attrs, upto: int)
    requires
        0 <= upto <= names.len(),
        json_members(names.take(upto), m) is None,
    ensures
        json_members(names, m) is None,
    decreases names.len() - upto,
{
    if upto < names.len() {
        assert(names.take(upto + 1).drop_last() =~= names.take(upto));
        lemma_members_fail(names, m, upto + 1);
    } else {
        assert(names.take(upto) =~= names);
    }
}

/// Records that cannot be written stay so when more nodes follow.
pub proof fn lemma_items_fail(s: Seq<NodeView>, upto: int)
    requires
        0 <= upto <= s.len(),
        json_items(s.take(upto)) is None,
    ensures
        json_items(s) is None,
    decreases s.len() - upto,
{
    if upto < s.len() {
        assert(s.take(upto + 1).drop_last() =~= s.take(upto));
        lemma_items_fail(s, upto + 1);
    } else {
        assert(s.take(upto) =~= s);
    }
}

/// Appends the JSON string literal of `s` to `out`.
fn push_string(out: &mut String, s: &str) -> (done: Result<(), EncodeError>)
    ensures
        match done {
            Ok(_) => prefixed(old(out)@, json_string(s@)) == Some(final(out)@),
            Err(_) => json_string(s@) is None,
        },
{
    match quote(s) {
        Ok(q) => {
            out.append(q.as_str());
            Ok(())
        },
        Err(_) => Err(EncodeError),
    }
}

/// Appends one member of an attribute object to `out`.
fn push_member(out: &mut String, name: &str, value: &NodeAttrVal) -> (done: Result<
    (),
    EncodeError,
>)
    ensures
        match done {
            Ok(_) => prefixed(old(out)@, json_member(name@, value@)) == Some(final(out)@),
            Err(_) => json_member(name@, value@) is None,
        },
{
    match push_string(out, name) {
        Ok(()) => {},
        Err(e) => {
            return Err(e);
        },
    }
    out.append(":");
    match value {
        NodeAttrVal::True => {
            out.append("true");
        },
        NodeAttrVal::String(text) => {
            match push_string(out, text.as_str()) {
                Ok(()) => {},
                Err(e) => {
                    return Err(e);
                },
            }
        },
    }
    assert(out@ =~= old(out)@ + json_member(name@, value@)->0);
    Ok(())
}

/// Appends the attribute object of `attrs` to `out`.
fn push_attrs(out: &mut String, attrs: &AttrMap) -> (done: Result<(), EncodeError>)
    ensures
        match done {
            Ok(_) => prefixed(old(out)@, json_attrs(attrs@)) == Some(final(out)@),
            Err(_) => json_attrs(attrs@) is None,
        },
{
    let entries = attrs.entries();
    let ghost names = entry_names(entries@);
    let ghost m = attrs@;
    out.append("{");
    let mut i: usize = 0;
    assert(names.take(0) =~= Seq::<Seq<char>>::empty());
    assert(out@ =~= old(out)@ + "{"@ + json_members(names.take(0), m)->0);
    while i < entries.len()
        invariant
            i <= entries@.len(),
            m == attrs@,
            names == entry_names(entries@),
            names == ordered_names(m),
            forall|j: int|
                0 <= j < entries@.len() ==> m.contains_key(#[trigger] entries@[j].0@)
                    && m[entries@[j].0@] == entries@[j].1@,
            json_members(names.take(i as int), m) is Some,
            out@ == old(out)@ + "{"@ + json_members(names.take(i as int), m)->0,
        decreases entries@.len() - i,
    {
        let ghost upto = names.take(i + 1);
        proof {
            assert(upto.drop_last() =~= names.take(i as int));
            assert(upto.last() == entries@[i as int].0@);
        }
        if i > 0 {
            out.append(",");
        }
        match push_member(out, entries[i].0.as_str(), &entries[i].1) {
            Ok(()) => {},
            Err(e) => {
                proof {
                    assert(m[upto.last()] == entries@[i as int].1@);
                    assert(json_members(upto, m) is None);
                    lemma_members_fail(names, m, i + 1);
                }
                return Err(e);
            },
        }
        assert(out@ =~= old(out)@ + "{"@ + json_members(upto, m)->0);
        i += 1;
    }
    out.append("}");
    proof {
        assert(names.take(names.len() as int) =~= names);
        assert(out@ =~= old(out)@ + json_attrs(m)->0);
    }
    Ok(())
}

/// Appends the record of `node` to `out`.
fn push_node(out: &mut String, node: &Node) -> (done: Result<(), EncodeError>)
    ensures
        match done {
            Ok(_) => prefixed(old(out)@, json_node(node@)) == Some(final(out)@),
            Err(_) => json_node(node@) is None,
        },
    decreases node, 0nat,
{
    proof {
        lemma_view_children(*node);
    }
    match node {
        Node::Block(block) => {
            out.append("{\"name\":");
            match push_string(out, block.name.as_str()) {
                Ok(()) => {},
                Err(e) => {
                    return Err(e);
                },
            }
            out.append(",\"attributes\":");
            match push_attrs(out, &block.attributes) {
                Ok(()) => {},
                Err(e) => {
                    return Err(e);
                },
            }
            out.append(",\"children\":");
            match push_nodes(out, &block.children) {
                Ok(()) => {},
                Err(e) => {
                    return Err(e);
                },
            }
            out.append("}");
            assert(out@ =~= old(out)@ + json_node(node@)->0);
        },
        Node::Text(text) => {
            out.append("{\"value\":");
            match push_string(out, text.value.as_str()) {
                Ok(()) => {},
                Err(e) => {
                    return Err(e);
                },
            }
            out.append("}");
            assert(out@ =~= old(out)@ + json_node(node@)->0);
        },
        Node::Void(void) => {
            out.append("{\"name\":");
            match push_string(out, void.name.as_str()) {
                Ok(()) => {},
                Err(e) => {
                    return Err(e);
                },
            }
            out.append(",\"attributes\":");
            match push_attrs(out, &void.attributes) {
                Ok(()) => {},
                Err(e) => {
                    return Err(e);
                },
            }
            out.append("}");
            assert(out@ =~= old(out)@ + json_node(node@)->0);
        },
        Node::Fragment(fragment) => {
            out.append("{\"children\":");
            match push_nodes(out, &fragment.children) {
                Ok(()) => {},
                Err(e) => {
                    return Err(e);
                },
            }
            out.append("}");
            assert(out@ =~= old(out)@ + json_node(node@)->0);
        },
    }
    Ok(())
}

/// Appends the JSON array of `nodes` to `out`.
fn push_nodes(out: &mut String, nodes: &Vec<Node>) -> (done: Result<(), EncodeError>)
    ensures
        match done {
            Ok(_) => prefixed(old(out)@, json_nodes(views(nodes@))) == Some(final(out)@),
            Err(_) => json_nodes(views(nodes@)) is None,
        },
    decreases nodes, 1nat,
{
    let ghost all = views(nodes@);
    out.append("[");
    let mut i: usize = 0;
    assert(all.take(0) =~= Seq::<NodeView>::empty());
    assert(out@ =~= old(out)@ + "["@ + json_items(all.take(0))->0);
    while i < nodes.len()
        invariant
            i <= nodes@.len(),
            all == views(nodes@),
            json_items(all.take(i as int)) is Some,
            out@ == old(out)@ + "["@ + json_items(all.take(i as int))->0,
        decreases nodes@.len() - i,
    {
        let ghost upto = all.take(i + 1);
        proof {
            assert(upto.drop_last() =~= all.take(i as int));
            assert(upto.last() == nodes@[i as int]@);
        }
        if i > 0 {
            out.append(",");
        }
        match push_node(out, &nodes[i]) {
            Ok(()) => {},
            Err(e) => {
                proof {
                    assert(json_items(upto) is None);
                    lemma_items_fail(all, i + 1);
                }
                return Err(e);
            },
        }
        assert(out@ =~= old(out)@ + "["@ + json_items(upto)->0);
        i += 1;
    }
    out.append("]");
    proof {
        assert(all.take(all.len() as int) =~= all);
        assert(out@ =~= old(out)@ + json_nodes(all)->0);
    }
    Ok(())
}

/// The JSON text that stands for an encoding: the text, or `{}` where
/// there is none.
pub open spec fn json_text(encoded: Option<Seq<char>>) -> Seq<char> {
    match encoded {
        Some(text) => text,
        None => "{}"@,
    }
}

/// The JSON text of `nodes`, or an error where a string of the tree has no
/// JSON string literal.
pub fn try_to_json(nodes: &Vec<Node>) -> (out: Result<String, EncodeError>)
    ensures
        match out {
            Ok(text) => json_nodes(views(nodes@)) == Some(text@),
            Err(_) => json_nodes(views(nodes@)) is None,
        },
{
    let mut text = String::new();
    match push_nodes(&mut text, nodes) {
        Ok(()) => {
            assert(Seq::<char>::empty() + text@ =~= text@);
            Ok(text)
        },
        Err(e) => Err(e),
    }
}

/// The text that was encoded, or `{}` where none could be.
pub fn json_or_empty(encoded: Result<String, EncodeError>) -> (out: String)
    ensures
        match encoded {
            Ok(text) => out@ == text@,
            Err(_) => out@ == "{}"@,
        },
{
    match encoded {
        Ok(text) => text,
        Err(_) => "{}".to_owned(),
    }
}

/// The JSON text of `nodes`; `{}` where a string of the tree has no JSON
/// string literal.
pub fn to_json(nodes: Vec<Node>) -> (out: String)
    ensures
        out@ == json_text(json_nodes(views(nodes@))),
{
    json_or_empty(try_to_json(&nodes))
}

} // verus!
