//! The node tree: elements with children, text, void elements, and the
//! fragments that a traversal splices into their parent.

use vstd::prelude::*;
use crate::attrs::{AttrMap, Attrs};

verus! {

/// A node of the tree.
#[derive(Debug, PartialEq)]
pub enum Node {
    Block(BlockNode),
    Text(TextNode),
    Void(VoidNode),
    Fragment(FragmentNode),
}

/// An element with a closing tag: `<name attributes>children</name>`.
#[derive(Debug, PartialEq)]
pub struct BlockNode {
    pub name: String,
    pub attributes: AttrMap,
    pub children: Vec<Node>,
}

/// Literal text.
#[derive(Debug, PartialEq)]
pub struct TextNode {
    pub value: String,
}

/// An element without children and without a closing tag:
/// `<name attributes>`.
#[derive(Debug, PartialEq)]
pub struct VoidNode {
    pub name: String,
    pub attributes: AttrMap,
}

/// A group of nodes without a tag of its own.
#[derive(Debug, PartialEq)]
pub struct FragmentNode {
    pub children: Vec<Node>,
}

/// What a node stands for: names and text as character sequences,
/// attributes as a map, children as a sequence.
pub enum NodeView {
    Block { name: Seq<char>, attributes: Attrs, children: Seq<NodeView> },
    Text { value: Seq<char> },
    Void { name: Seq<char>, attributes: Attrs },
    Fragment { children: Seq<NodeView> },
}

impl View for Node {
    type V = NodeView;

    open spec fn view(&self) -> NodeView
        decreases self,
    {
        match self {
            Node::Block(b) => NodeView::Block {
                name: b.name@,
                attributes: b.attributes@,
                children: Seq::new(
                    b.children@.len(),
                    |i: int|
                        if 0 <= i < b.children@.len() {
                            b.children@[i]@
                        } else {
                            arbitrary()
                        },
                ),
            },
            Node::Text(t) => NodeView::Text { value: t.value@ },
            Node::Void(v) => NodeView::Void { name: v.name@, attributes: v.attributes@ },
            Node::Fragment(f) => NodeView::Fragment {
                children: Seq::new(
                    f.children@.len(),
                    |i: int|
                        if 0 <= i < f.children@.len() {
                            f.children@[i]@
                        } else {
                            arbitrary()
                        },
                ),
            },
        }
    }
}

/// What a sequence of nodes stands for, node by node.
pub open spec fn views(s: Seq<Node>) -> Seq<NodeView> {
    Seq::new(s.len(), |i: int| s[i]@)
}

/// The view of a node with children holds the views of its children.
pub proof fn lemma_view_children(n: Node)
    ensures
        n matches Node::Block(b) ==> n@ == (NodeView::Block {
            name: b.name@,
            attributes: b.attributes@,
            children: views(b.children@),
        }),
        n matches Node::Fragment(f) ==> n@ == (NodeView::Fragment { children: views(f.children@) }),
{
    reveal_with_fuel(<Node as View>::view, 2);
    match n {
        Node::Block(b) => {
            assert(n@->Block_children =~= views(b.children@));
        },
        Node::Fragment(f) => {
            assert(n@->Fragment_children =~= views(f.children@));
        },
        _ => {},
    }
}

/// A copy of each node of `nodes`.
pub fn clone_nodes(nodes: &Vec<Node>) -> (out: Vec<Node>)
    ensures
        views(out@) == views(nodes@),
    decreases nodes,
{
    let mut out: Vec<Node> = Vec::new();
    let mut i: usize = 0;
    while i < nodes.len()
        invariant
            i <= nodes@.len(),
            out@.len() == i,
            views(out@) == views(nodes@.take(i as int)),
        decreases nodes@.len() - i,
    {
        let ghost before = out@;
        let c = nodes[i].clone();
        out.push(c);
        proof {
            let a = views(out@);
            let b = views(nodes@.take(i + 1));
            assert forall|j: int| 0 <= j < a.len() implies a[j] == b[j] by {
                if j < i {
                    assert(a[j] == views(before)[j]);
                    assert(b[j] == views(nodes@.take(i as int))[j]);
                }
            }
            assert(a =~= b);
        }
        i += 1;
    }
    assert(nodes@.take(nodes@.len() as int) =~= nodes@);
    out
}

impl Clone for Node {
    fn clone(&self) -> (out: Self)
        ensures
            out@ == self@,
        decreases self,
    {
        proof {
            lemma_view_children(*self);
        }
        let out = match self {
            Node::Block(b) => Node::Block(
                BlockNode {
                    name: b.name.clone(),
                    attributes: b.attributes.clone(),
                    children: clone_nodes(&b.children),
                },
            ),
            Node::Text(t) => Node::Text(TextNode { value: t.value.clone() }),
            Node::Void(v) => Node::Void(
                VoidNode { name: v.name.clone(), attributes: v.attributes.clone() },
            ),
            Node::Fragment(f) => Node::Fragment(FragmentNode { children: clone_nodes(&f.children) }),
        };
        proof {
            lemma_view_children(out);
        }
        out
    }
}

impl Node {
    /// An element `name` with the given attributes and children.
    pub fn block(name: &str, attributes: AttrMap, children: Vec<Node>) -> (out: Self)
        ensures
            out@ == (NodeView::Block {
                name: name@,
                attributes: attributes@,
                children: views(children@),
            }),
    {
        let out = Node::Block(BlockNode { name: name.to_owned(), attributes, children });
        proof {
            lemma_view_children(out);
        }
        out
    }

    /// An element `name` without attributes.
    pub fn simple_block(name: &str, children: Vec<Node>) -> (out: Self)
        ensures
            out@ == (NodeView::Block {
                name: name@,
                attributes: Attrs::empty(),
                children: views(children@),
            }),
    {
        Node::block(name, AttrMap::new(), children)
    }

    /// The text `value`.
    pub fn text(value: &str) -> (out: Self)
        ensures
            out@ == (NodeView::Text { value: value@ }),
    {
        Node::Text(TextNode { value: value.to_owned() })
    }

    /// A void element `name` with the given attributes.
    pub fn void(name: &str, attributes: AttrMap) -> (out: Self)
        ensures
            out@ == (NodeView::Void { name: name@, attributes: attributes@ }),
    {
        Node::Void(VoidNode { name: name.to_owned(), attributes })
    }

    /// A void element `name` without attributes.
    pub fn simple_void(name: &str) -> (out: Self)
        ensures
            out@ == (NodeView::Void { name: name@, attributes: Attrs::empty() }),
    {
        Node::void(name, AttrMap::new())
    }

    /// A fragment that groups `children`.
    pub fn fragment(children: Vec<Node>) -> (out: Self)
        ensures
            out@ == (NodeView::Fragment { children: views(children@) }),
    {
        let out = Node::Fragment(FragmentNode { children });
        proof {
            lemma_view_children(out);
        }
        out
    }
}

} // verus!
