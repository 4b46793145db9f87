//! The traversal: a rewrite of a tree, depth first and parents before
//! children, by a callback that is asked about every node.
//!
//! The callback answers with nothing, and the node is dropped with all that
//! is below it; with an element, whose children are then traversed in turn;
//! with a fragment, whose traversed children take the place of the node; or
//! with text or a void element, which is kept as it is. It is the answer
//! that is walked on, not the node that was asked about.

use vstd::prelude::*;
use crate::node::{lemma_view_children, views, BlockNode, Node, NodeView};

verus! {

/// What happened at one node of a traversal: the answer that the callback
/// gave for it, and what happened at each child of that answer.
pub struct Visit {
    pub answer: Option<Node>,
    pub below: Seq<Visit>,
}

/// The nodes that a traversal walks on after the callback gave `answer`:
/// the children of an element or of a fragment, and none after any other
/// answer.
pub open spec fn children_of(answer: Option<Node>) -> Seq<Node> {
    match answer {
        Some(Node::Block(b)) => b.children@,
        Some(Node::Fragment(g)) => g.children@,
        _ => Seq::empty(),
    }
}

/// Whether `visits` is a traversal of `input` with the callback `f`: node
/// by node, the answer is one that `f` can give for the node, and what is
/// below is a traversal of the children of that answer.
pub open spec fn follows<F: FnMut(&Node) -> Option<Node>>(
    f: F,
    input: Seq<Node>,
    visits: Seq<Visit>,
) -> bool
    decreases visits,
{
    &&& visits.len() == input.len()
    &&& forall|i: int|
        0 <= i < visits.len() ==> {
            &&& call_ensures(f, (&input[i],), (#[trigger] visits[i]).answer)
            &&& follows(f, children_of(visits[i].answer), visits[i].below)
        }
}

/// What one visit puts into the new tree: nothing where the callback gave
/// no answer; an element with what its visits below put there as its
/// children; in place of a fragment, what the visits below put there; and
/// text or a void element as it is.
pub open spec fn outcome_of(v: Visit) -> Seq<NodeView>
    decreases v,
{
    match v.answer {
        None => Seq::empty(),
        Some(Node::Block(b)) => seq![
            NodeView::Block {
                name: b.name@,
                attributes: b.attributes@,
                children: outcome(v.below),
            },
        ],
        Some(Node::Fragment(_)) => outcome(v.below),
        Some(leaf) => seq![leaf@],
    }
}

/// The new tree of a traversal: what its visits put there, one behind the
/// other.
pub open spec fn outcome(visits: Seq<Visit>) -> Seq<NodeView>
    decreases visits,
{
    if visits.len() == 0 {
        Seq::empty()
    } else {
        outcome(visits.drop_last()) + outcome_of(visits.last())
    }
}

/// Whether the nodes that the answer `result` holds as children all rank
/// below `limit`.
pub open spec fn ranks_below(rank: spec_fn(Node) -> nat, result: Option<Node>, limit: nat) -> bool {
    match result {
        Some(Node::Block(b)) => forall|i: int|
            0 <= i < b.children@.len() ==> rank(#[trigger] b.children@[i]) < limit,
        Some(Node::Fragment(g)) => forall|i: int|
            0 <= i < g.children@.len() ==> rank(#[trigger] g.children@[i]) < limit,
        _ => true,
    }
}

/// Whether the callback descends along `rank`: the children of every answer
/// rank below the node that was asked about. A traversal with such a
/// callback comes to an end.
pub open spec fn descends<F: FnMut(&Node) -> Option<Node>>(f: F, rank: spec_fn(Node) -> nat) -> bool {
    forall|n: Node, r: Option<Node>| #[trigger]
        call_ensures(f, (&n,), r) ==> ranks_below(rank, r, rank(n))
}

/// One more than the greatest rank among `s`; zero for no nodes.
pub open spec fn rank_bound(rank: spec_fn(Node) -> nat, s: Seq<Node>) -> nat
    decreases s.len(),
{
    if s.len() == 0 {
        0
    } else {
        let before = rank_bound(rank, s.drop_last());
        if rank(s.last()) + 1 > before {
            rank(s.last()) + 1
        } else {
            before
        }
    }
}

/// Every node ranks below the bound of its sequence.
pub proof fn lemma_rank_bound(rank: spec_fn(Node) -> nat, s: Seq<Node>, i: int)
    requires
        0 <= i < s.len(),
    ensures
        rank(s[i]) < rank_bound(rank, s),
    decreases s.len(),
{
    if i < s.len() - 1 {
        lemma_rank_bound(rank, s.drop_last(), i);
    }
}

/// A sequence whose nodes rank below `limit` has a bound of at most `limit`.
pub proof fn lemma_rank_bound_le(rank: spec_fn(Node) -> nat, s: Seq<Node>, limit: nat)
    requires
        forall|i: int| 0 <= i < s.len() ==> rank(#[trigger] s[i]) < limit,
    ensures
        rank_bound(rank, s) <= limit,
    decreases s.len(),
{
    if s.len() > 0 {
        assert forall|i: int| 0 <= i < s.drop_last().len() implies rank(
            #[trigger] s.drop_last()[i],
        ) < limit by {
            assert(s.drop_last()[i] == s[i]);
        }
        lemma_rank_bound_le(rank, s.drop_last(), limit);
    }
}

/// A node tree holds no fragment, at any depth.
pub open spec fn fragment_free(n: NodeView) -> bool
    decreases n,
{
    match n {
        NodeView::Block { children, .. } => forall|i: int|
            0 <= i < children.len() ==> fragment_free(#[trigger] children[i]),
        NodeView::Fragment { .. } => false,
        _ => true,
    }
}

/// No tree of `s` holds a fragment.
pub open spec fn fragments_gone(s: Seq<NodeView>) -> bool {
    forall|i: int| 0 <= i < s.len() ==> fragment_free(#[trigger] s[i])
}

/// Rewrites `nodes` with `callable`, whose answers descend along `rank`.
fn traverse_inner<F: FnMut(&Node) -> Option<Node>>(
    nodes: Vec<Node>,
    callable: &mut F,
    Ghost(rank): Ghost<spec_fn(Node) -> nat>,
) -> (out: (Vec<Node>, Ghost<Seq<Visit>>))
    requires
        forall|n: Node| call_requires(*old(callable), (&n,)),
        descends(*old(callable), rank),
    ensures
        *final(callable) == *old(callable),
        follows(*old(callable), nodes@, out.1@),
        views(out.0@) == outcome(out.1@),
        fragments_gone(views(out.0@)),
    decreases rank_bound(rank, nodes@),
{
    let mut result: Vec<Node> = Vec::new();
    let ghost mut visits: Seq<Visit> = Seq::empty();
    let n = nodes.len();
    let mut i: usize = 0;
    assert(views(result@) =~= outcome(visits));
    while i < n
        invariant
            n == nodes@.len(),
            i <= n,
            *callable == *old(callable),
            forall|n: Node| call_requires(*callable, (&n,)),
            descends(*callable, rank),
            visits.len() == i,
            follows(*callable, nodes@.take(i as int), visits),
            views(result@) == outcome(visits),
            fragments_gone(views(result@)),
        decreases n - i,
    {
        let ghost before = result@;
        let ghost visited = visits;
        let answer = callable(&nodes[i]);
        let ghost r = answer;
        let ghost mut below: Seq<Visit> = Seq::empty();
        proof {
            lemma_rank_bound(rank, nodes@, i as int);
            assert(ranks_below(rank, r, rank(nodes@[i as int])));
        }
        match answer {
            None => {},
            Some(Node::Block(blk)) => {
                proof {
                    lemma_rank_bound_le(rank, blk.children@, rank(nodes@[i as int]));
                }
                let BlockNode { name, attributes, children } = blk;
                let (walked, Ghost(inner)) = traverse_inner(children, callable, Ghost(rank));
                let block = Node::Block(BlockNode { name, attributes, children: walked });
                proof {
                    below = inner;
                    lemma_view_children(block);
                }
                result.push(block);
                assert(views(result@) =~= views(before) + seq![block@]);
            },
            Some(Node::Fragment(frag)) => {
                proof {
                    lemma_rank_bound_le(rank, frag.children@, rank(nodes@[i as int]));
                }
                let (mut walked, Ghost(inner)) = traverse_inner(
                    frag.children,
                    callable,
                    Ghost(rank),
                );
                let ghost spliced_in = walked@;
                proof {
                    below = inner;
                }
                result.append(&mut walked);
                assert(views(result@) =~= views(before) + views(spliced_in));
            },
            Some(leaf) => {
                result.push(leaf);
                assert(views(result@) =~= views(before) + seq![leaf@]);
            },
        }
        proof {
            let visit = Visit { answer: r, below };
            visits = visited.push(visit);
            assert(visits.drop_last() =~= visited);
            assert(views(result@) =~= outcome(visited) + outcome_of(visit)) by {
                match r {
                    None => {
                        assert(outcome_of(visit) =~= Seq::<NodeView>::empty());
                    },
                    Some(Node::Block(_)) => {
                        let block = result@[before.len() as int];
                        lemma_view_children(block);
                        assert(outcome_of(visit) =~= seq![block@]);
                    },
                    Some(Node::Fragment(_)) => {
                        assert(outcome_of(visit) =~= outcome(below));
                    },
                    Some(leaf) => {
                        assert(outcome_of(visit) =~= seq![leaf@]);
                    },
                }
            }
            assert(outcome(visits) == outcome(visited) + outcome_of(visit));
            assert(views(result@) == outcome(visits));
            let input = nodes@.take(i + 1);
            assert forall|j: int| 0 <= j < visits.len() implies {
                &&& call_ensures(*callable, (&input[j],), (#[trigger] visits[j]).answer)
                &&& follows(*callable, children_of(visits[j].answer), visits[j].below)
            } by {
                if j < i {
                    assert(visits[j] == visited[j]);
                    assert(input[j] == nodes@.take(i as int)[j]);
                }
            }
            assert forall|j: int| 0 <= j < result@.len() implies fragment_free(
                #[trigger] views(result@)[j],
            ) by {
                if j < before.len() {
                    assert(views(result@)[j] == views(before)[j]);
                } else {
                    match r {
                        Some(Node::Block(_)) => {
                            let block = result@[j];
                            lemma_view_children(block);
                            assert forall|c: int|
                                0 <= c < block@->Block_children.len() implies fragment_free(
                                #[trigger] block@->Block_children[c],
                            ) by {
                                assert(block@->Block_children[c] == views(
                                    block->Block_0.children@,
                                )[c]);
                            }
                        },
                        Some(Node::Fragment(_)) => {
                            assert(views(result@)[j] == outcome(below)[j - before.len()]);
                        },
                        _ => {},
                    }
                }
            }
        }
        i += 1;
    }
    assert(nodes@.take(n as int) =~= nodes@);
    (result, Ghost(visits))
}

/// Rewrites `nodes` with `callable` and returns the new tree.
///
/// The callback must accept every node, and its answers must descend along
/// some rank of the nodes, so that the traversal comes to an end. The new
/// tree is what the visits of some traversal put there, and it holds no
/// fragment.
pub fn traverse<F: FnMut(&Node) -> Option<Node>>(nodes: Vec<Node>, mut callable: F) -> (out: Vec<
    Node,
>)
    requires
        forall|n: Node| call_requires(callable, (&n,)),
        exists|rank: spec_fn(Node) -> nat| descends(callable, rank),
    ensures
        exists|visits: Seq<Visit>| follows(callable, nodes@, visits) && views(out@) == outcome(visits),
        fragments_gone(views(out@)),
{
    let ghost rank = choose|rank: spec_fn(Node) -> nat| descends(callable, rank);
    let ghost f = callable;
    let (out, Ghost(visits)) = traverse_inner(nodes, &mut callable, Ghost(rank));
    assert(follows(f, nodes@, visits) && views(out@) == outcome(visits));
    out
}

} // verus!
