//! What holds of the library as a whole: statements that relate several of
//! its operations, each with its proof.

use vstd::prelude::*;
use crate::attrs::{AttrView, Attrs};
use crate::forest::{
    all_spans,
    forest_spans,
    has_key,
    inside,
    join,
    key_of,
    keys_differ,
    lemma_join_from,
    lemma_join_once,
    nested,
    IrNodeView,
};
use crate::markup::{render_attrs, render_nodes};
use crate::node::{lemma_view_children, views, Node, NodeView};
use crate::roundtrip::{all_sayable, lemma_parse_written};
use crate::span::{ParseError, SpanView};
use crate::tokenizer::{lemma_scan_inv, scan, span_in};
use crate::traverse::{
    children_of,
    descends,
    follows,
    fragment_free,
    fragments_gone,
    outcome,
    outcome_of,
    ranks_below,
    Visit,
};
use crate::tree::parse;

verus! {

/// Containment: in the forest of any spans, every child lies strictly
/// inside its parent, at every depth.
pub proof fn containment(spans: Seq<SpanView>)
    ensures
        forall|i: int| 0 <= i < join(spans).len() ==> nested(#[trigger] join(spans)[i]),
{
    lemma_join_from(spans, 0, Set::empty(), |s: SpanView| true);
}

/// The spans that lie strictly inside the range `start..end`.
pub open spec fn within(start: int, end: int) -> spec_fn(SpanView) -> bool {
    |s: SpanView| inside(s, start, end)
}

/// Containment reaches down: in a nested tree whose own range lies inside
/// `start..end`, or is that range, every span below the root lies strictly
/// inside `start..end`.
pub proof fn descendants_inside(n: IrNodeView, start: int, end: int)
    requires
        nested(n),
        start <= n.span.start,
        n.span.end <= end,
    ensures
        forall|i: int|
            0 <= i < n.children.len() ==> all_spans(#[trigger] n.children[i], within(start, end)),
    decreases n,
{
    assert forall|i: int| 0 <= i < n.children.len() implies all_spans(
        #[trigger] n.children[i],
        within(start, end),
    ) by {
        let c = n.children[i];
        assert(inside(c.span, n.span.start, n.span.end));
        descendants_inside(c, start, end);
        assert(within(start, end)(c.span));
    }
}

/// Order of discovery: the spans of any source lie in the source and start
/// one behind the other, so that no two of them have the same range.
pub proof fn spans_in_order(text: Seq<char>)
    ensures
        ({
            let spans = scan(text, text.len() as int).spans;
            &&& forall|j: int| 0 <= j < spans.len() ==> span_in(#[trigger] spans[j], text.len() as int)
            &&& forall|j: int, k: int|
                0 <= j < k < spans.len() ==> (#[trigger] spans[j]).start < (#[trigger] spans[k]).start
            &&& keys_differ(spans)
        }),
{
    lemma_scan_inv(text, text.len() as int);
}

/// Each span once: where no two spans of the list have the same range,
/// every span of the list is a span of the forest, every span of the
/// forest is a span of the list, and the forest holds no span twice.
pub proof fn every_span_once(spans: Seq<SpanView>)
    requires
        keys_differ(spans),
    ensures
        forall|j: int|
            0 <= j < spans.len() ==> forest_spans(join(spans)).contains(#[trigger] spans[j]),
        forall|a: int|
            0 <= a < forest_spans(join(spans)).len() ==> spans.contains(
                #[trigger] forest_spans(join(spans))[a],
            ),
        keys_differ(forest_spans(join(spans))),
{
    let found = forest_spans(join(spans));
    lemma_join_once(spans, 0, Set::empty());
    assert forall|j: int| 0 <= j < spans.len() implies found.contains(#[trigger] spans[j]) by {
        let k = key_of(spans[j]);
        assert(has_key(found, k));
        let a = choose|a: int| 0 <= a < found.len() && key_of(#[trigger] found[a]) == k;
        let from = choose|from: int| 0 <= from < spans.len() && spans[from] == found[a];
        if from < j {
            assert(key_of(spans[from]) != key_of(spans[j]));
        } else if j < from {
            assert(key_of(spans[j]) != key_of(spans[from]));
        }
        assert(found[a] == spans[j]);
    }
    assert forall|a: int| 0 <= a < found.len() implies spans.contains(#[trigger] found[a]) by {
        let from = choose|from: int| 0 <= from < spans.len() && spans[from] == found[a];
        assert(spans[from] == found[a]);
    }
}

/// Attribute-order invariance: two attributes that are set one after the
/// other are written the same way in whichever order they were set.
pub proof fn attribute_order(
    m: Attrs,
    first: Seq<char>,
    first_value: AttrView,
    second: Seq<char>,
    second_value: AttrView,
)
    requires
        first != second,
    ensures
        m.insert(first, first_value).insert(second, second_value) == m.insert(
            second,
            second_value,
        ).insert(first, first_value),
        render_attrs(m.insert(first, first_value).insert(second, second_value)) == render_attrs(
            m.insert(second, second_value).insert(first, first_value),
        ),
{
    assert(m.insert(first, first_value).insert(second, second_value) =~= m.insert(
        second,
        second_value,
    ).insert(first, first_value));
}

/// The height of a node: the number of levels of children below it.
pub open spec fn height(v: NodeView) -> nat
    decreases v, 0nat,
{
    match v {
        NodeView::Block { children, .. } => 1 + tallest(children),
        NodeView::Fragment { children } => 1 + tallest(children),
        _ => 0,
    }
}

/// The greatest height among `s`; zero for no nodes.
pub open spec fn tallest(s: Seq<NodeView>) -> nat
    decreases s, 1nat,
{
    if s.len() == 0 {
        0
    } else {
        let before = tallest(s.drop_last());
        if height(s.last()) > before {
            height(s.last())
        } else {
            before
        }
    }
}

/// No node is higher than the tallest of its sequence.
pub proof fn lemma_tallest(s: Seq<NodeView>, i: int)
    requires
        0 <= i < s.len(),
    ensures
        height(s[i]) <= tallest(s),
    decreases s.len(),
{
    if i < s.len() - 1 {
        lemma_tallest(s.drop_last(), i);
    }
}

/// The rank of a node by the height of what it stands for.
pub open spec fn by_height() -> spec_fn(Node) -> nat {
    |n: Node| height(n@)
}

/// Every node, at every depth of `v`, meets `dom`.
pub open spec fn every_node(v: NodeView, dom: spec_fn(NodeView) -> bool) -> bool
    decreases v,
{
    &&& dom(v)
    &&& match v {
        NodeView::Block { children, .. } => forall|i: int|
            0 <= i < children.len() ==> every_node(#[trigger] children[i], dom),
        NodeView::Fragment { children } => forall|i: int|
            0 <= i < children.len() ==> every_node(#[trigger] children[i], dom),
        _ => true,
    }
}

/// What is left of a node when the nodes that meet `drop` are removed:
/// nothing if the node meets it, and else the node, an element with what is
/// left of its children.
pub open spec fn prune_node(drop: spec_fn(NodeView) -> bool, v: NodeView) -> Seq<NodeView>
    decreases v, 0nat,
{
    if drop(v) {
        Seq::empty()
    } else {
        match v {
            NodeView::Block { name, attributes, children } => seq![
                NodeView::Block { name, attributes, children: prune(drop, children) },
            ],
            _ => seq![v],
        }
    }
}

/// What is left of `s` when the nodes that meet `drop` are removed, at
/// every depth: the others, in their order.
pub open spec fn prune(drop: spec_fn(NodeView) -> bool, s: Seq<NodeView>) -> Seq<NodeView>
    decreases s, 1nat,
{
    if s.len() == 0 {
        Seq::empty()
    } else {
        prune(drop, s.drop_last()) + prune_node(drop, s.last())
    }
}

/// Whether the callback `f`, asked about a node that meets `dom`, answers
/// with nothing if the node meets `drop`, and with the node itself if not.
pub open spec fn filters<F: FnMut(&Node) -> Option<Node>>(
    f: F,
    drop: spec_fn(NodeView) -> bool,
    dom: spec_fn(NodeView) -> bool,
) -> bool {
    forall|n: Node, r: Option<Node>| #[trigger]
        call_ensures(f, (&n,), r) && dom(n@) ==> if drop(n@) {
            r is None
        } else {
            r is Some && r->0@ == n@
        }
}

/// The new tree of a traversal is the new tree of its first visits and
/// then what the last visit puts there.
pub proof fn lemma_outcome_push(visits: Seq<Visit>, v: Visit)
    ensures
        outcome(visits.push(v)) == outcome(visits) + outcome_of(v),
{
    assert(visits.push(v).drop_last() =~= visits);
}

/// A traversal of nodes one behind the other puts there what the
/// traversals of the parts put there, one behind the other.
pub proof fn lemma_outcome_add(a: Seq<Visit>, b: Seq<Visit>)
    ensures
        outcome(a + b) == outcome(a) + outcome(b),
    decreases b.len(),
{
    if b.len() == 0 {
        assert(a + b =~= a);
        assert(outcome(a) + outcome(b) =~= outcome(a));
    } else {
        lemma_outcome_add(a, b.drop_last());
        assert((a + b).drop_last() =~= a + b.drop_last());
        assert((a + b).last() == b.last());
        assert(outcome(a) + (outcome(b.drop_last()) + outcome_of(b.last())) =~= (outcome(a)
            + outcome(b.drop_last())) + outcome_of(b.last()));
    }
}

/// Deletion: a traversal whose callback answers with nothing for the nodes
/// that meet `drop`, and with the node itself for every other, returns what
/// is left when those nodes are removed: the others, in their order.
///
/// The callback needs to answer so only for the nodes that meet `dom`,
/// where every node of the tree does. The tree holds no fragment.
pub proof fn deletion<F: FnMut(&Node) -> Option<Node>>(
    f: F,
    drop: spec_fn(NodeView) -> bool,
    dom: spec_fn(NodeView) -> bool,
    input: Seq<Node>,
    visits: Seq<Visit>,
)
    requires
        filters(f, drop, dom),
        follows(f, input, visits),
        fragments_gone(views(input)),
        forall|i: int| 0 <= i < input.len() ==> every_node(#[trigger] views(input)[i], dom),
    ensures
        outcome(visits) == prune(drop, views(input)),
    decreases visits,
{
    if visits.len() > 0 {
        let last = visits.last();
        let node = input.last();
        let before = visits.drop_last();
        let all = views(input);
        assert(views(input.drop_last()) =~= all.drop_last());
        assert forall|i: int| 0 <= i < input.drop_last().len() implies every_node(
            #[trigger] views(input.drop_last())[i],
            dom,
        ) && fragment_free(views(input.drop_last())[i]) by {
            assert(views(input.drop_last())[i] == all[i]);
        }
        assert forall|i: int| 0 <= i < before.len() implies {
            &&& call_ensures(f, (&input.drop_last()[i],), (#[trigger] before[i]).answer)
            &&& follows(f, children_of(before[i].answer), before[i].below)
        } by {
            assert(before[i] == visits[i]);
        }
        assert(follows(f, input.drop_last(), before));
        deletion(f, drop, dom, input.drop_last(), before);

        let v = all.last();
        assert(v == node@);
        assert(visits[visits.len() - 1] == last);
        assert(call_ensures(f, (&input[input.len() - 1],), last.answer));
        assert(every_node(all[all.len() - 1], dom));
        assert(fragment_free(all[all.len() - 1]));
        if !drop(v) {
            let r = last.answer->0;
            assert(r@ == v);
            lemma_view_children(r);
            lemma_view_children(node);
            match r {
                Node::Block(b) => {
                    let kids = v->Block_children;
                    assert(views(b.children@) == kids);
                    assert forall|i: int| 0 <= i < b.children@.len() implies every_node(
                        #[trigger] views(b.children@)[i],
                        dom,
                    ) && fragment_free(views(b.children@)[i]) by {
                        assert(views(b.children@)[i] == kids[i]);
                    }
                    deletion(f, drop, dom, b.children@, last.below);
                },
                _ => {},
            }
        }
        assert(outcome_of(last) == prune_node(drop, v));
    } else {
        assert(views(input) =~= Seq::<NodeView>::empty());
    }
}

/// Where nothing is removed, everything is left.
pub proof fn lemma_prune_nothing(s: Seq<NodeView>)
    ensures
        prune(|v: NodeView| false, s) == s,
    decreases s, 1nat,
{
    let keep = |v: NodeView| false;
    if s.len() > 0 {
        lemma_prune_nothing(s.drop_last());
        match s.last() {
            NodeView::Block { name, attributes, children } => {
                lemma_prune_nothing(children);
            },
            _ => {},
        }
        assert(prune_node(keep, s.last()) == seq![s.last()]);
        assert(s =~= s.drop_last() + seq![s.last()]);
    } else {
        assert(s =~= Seq::<NodeView>::empty());
    }
}

/// Whether the callback `f` answers every node with the node itself.
pub open spec fn answers_same<F: FnMut(&Node) -> Option<Node>>(f: F) -> bool {
    forall|n: Node, r: Option<Node>| #[trigger]
        call_ensures(f, (&n,), r) ==> r is Some && r->0@ == n@
}

/// Identity: a traversal whose callback answers every node with the node
/// itself returns the tree that it was given, if that tree holds no
/// fragment.
pub proof fn identity<F: FnMut(&Node) -> Option<Node>>(f: F, input: Seq<Node>, visits: Seq<Visit>)
    requires
        answers_same(f),
        follows(f, input, visits),
        fragments_gone(views(input)),
    ensures
        outcome(visits) == views(input),
{
    let all = |v: NodeView| true;
    assert forall|i: int| 0 <= i < input.len() implies every_node(
        #[trigger] views(input)[i],
        all,
    ) by {
        lemma_every_node(views(input)[i]);
    }
    deletion(f, |v: NodeView| false, all, input, visits);
    lemma_prune_nothing(views(input));
}

/// What holds of every node holds of every node of a tree.
pub proof fn lemma_every_node(v: NodeView)
    ensures
        every_node(v, |v: NodeView| true),
    decreases v,
{
    let all = |v: NodeView| true;
    match v {
        NodeView::Block { children, .. } => {
            assert forall|i: int| 0 <= i < children.len() implies every_node(
                #[trigger] children[i],
                all,
            ) by {
                lemma_every_node(children[i]);
            }
        },
        NodeView::Fragment { children } => {
            assert forall|i: int| 0 <= i < children.len() implies every_node(
                #[trigger] children[i],
                all,
            ) by {
                lemma_every_node(children[i]);
            }
        },
        _ => {},
    }
}

/// The new tree of any traversal holds no fragment.
pub proof fn fragments_resolved<F: FnMut(&Node) -> Option<Node>>(
    f: F,
    input: Seq<Node>,
    visits: Seq<Visit>,
)
    requires
        follows(f, input, visits),
    ensures
        fragments_gone(outcome(visits)),
    decreases visits,
{
    if visits.len() > 0 {
        let last = visits.last();
        let before = visits.drop_last();
        assert forall|i: int| 0 <= i < before.len() implies {
            &&& call_ensures(f, (&input.drop_last()[i],), (#[trigger] before[i]).answer)
            &&& follows(f, children_of(before[i].answer), before[i].below)
        } by {
            assert(before[i] == visits[i]);
        }
        fragments_resolved(f, input.drop_last(), before);
        assert(visits[visits.len() - 1] == last);
        fragments_resolved(f, children_of(last.answer), last.below);
        match last.answer {
            Some(Node::Block(b)) => {
                assert(fragment_free(outcome_of(last)[0]));
            },
            _ => {},
        }
        assert(fragments_gone(outcome_of(last)));
    }
}

/// Idempotent identity: a second traversal with a callback that answers
/// every node with the node itself returns what the first returned,
/// whatever tree the first was given.
pub proof fn identity_twice<F: FnMut(&Node) -> Option<Node>>(
    f: F,
    input: Seq<Node>,
    first: Seq<Visit>,
    between: Seq<Node>,
    second: Seq<Visit>,
)
    requires
        answers_same(f),
        follows(f, input, first),
        views(between) == outcome(first),
        follows(f, between, second),
    ensures
        outcome(second) == outcome(first),
{
    fragments_resolved(f, input, first);
    identity(f, between, second);
}

/// A callback that answers every node with nothing or with the node itself
/// descends by height, so that a traversal with it comes to an end.
pub proof fn filter_descends<F: FnMut(&Node) -> Option<Node>>(f: F, drop: spec_fn(NodeView) -> bool)
    requires
        filters(f, drop, |v: NodeView| true),
    ensures
        descends(f, by_height()),
{
    assert forall|n: Node, r: Option<Node>| #[trigger] call_ensures(f, (&n,), r) implies ranks_below(
        by_height(),
        r,
        by_height()(n),
    ) by {
        let dom = |v: NodeView| true;
        assert(dom(n@));
        if r is Some {
            let a = r->0;
            if drop(n@) {
            } else {
                assert(a@ == n@);
                lemma_view_children(a);
                match a {
                    Node::Block(b) => {
                        assert forall|i: int| 0 <= i < b.children@.len() implies by_height()(
                            #[trigger] b.children@[i],
                        ) < by_height()(n) by {
                            assert(views(b.children@)[i] == b.children@[i]@);
                            lemma_tallest(views(b.children@), i);
                        }
                    },
                    Node::Fragment(g) => {
                        assert forall|i: int| 0 <= i < g.children@.len() implies by_height()(
                            #[trigger] g.children@[i],
                        ) < by_height()(n) by {
                            assert(views(g.children@)[i] == g.children@[i]@);
                            lemma_tallest(views(g.children@), i);
                        }
                    },
                    _ => {},
                }
            }
        }
    }
}

/// Whether the callback `f` answers a node that stands for `target` with a
/// fragment of nodes that stand for `replacement`, and every other node
/// with the node itself.
pub open spec fn replaces<F: FnMut(&Node) -> Option<Node>>(
    f: F,
    target: NodeView,
    replacement: Seq<NodeView>,
) -> bool {
    forall|n: Node, r: Option<Node>| #[trigger]
        call_ensures(f, (&n,), r) ==> if n@ == target {
            r matches Some(Node::Fragment(g)) && views(g.children@) == replacement
        } else {
            r is Some && r->0@ == n@
        }
}

/// The nodes that do not stand for `target`.
pub open spec fn other_than(target: NodeView) -> spec_fn(NodeView) -> bool {
    |v: NodeView| v != target
}

/// A part of a traversal is a traversal of that part of the nodes.
pub proof fn lemma_follows_part<F: FnMut(&Node) -> Option<Node>>(
    f: F,
    input: Seq<Node>,
    visits: Seq<Visit>,
    lo: int,
    hi: int,
)
    requires
        follows(f, input, visits),
        0 <= lo <= hi <= input.len(),
    ensures
        follows(f, input.subrange(lo, hi), visits.subrange(lo, hi)),
{
    let part = visits.subrange(lo, hi);
    assert forall|i: int| 0 <= i < part.len() implies {
        &&& call_ensures(f, (&input.subrange(lo, hi)[i],), (#[trigger] part[i]).answer)
        &&& follows(f, children_of(part[i].answer), part[i].below)
    } by {
        assert(part[i] == visits[lo + i]);
    }
}

/// Splicing: a traversal whose callback answers one node of a sibling list
/// with a fragment of `k` nodes, and every other node with the node itself,
/// returns the siblings before it, the `k` nodes, and the siblings behind
/// it, in that order; the list grows by `k - 1` nodes.
///
/// The node that is replaced is the one at `at`. What it stands for occurs
/// nowhere else among the siblings nor in the replacement, and neither
/// holds a fragment.
pub proof fn splicing<F: FnMut(&Node) -> Option<Node>>(
    f: F,
    target: NodeView,
    replacement: Seq<NodeView>,
    input: Seq<Node>,
    visits: Seq<Visit>,
    at: int,
)
    requires
        replaces(f, target, replacement),
        follows(f, input, visits),
        0 <= at < input.len(),
        input[at]@ == target,
        fragments_gone(views(input)),
        fragments_gone(replacement),
        forall|i: int|
            0 <= i < input.len() && i != at ==> every_node(
                #[trigger] views(input)[i],
                other_than(target),
            ),
        forall|i: int|
            0 <= i < replacement.len() ==> every_node(#[trigger] replacement[i], other_than(target)),
    ensures
        outcome(visits) == views(input).take(at) + replacement + views(input).skip(at + 1),
        outcome(visits).len() == input.len() + replacement.len() - 1,
{
    let keep = |v: NodeView| false;
    let dom = other_than(target);
    let all = views(input);
    assert(filters(f, keep, dom));
    let n = input.len() as int;

    // the siblings before the node
    let head = input.subrange(0, at);
    lemma_follows_part(f, input, visits, 0, at);
    assert(views(head) =~= all.take(at));
    assert forall|i: int| 0 <= i < head.len() implies every_node(#[trigger] views(head)[i], dom)
        && fragment_free(views(head)[i]) by {
        assert(views(head)[i] == all[i]);
    }
    deletion(f, keep, dom, head, visits.subrange(0, at));
    lemma_prune_nothing(views(head));

    // the siblings behind it
    let tail = input.subrange(at + 1, n);
    lemma_follows_part(f, input, visits, at + 1, n);
    assert(views(tail) =~= all.skip(at + 1));
    assert forall|i: int| 0 <= i < tail.len() implies every_node(#[trigger] views(tail)[i], dom)
        && fragment_free(views(tail)[i]) by {
        assert(views(tail)[i] == all[at + 1 + i]);
    }
    deletion(f, keep, dom, tail, visits.subrange(at + 1, n));
    lemma_prune_nothing(views(tail));

    // the node itself
    let visit = visits[at];
    assert(call_ensures(f, (&input[at],), visit.answer));
    let g = visit.answer->0->Fragment_0;
    assert(views(g.children@) == replacement);
    assert forall|i: int| 0 <= i < g.children@.len() implies every_node(
        #[trigger] views(g.children@)[i],
        dom,
    ) by {
        assert(views(g.children@)[i] == replacement[i]);
    }
    deletion(f, keep, dom, g.children@, visit.below);
    lemma_prune_nothing(replacement);
    assert(outcome_of(visit) == replacement);

    // one behind the other
    let first = visits.subrange(0, at);
    let rest = visits.subrange(at + 1, n);
    assert(visits =~= first.push(visit) + rest);
    lemma_outcome_add(first.push(visit), rest);
    lemma_outcome_push(first, visit);
}

/// How often `target` occurs in `v`, at any depth.
pub open spec fn count_of(target: NodeView, v: NodeView) -> nat
    decreases v, 0nat,
{
    (if v == target {
        1nat
    } else {
        0nat
    }) + match v {
        NodeView::Block { children, .. } => count_in(target, children),
        NodeView::Fragment { children } => count_in(target, children),
        _ => 0,
    }
}

/// How often `target` occurs in the nodes `s`, at any depth.
pub open spec fn count_in(target: NodeView, s: Seq<NodeView>) -> nat
    decreases s, 1nat,
{
    if s.len() == 0 {
        0
    } else {
        count_in(target, s.drop_last()) + count_of(target, s.last())
    }
}

/// A node holds `target` no more often than its sequence does.
pub proof fn lemma_count_in(target: NodeView, s: Seq<NodeView>, i: int)
    requires
        0 <= i < s.len(),
    ensures
        count_of(target, s[i]) <= count_in(target, s),
    decreases s.len(),
{
    if i < s.len() - 1 {
        lemma_count_in(target, s.drop_last(), i);
    }
}

/// A tree none of whose nodes is `target` holds it at no depth.
pub proof fn lemma_count_none(target: NodeView, v: NodeView)
    requires
        every_node(v, other_than(target)),
    ensures
        count_of(target, v) == 0,
    decreases v, 0nat,
{
    assert(other_than(target)(v));
    match v {
        NodeView::Block { children, .. } => {
            lemma_count_none_in(target, children);
        },
        NodeView::Fragment { children } => {
            lemma_count_none_in(target, children);
        },
        _ => {},
    }
}

/// Trees none of whose nodes is `target` hold it at no depth.
pub proof fn lemma_count_none_in(target: NodeView, s: Seq<NodeView>)
    requires
        forall|i: int| 0 <= i < s.len() ==> every_node(#[trigger] s[i], other_than(target)),
    ensures
        count_in(target, s) == 0,
    decreases s, 1nat,
{
    if s.len() > 0 {
        assert forall|i: int| 0 <= i < s.drop_last().len() implies every_node(
            #[trigger] s.drop_last()[i],
            other_than(target),
        ) by {
            assert(s.drop_last()[i] == s[i]);
        }
        lemma_count_none_in(target, s.drop_last());
        assert(every_node(s[s.len() - 1], other_than(target)));
        lemma_count_none(target, s.last());
    }
}

/// The rank of a node by its height, raised for every time that it holds
/// `target` by more than the height of any node of `replacement`.
pub open spec fn by_height_and(target: NodeView, replacement: Seq<NodeView>) -> spec_fn(
    Node,
) -> nat {
    |n: Node| height(n@) + count_of(target, n@) * (tallest(replacement) + 1)
}

/// A callback that answers one node with a fragment that does not hold
/// that node, and every other node with the node itself, descends, so that
/// a traversal with it comes to an end.
pub proof fn replace_descends<F: FnMut(&Node) -> Option<Node>>(
    f: F,
    target: NodeView,
    replacement: Seq<NodeView>,
)
    requires
        replaces(f, target, replacement),
        forall|i: int|
            0 <= i < replacement.len() ==> every_node(#[trigger] replacement[i], other_than(target)),
    ensures
        descends(f, by_height_and(target, replacement)),
{
    let rank = by_height_and(target, replacement);
    let step = tallest(replacement) + 1;
    assert forall|n: Node, r: Option<Node>| #[trigger] call_ensures(f, (&n,), r) implies ranks_below(
        rank,
        r,
        rank(n),
    ) by {
        let a = r->0;
        lemma_view_children(a);
        if n@ == target {
            let g = a->Fragment_0;
            assert(count_of(target, n@) >= 1);
            assert(count_of(target, n@) * step >= step) by (nonlinear_arith)
                requires
                    count_of(target, n@) >= 1,
                    step >= 0,
            ;
            assert forall|i: int| 0 <= i < g.children@.len() implies rank(
                #[trigger] g.children@[i],
            ) < rank(n) by {
                let c = g.children@[i]@;
                assert(views(g.children@)[i] == c);
                assert(c == replacement[i]);
                lemma_count_none(target, c);
                lemma_tallest(replacement, i);
                assert(0 * step == 0);
            }
        } else {
            assert(a@ == n@);
            let kids = match a {
                Node::Block(b) => b.children@,
                Node::Fragment(g) => g.children@,
                _ => Seq::empty(),
            };
            assert forall|i: int| 0 <= i < kids.len() implies rank(#[trigger] kids[i]) < rank(n) by {
                let c = kids[i]@;
                assert(views(kids)[i] == c);
                lemma_tallest(views(kids), i);
                lemma_count_in(target, views(kids), i);
                assert(height(c) < height(n@));
                assert(count_of(target, c) <= count_of(target, n@));
                assert(count_of(target, c) * step <= count_of(target, n@) * step)
                    by (nonlinear_arith)
                    requires
                        count_of(target, c) <= count_of(target, n@),
                        step >= 0,
                ;
            }
        }
    }
}

/// Round trip: markup that was written from a tree that markup can say
/// parses to that tree, and the tree is written as that markup again.
pub proof fn round_trip(t: Seq<NodeView>)
    requires
        all_sayable(t),
    ensures
        parse(render_nodes(t)) == Ok::<Seq<NodeView>, ParseError>(t),
        parse(render_nodes(t)) matches Ok(back) && render_nodes(back) == render_nodes(t),
{
    lemma_parse_written(t);
}

} // verus!
