//! The span forest: the flat spans of the tokenizer, read as trees by
//! containment.
//!
//! A span takes as its children the spans of the same list that lie
//! strictly inside it, and those are joined in the same way. One set of
//! visited ranges is kept for the whole join, so that a span that was
//! given to one parent is given to no other.

use vstd::prelude::*;
use crate::span::{span_views, Span, SpanView};

verus! {

/// A span with the spans that it contains.
#[derive(Debug, PartialEq)]
pub struct IrNode {
    pub span: Span,
    pub children: Vec<IrNode>,
}

/// What a tree of spans stands for.
pub struct IrNodeView {
    pub span: SpanView,
    pub children: Seq<IrNodeView>,
}

impl View for IrNode {
    type V = IrNodeView;

    open spec fn view(&self) -> IrNodeView
        decreases self,
    {
        IrNodeView {
            span: self.span@,
            children: Seq::new(
                self.children@.len(),
                |i: int|
                    if 0 <= i < self.children@.len() {
                        self.children@[i]@
                    } else {
                        arbitrary()
                    },
            ),
        }
    }
}

/// What a sequence of trees stands for, tree by tree.
pub open spec fn ir_views(s: Seq<IrNode>) -> Seq<IrNodeView> {
    Seq::new(s.len(), |i: int| s[i]@)
}

/// The view of a tree holds the views of its children.
pub proof fn lemma_ir_view(n: IrNode)
    ensures
        n@ == (IrNodeView { span: n.span@, children: ir_views(n.children@) }),
{
    reveal_with_fuel(<IrNode as View>::view, 2);
    assert(n@.children =~= ir_views(n.children@));
}

/// Whether the range of `c` lies strictly inside `start..end`.
pub open spec fn inside(c: SpanView, start: int, end: int) -> bool {
    c.start > start && c.end < end
}

/// Those of the first `upto` spans that lie strictly inside `start..end`,
/// in their order.
pub open spec fn contained(spans: Seq<SpanView>, start: int, end: int, upto: int) -> Seq<
    SpanView,
>
    decreases upto,
{
    if upto <= 0 {
        Seq::empty()
    } else {
        let before = contained(spans, start, end, upto - 1);
        if inside(spans[upto - 1], start, end) {
            before.push(spans[upto - 1])
        } else {
            before
        }
    }
}

/// What is contained is inside the range and is taken from the list; the
/// list loses at least the spans that are not inside.
pub proof fn lemma_contained(spans: Seq<SpanView>, start: int, end: int, upto: int)
    requires
        0 <= upto <= spans.len(),
    ensures
        contained(spans, start, end, upto).len() <= upto,
        forall|k: int|
            0 <= k < contained(spans, start, end, upto).len() ==> {
                let c = #[trigger] contained(spans, start, end, upto)[k];
                inside(c, start, end) && exists|j: int| 0 <= j < upto && spans[j] == c
            },
        forall|j: int|
            0 <= j < upto && !inside(spans[j], start, end) ==> contained(
                spans,
                start,
                end,
                upto,
            ).len() < upto,
    decreases upto,
{
    if upto > 0 {
        lemma_contained(spans, start, end, upto - 1);
        let before = contained(spans, start, end, upto - 1);
        let now = contained(spans, start, end, upto);
        assert forall|k: int| 0 <= k < now.len() implies {
            let c = #[trigger] now[k];
            inside(c, start, end) && exists|j: int| 0 <= j < upto && spans[j] == c
        } by {
            if k < before.len() {
                let c = before[k];
                let j = choose|j: int| 0 <= j < upto - 1 && spans[j] == c;
                assert(spans[j] == c);
            } else {
                assert(spans[upto - 1] == now[k]);
            }
        }
    }
}

/// The range of a span, by which the join knows it again.
pub open spec fn key_of(s: SpanView) -> (int, int) {
    (s.start, s.end)
}

/// The trees that the spans from index `i` on give, and the ranges visited
/// afterwards. A span whose range was visited is passed over. Any other is
/// visited, takes the joined spans inside it as its children, and becomes a
/// tree.
pub open spec fn join_from(nodes: Seq<SpanView>, i: int, seen: Set<(int, int)>) -> (
    Seq<IrNodeView>,
    Set<(int, int)>,
)
    decreases nodes.len(), nodes.len() - i,
{
    if i < 0 || i >= nodes.len() {
        (Seq::empty(), seen)
    } else if seen.contains(key_of(nodes[i])) {
        join_from(nodes, i + 1, seen)
    } else {
        let node = nodes[i];
        let inner = contained(nodes, node.start, node.end, nodes.len() as int);
        if inner.len() < nodes.len() {
            let below = join_from(inner, 0, seen.insert(key_of(node)));
            let rest = join_from(nodes, i + 1, below.1);
            (seq![IrNodeView { span: node, children: below.0 }] + rest.0, rest.1)
        } else {
            // never the case: `node` itself is not inside its own range
            (Seq::empty(), seen)
        }
    }
}

/// The forest of `nodes`.
pub open spec fn join(nodes: Seq<SpanView>) -> Seq<IrNodeView> {
    join_from(nodes, 0, Set::empty()).0
}

/// Every child lies strictly inside its parent, at every depth of `n`.
pub open spec fn nested(n: IrNodeView) -> bool
    decreases n,
{
    forall|i: int|
        0 <= i < n.children.len() ==> {
            &&& inside(#[trigger] n.children[i].span, n.span.start, n.span.end)
            &&& nested(n.children[i])
        }
}

/// Every span of `n`, at every depth, meets `pred`.
pub open spec fn all_spans(n: IrNodeView, pred: spec_fn(SpanView) -> bool) -> bool
    decreases n,
{
    &&& pred(n.span)
    &&& forall|i: int| 0 <= i < n.children.len() ==> all_spans(#[trigger] n.children[i], pred)
}

/// The trees of a join are nested, their roots are spans of the list from
/// `i` on, and what holds of every span of the list holds of every span of
/// the trees.
pub proof fn lemma_join_from(
    nodes: Seq<SpanView>,
    i: int,
    seen: Set<(int, int)>,
    pred: spec_fn(SpanView) -> bool,
)
    requires
        0 <= i,
        forall|j: int| 0 <= j < nodes.len() ==> pred(#[trigger] nodes[j]),
    ensures
        forall|k: int|
            0 <= k < join_from(nodes, i, seen).0.len() ==> {
                let t = #[trigger] join_from(nodes, i, seen).0[k];
                &&& nested(t)
                &&& all_spans(t, pred)
                &&& exists|j: int| i <= j < nodes.len() && nodes[j] == t.span
            },
    decreases nodes.len(), nodes.len() - i,
{
    if i < nodes.len() {
        if seen.contains(key_of(nodes[i])) {
            lemma_join_from(nodes, i + 1, seen, pred);
            assert forall|k: int| 0 <= k < join_from(nodes, i, seen).0.len() implies {
                let t = #[trigger] join_from(nodes, i, seen).0[k];
                exists|j: int| i <= j < nodes.len() && nodes[j] == t.span
            } by {
                let t = join_from(nodes, i + 1, seen).0[k];
                let j = choose|j: int| i + 1 <= j < nodes.len() && nodes[j] == t.span;
                assert(nodes[j] == t.span);
            }
        } else {
            let node = nodes[i];
            let inner = contained(nodes, node.start, node.end, nodes.len() as int);
            lemma_contained(nodes, node.start, node.end, nodes.len() as int);
            assert(!inside(nodes[i], node.start, node.end));
            assert forall|j: int| 0 <= j < inner.len() implies pred(#[trigger] inner[j]) by {
                let c = inner[j];
                let k = choose|k: int| 0 <= k < nodes.len() && nodes[k] == c;
                assert(pred(nodes[k]));
            }
            let below = join_from(inner, 0, seen.insert(key_of(node)));
            lemma_join_from(inner, 0, seen.insert(key_of(node)), pred);
            let rest = join_from(nodes, i + 1, below.1);
            lemma_join_from(nodes, i + 1, below.1, pred);
            let head = IrNodeView { span: node, children: below.0 };
            assert forall|k: int| 0 <= k < head.children.len() implies inside(
                #[trigger] head.children[k].span,
                node.start,
                node.end,
            ) && nested(head.children[k]) && all_spans(head.children[k], pred) by {
                let t = below.0[k];
                let j = choose|j: int| 0 <= j < inner.len() && inner[j] == t.span;
                assert(inside(inner[j], node.start, node.end));
            }
            assert(nested(head));
            assert(all_spans(head, pred));
            let all = join_from(nodes, i, seen).0;
            assert(all =~= seq![head] + rest.0);
            assert forall|k: int| 0 <= k < all.len() implies {
                let t = #[trigger] all[k];
                &&& nested(t)
                &&& all_spans(t, pred)
                &&& exists|j: int| i <= j < nodes.len() && nodes[j] == t.span
            } by {
                if k == 0 {
                    assert(nodes[i] == all[0].span);
                } else {
                    let t = rest.0[k - 1];
                    assert(all[k] == t);
                    let j = choose|j: int| i + 1 <= j < nodes.len() && nodes[j] == t.span;
                    assert(nodes[j] == t.span);
                }
            }
        }
    }
}

/// The spans of the tree `n`: its own and then those of its children.
pub open spec fn tree_spans(n: IrNodeView) -> Seq<SpanView>
    decreases n, 0nat,
{
    seq![n.span] + forest_spans(n.children)
}

/// The spans of the trees `f`, tree by tree.
pub open spec fn forest_spans(f: Seq<IrNodeView>) -> Seq<SpanView>
    decreases f, 1nat,
{
    if f.len() == 0 {
        Seq::empty()
    } else {
        forest_spans(f.drop_last()) + tree_spans(f.last())
    }
}

/// The spans of trees one behind the other are those of the first and then
/// those of the others.
pub proof fn lemma_forest_spans_add(a: Seq<IrNodeView>, b: Seq<IrNodeView>)
    ensures
        forest_spans(a + b) == forest_spans(a) + forest_spans(b),
    decreases b.len(),
{
    if b.len() == 0 {
        assert(a + b =~= a);
        assert(forest_spans(a) + forest_spans(b) =~= forest_spans(a));
    } else {
        lemma_forest_spans_add(a, b.drop_last());
        assert((a + b).drop_last() =~= a + b.drop_last());
        assert((a + b).last() == b.last());
        assert(forest_spans(a) + (forest_spans(b.drop_last()) + tree_spans(b.last()))
            =~= (forest_spans(a) + forest_spans(b.drop_last())) + tree_spans(b.last()));
    }
}

/// Whether `s` holds a span of the range `k`.
pub open spec fn has_key(s: Seq<SpanView>, k: (int, int)) -> bool {
    exists|a: int| 0 <= a < s.len() && key_of(#[trigger] s[a]) == k
}

/// No two spans of `s` have the same range.
pub open spec fn keys_differ(s: Seq<SpanView>) -> bool {
    forall|a: int, b: int| 0 <= a < b < s.len() ==> key_of(#[trigger] s[a]) != key_of(#[trigger] s[b])
}

/// What the visited ranges do for a join: the trees hold no range that was
/// visited before and no range twice, every span of the trees is one of
/// the list, and afterwards the ranges of the trees are visited, and with
/// them the range of every span of the list from `i` on.
pub proof fn lemma_join_once(nodes: Seq<SpanView>, i: int, seen: Set<(int, int)>)
    requires
        0 <= i,
    ensures
        ({
            let joined = join_from(nodes, i, seen);
            let spans = forest_spans(joined.0);
            &&& keys_differ(spans)
            &&& forall|a: int| 0 <= a < spans.len() ==> !seen.contains(key_of(#[trigger] spans[a]))
            &&& forall|a: int|
                0 <= a < spans.len() ==> exists|j: int|
                    0 <= j < nodes.len() && nodes[j] == #[trigger] spans[a]
            &&& forall|k: (int, int)|
                joined.1.contains(k) <==> seen.contains(k) || has_key(spans, k)
            &&& forall|j: int| i <= j < nodes.len() ==> joined.1.contains(key_of(#[trigger] nodes[j]))
        }),
    decreases nodes.len(), nodes.len() - i,
{
    let joined = join_from(nodes, i, seen);
    let spans = forest_spans(joined.0);
    if i < nodes.len() {
        let node = nodes[i];
        if seen.contains(key_of(node)) {
            lemma_join_once(nodes, i + 1, seen);
        } else {
            let inner = contained(nodes, node.start, node.end, nodes.len() as int);
            lemma_contained(nodes, node.start, node.end, nodes.len() as int);
            assert(!inside(nodes[i], node.start, node.end));
            let visited = seen.insert(key_of(node));
            let below = join_from(inner, 0, visited);
            lemma_join_once(inner, 0, visited);
            let rest = join_from(nodes, i + 1, below.1);
            lemma_join_once(nodes, i + 1, below.1);
            let tree = IrNodeView { span: node, children: below.0 };
            let under = forest_spans(below.0);
            let behind = forest_spans(rest.0);
            assert(joined.0 == seq![tree] + rest.0);
            lemma_forest_spans_add(seq![tree], rest.0);
            assert(forest_spans(seq![tree]) =~= tree_spans(tree)) by {
                assert(seq![tree].drop_last() =~= Seq::<IrNodeView>::empty());
                assert(forest_spans(Seq::<IrNodeView>::empty()) =~= Seq::<SpanView>::empty());
                assert(seq![tree].last() == tree);
            }
            assert(spans =~= seq![node] + under + behind);
            let own = seq![node];
            assert forall|a: int| 0 <= a < spans.len() implies !seen.contains(
                key_of(#[trigger] spans[a]),
            ) && exists|j: int| 0 <= j < nodes.len() && nodes[j] == spans[a] by {
                if a == 0 {
                    assert(nodes[i] == spans[0]);
                } else if a < 1 + under.len() {
                    let x = under[a - 1];
                    assert(spans[a] == x);
                    assert(!visited.contains(key_of(x)));
                    let j = choose|j: int| 0 <= j < inner.len() && inner[j] == x;
                    let k = choose|k: int| 0 <= k < nodes.len() && nodes[k] == inner[j];
                    assert(nodes[k] == x);
                } else {
                    let x = behind[a - 1 - under.len()];
                    assert(spans[a] == x);
                    assert(!below.1.contains(key_of(x)));
                    assert(visited.contains(key_of(x)) ==> below.1.contains(key_of(x)));
                }
            }
            assert forall|a: int, b: int| 0 <= a < b < spans.len() implies key_of(
                #[trigger] spans[a],
            ) != key_of(#[trigger] spans[b]) by {
                if a == 0 {
                    if b < 1 + under.len() {
                        assert(spans[b] == under[b - 1]);
                        assert(!visited.contains(key_of(under[b - 1])));
                    } else {
                        let y = behind[b - 1 - under.len()];
                        assert(spans[b] == y);
                        assert(!below.1.contains(key_of(y)));
                        assert(visited.contains(key_of(node)));
                    }
                } else if b < 1 + under.len() {
                    assert(spans[a] == under[a - 1] && spans[b] == under[b - 1]);
                } else if a >= 1 + under.len() {
                    assert(spans[a] == behind[a - 1 - under.len()]);
                    assert(spans[b] == behind[b - 1 - under.len()]);
                } else {
                    let x = under[a - 1];
                    let y = behind[b - 1 - under.len()];
                    assert(spans[a] == x && spans[b] == y);
                    assert(has_key(under, key_of(x)));
                    assert(below.1.contains(key_of(x)));
                    assert(!below.1.contains(key_of(y)));
                }
            }
            assert forall|k: (int, int)|
                joined.1.contains(k) <==> seen.contains(k) || has_key(spans, k) by {
                if has_key(spans, k) {
                    let a = choose|a: int| 0 <= a < spans.len() && key_of(#[trigger] spans[a]) == k;
                    if a == 0 {
                    } else if a < 1 + under.len() {
                        assert(spans[a] == under[a - 1]);
                        assert(has_key(under, k));
                    } else {
                        assert(spans[a] == behind[a - 1 - under.len()]);
                        assert(has_key(behind, k));
                    }
                }
                if has_key(under, k) {
                    let a = choose|a: int| 0 <= a < under.len() && key_of(#[trigger] under[a]) == k;
                    assert(spans[a + 1] == under[a]);
                }
                if has_key(behind, k) {
                    let a = choose|a: int|
                        0 <= a < behind.len() && key_of(#[trigger] behind[a]) == k;
                    assert(spans[a + 1 + under.len()] == behind[a]);
                }
                if k == key_of(node) {
                    assert(key_of(spans[0]) == k);
                }
            }
            assert forall|j: int| i <= j < nodes.len() implies joined.1.contains(
                key_of(#[trigger] nodes[j]),
            ) by {
                if j == i {
                    assert(visited.contains(key_of(node)));
                    assert(below.1.contains(key_of(node)));
                }
            }
        }
    } else {
        assert(spans =~= Seq::<SpanView>::empty());
    }
}

/// The ranges that a join has visited.
pub struct Visited {
    keys: Vec<(usize, usize)>,
}

impl View for Visited {
    type V = Set<(int, int)>;

    closed spec fn view(&self) -> Set<(int, int)> {
        Set::new(
            |k: (int, int)|
                exists|i: int|
                    0 <= i < self.keys@.len() && (#[trigger] self.keys@[i]).0 == k.0
                        && self.keys@[i].1 == k.1,
        )
    }
}

impl Visited {
    /// The set that holds no range.
    pub fn new() -> (out: Self)
        ensures
            out@ == Set::<(int, int)>::empty(),
    {
        let out = Visited { keys: Vec::new() };
        assert(out@ =~= Set::<(int, int)>::empty());
        out
    }

    /// Adds the range `start..end`, and says whether it was new.
    pub fn insert(&mut self, start: usize, end: usize) -> (fresh: bool)
        ensures
            final(self)@ == old(self)@.insert((start as int, end as int)),
            fresh == !old(self)@.contains((start as int, end as int)),
    {
        let mut i: usize = 0;
        while i < self.keys.len()
            invariant
                i <= self.keys@.len(),
                self.keys@ == old(self).keys@,
                forall|j: int|
                    0 <= j < i ==> !((#[trigger] self.keys@[j]).0 == start && self.keys@[j].1
                        == end),
            decreases self.keys@.len() - i,
        {
            if self.keys[i].0 == start && self.keys[i].1 == end {
                assert(self@ =~= old(self)@.insert((start as int, end as int)));
                return false;
            }
            i += 1;
        }
        self.keys.push((start, end));
        proof {
            let key = (start as int, end as int);
            assert(self.keys@[self.keys@.len() - 1] == (start, end));
            assert forall|k: (int, int)| old(self)@.insert(key).contains(k) implies self@.contains(
                k,
            ) by {
                if k != key {
                    let j = choose|j: int|
                        0 <= j < old(self).keys@.len() && (#[trigger] old(self).keys@[j]).0 == k.0
                            && old(self).keys@[j].1 == k.1;
                    assert(self.keys@[j] == old(self).keys@[j]);
                }
            }
            assert forall|k: (int, int)| self@.contains(k) implies old(self)@.insert(key).contains(
                k,
            ) by {
                let j = choose|j: int|
                    0 <= j < self.keys@.len() && (#[trigger] self.keys@[j]).0 == k.0
                        && self.keys@[j].1 == k.1;
                if j < old(self).keys@.len() {
                    assert(old(self).keys@[j] == self.keys@[j]);
                }
            }
            assert(self@ =~= old(self)@.insert(key));
        }
        true
    }
}

/// The spans of `ir_nodes` that lie strictly inside `start..end`.
pub fn find_ir_nodes_in_coords(ir_nodes: &Vec<Span>, start: usize, end: usize) -> (out: Vec<Span>)
    ensures
        span_views(out@) == contained(
            span_views(ir_nodes@),
            start as int,
            end as int,
            ir_nodes@.len() as int,
        ),
{
    let mut out: Vec<Span> = Vec::new();
    let mut i: usize = 0;
    let ghost spans = span_views(ir_nodes@);
    assert(span_views(out@) =~= contained(spans, start as int, end as int, 0));
    while i < ir_nodes.len()
        invariant
            i <= ir_nodes@.len(),
            spans == span_views(ir_nodes@),
            span_views(out@) == contained(spans, start as int, end as int, i as int),
        decreases ir_nodes@.len() - i,
    {
        if ir_nodes[i].start > start && ir_nodes[i].end < end {
            let ghost before = span_views(out@);
            out.push(ir_nodes[i].clone());
            assert(span_views(out@) =~= before.push(spans[i as int]));
        }
        i += 1;
    }
    out
}

/// Joins `nodes` into trees, passing over the ranges in `seen` and adding
/// to it those that it visits.
pub fn join_ir_nodes_inner(nodes: &Vec<Span>, seen: &mut Visited) -> (out: Vec<IrNode>)
    ensures
        ir_views(out@) == join_from(span_views(nodes@), 0, old(seen)@).0,
        final(seen)@ == join_from(span_views(nodes@), 0, old(seen)@).1,
    decreases nodes@.len(),
{
    let mut out: Vec<IrNode> = Vec::new();
    let ghost spans = span_views(nodes@);
    let ghost all = join_from(spans, 0, seen@);
    let mut i: usize = 0;
    while i < nodes.len()
        invariant
            i <= nodes@.len(),
            spans == span_views(nodes@),
            ir_views(out@) + join_from(spans, i as int, seen@).0 == all.0,
            join_from(spans, i as int, seen@).1 == all.1,
        decreases nodes@.len() - i,
    {
        let ghost seen_before = seen@;
        let ghost node = spans[i as int];
        if seen.insert(nodes[i].start, nodes[i].end) {
            proof {
                lemma_contained(spans, node.start, node.end, spans.len() as int);
                assert(!inside(spans[i as int], node.start, node.end));
            }
            let children = find_ir_nodes_in_coords(nodes, nodes[i].start, nodes[i].end);
            let processed_children = join_ir_nodes_inner(&children, seen);
            let ghost before = ir_views(out@);
            let tree = IrNode { span: nodes[i].clone(), children: processed_children };
            proof {
                lemma_ir_view(tree);
            }
            out.push(tree);
            proof {
                let rest = join_from(spans, i + 1, seen@).0;
                assert(ir_views(out@) =~= before.push(tree@));
                assert(join_from(spans, i as int, seen_before).0 =~= seq![tree@] + rest);
                assert(before.push(tree@) + rest =~= before + (seq![tree@] + rest));
            }
        } else {
            assert(seen@ =~= seen_before);
        }
        i += 1;
    }
    proof {
        assert(ir_views(out@) + Seq::<IrNodeView>::empty() =~= ir_views(out@));
    }
    out
}

/// The forest of `ir_nodes`.
pub fn join_ir_nodes(ir_nodes: Vec<Span>) -> (out: Vec<IrNode>)
    ensures
        ir_views(out@) == join(span_views(ir_nodes@)),
{
    let mut seen = Visited::new();
    join_ir_nodes_inner(&ir_nodes, &mut seen)
}

} // verus!
