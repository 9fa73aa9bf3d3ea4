use vstd::prelude::*;
use crate::consumption::{
    entered,
    edges_of, lemma_apply_dependencies_consumes, lemma_consumed_chain,
    lemma_fold_result_scopes_consumes, lemma_process_child_consumes,
    lemma_process_children_consumes, lemma_translate_children_consumes,
    lemma_translate_node_consumes, lemma_translate_query_consumes, nodes_of,
};
use crate::expression::{BindingView, DbQueryView, ExpressionView};
use crate::graph::{node_name, GraphView, NodeView};
use crate::order::{lemma_child_pairs_exact, lemma_select_keeps_order};
use crate::plan::{
    apply_dependencies, bind_targets, finish_query, fold_bindings, fold_result_scopes,
    lemma_follows_unvisited, lemma_mark_visited, process_child_with_dependency, process_children,
    translate_children, translate_node, translate_query, translate_roots, with_projection,
    Answers, Outcome,
};
use crate::query::QueryView;
use crate::reach::{
    joined, lemma_child_pairs_joined, lemma_incoming_edges, lemma_roots_are_nodes,
    lemma_select_joined,
};

verus! {

impl ExpressionView {
    /// How many statements for the data store the expression holds.
    pub open spec fn leaf_count(self) -> nat
        decreases self, 0nat,
    {
        match self {
            ExpressionView::Sequence(items) => sum_leaves(items, items.len()),
            ExpressionView::Get { name } => 0,
            ExpressionView::Let { bindings, expr } => sum_bound(bindings, bindings.len())
                + expr.leaf_count(),
            ExpressionView::GetFirstNonEmpty { names } => 0,
            ExpressionView::MapField { field, records } => records.leaf_count(),
            ExpressionView::Query(_) => 1,
        }
    }

    /// Whether the statement `d` is among the leaves of the expression.
    pub open spec fn holds(self, d: DbQueryView) -> bool
        decreases self,
    {
        match self {
            ExpressionView::Sequence(items) => exists|i: int|
                0 <= i < items.len() && (#[trigger] items[i]).holds(d),
            ExpressionView::Get { name } => false,
            ExpressionView::Let { bindings, expr } => expr.holds(d) || exists|i: int|
                0 <= i < bindings.len() && (#[trigger] bindings[i]).expr.holds(d),
            ExpressionView::GetFirstNonEmpty { names } => false,
            ExpressionView::MapField { field, records } => records.holds(d),
            ExpressionView::Query(q) => q == d,
        }
    }
}

/// How many statements the first `upto` of `items` hold.
pub open spec fn sum_leaves(items: Seq<ExpressionView>, upto: nat) -> nat
    decreases items, upto,
{
    if upto == 0 || upto > items.len() {
        0
    } else {
        sum_leaves(items, (upto - 1) as nat) + items[upto - 1].leaf_count()
    }
}

/// How many statements the first `upto` of `bindings` hold.
pub open spec fn sum_bound(bindings: Seq<BindingView>, upto: nat) -> nat
    decreases bindings, upto,
{
    if upto == 0 || upto > bindings.len() {
        0
    } else {
        sum_bound(bindings, (upto - 1) as nat) + bindings[upto - 1].expr.leaf_count()
    }
}

proof fn lemma_sum_agree(s: Seq<ExpressionView>, t: Seq<ExpressionView>, k: nat)
    requires
        k <= s.len(),
        k <= t.len(),
        forall|i: int| 0 <= i < k ==> s[i] == t[i],
    ensures
        sum_leaves(s, k) == sum_leaves(t, k),
    decreases k,
{
    if k > 0 {
        lemma_sum_agree(s, t, (k - 1) as nat);
    }
}

proof fn lemma_sum_concat(s: Seq<ExpressionView>, t: Seq<ExpressionView>, k: nat)
    requires
        k <= t.len(),
    ensures
        sum_leaves(s + t, s.len() + k) == sum_leaves(s, s.len()) + sum_leaves(t, k),
    decreases k,
{
    if k == 0 {
        lemma_sum_agree(s + t, s, s.len());
    } else {
        lemma_sum_concat(s, t, (k - 1) as nat);
        assert((s + t)[s.len() + k - 1] == t[k - 1]);
    }
}

proof fn lemma_sum_bound(pairs: Seq<(int, int)>, exprs: Seq<ExpressionView>, k: nat)
    requires
        exprs.len() == pairs.len(),
        k <= pairs.len(),
    ensures
        sum_bound(bind_targets(pairs, exprs), k) == sum_leaves(exprs, k),
    decreases k,
{
    if k > 0 {
        lemma_sum_bound(pairs, exprs, (k - 1) as nat);
    }
}

/// Whether the slot holds an operation or nothing.
pub open spec fn holds_at_most_operation(slot: crate::graph::NodeSlotView) -> bool {
    match slot.content {
        None => true,
        Some(NodeView::Query(_)) => true,
        _ => false,
    }
}

/// Whether the graph holds operations only, each node either its operation
/// or nothing, and no edge leaves a result node.
pub open spec fn plain(g: GraphView) -> bool {
    &&& g.well_formed()
    &&& forall|n: int| g.has_node(n) ==> holds_at_most_operation(#[trigger] g.nodes[n])
    &&& forall|e: int| g.has_edge(e) ==> !g.is_result((#[trigger] g.edges[e]).source)
}

/// A later state of a graph of operations only is one too.
pub proof fn lemma_plain_kept(g: GraphView, after: GraphView)
    requires
        plain(g),
        after.consumed_from(g),
    ensures
        plain(after),
{
    assert(after.shape().node_count == g.shape().node_count);
    assert forall|n: int| after.has_node(n) implies holds_at_most_operation(
        #[trigger] after.nodes[n],
    ) by {
        assert(g.has_node(n));
        let slot = g.nodes[n];
    }
    assert forall|e: int| after.has_edge(e) implies !after.is_result(
        (#[trigger] after.edges[e]).source,
    ) by {
        assert(g.shape().has_edge(e));
        assert(after.shape().links[e] == g.shape().links[e]);
        let slot = g.edges[e];
    }
}

/// Whether some parent of `c` was visited between `g` and `after`.
pub open spec fn has_new_parent(g: GraphView, after: GraphView, c: int) -> bool {
    exists|e: int|
        g.has_edge(e) && (#[trigger] g.edges[e]).target == c && entered(g, after, g.edges[e].source)
}

/// Whether every parent of `c` is marked as visited.
pub open spec fn parents_visited(g: GraphView, c: int) -> bool {
    forall|e: int| 0 <= e < g.edges.len() ==> g.from_visited(#[trigger] g.edges[e], c)
}

/// Whether the statement that the builder gave for the operation of `m`
/// is among the leaves of `exprs`.
pub open spec fn lowered(exprs: Seq<ExpressionView>, answers: Answers, m: int) -> bool {
    exists|q: QueryView, i: int|
        0 <= i < exprs.len() && answers(m, q) is Ok && #[trigger] exprs[i].holds(
            answers(m, q)->Ok_0,
        )
}

/// Whether no node was left out between `g` and `after`: a node of which a
/// parent was visited, and all of whose parents are visited, is visited.
pub open spec fn covered(g: GraphView, after: GraphView) -> bool {
    forall|c: int|
        g.has_node(c) && #[trigger] has_new_parent(g, after, c) && parents_visited(after, c)
            ==> after.nodes[c].visited
}

/// Whether the step from `g` to `after`, which gave `exprs`, translated
/// what it met, all of it and each node once: there is one leaf for each
/// node that was visited, each such node gave up its operation and has the
/// builder's statement for it among the leaves, and no node was left out.
pub open spec fn complete(
    g: GraphView,
    after: GraphView,
    answers: Answers,
    exprs: Seq<ExpressionView>,
) -> bool {
    &&& after.consumed_from(g)
    &&& sum_leaves(exprs, exprs.len()) + after.unvisited() == g.unvisited()
    &&& forall|m: int| #[trigger]
        entered(g, after, m) ==> g.nodes[m].content is Some && after.nodes[m].content is None
            && lowered(exprs, answers, m)
    &&& covered(g, after)
}

proof fn lemma_complete_nothing(g: GraphView, answers: Answers)
    ensures
        complete(g, g, answers, Seq::empty()),
{
    assert forall|c: int| g.has_node(c) && #[trigger] has_new_parent(g, g, c) implies false by {
        let e = choose|e: int|
            g.has_edge(e) && (#[trigger] g.edges[e]).target == c && entered(
                g,
                g,
                g.edges[e].source,
            );
    }
}

/// What two steps translate, one after the other, they translate
/// together.
proof fn lemma_complete_chain(
    g: GraphView,
    mid: GraphView,
    after: GraphView,
    answers: Answers,
    first: Seq<ExpressionView>,
    second: Seq<ExpressionView>,
)
    requires
        g.well_formed(),
        complete(g, mid, answers, first),
        complete(mid, after, answers, second),
    ensures
        complete(g, after, answers, first + second),
{
    let all = first + second;
    lemma_consumed_chain(g, mid, after);
    lemma_sum_concat(first, second, second.len());
    assert(mid.shape() == g.shape());
    assert(mid.shape().node_count == g.shape().node_count);
    assert forall|m: int| #[trigger] entered(g, after, m) implies g.nodes[m].content is Some
        && after.nodes[m].content is None && lowered(all, answers, m) by {
        assert(mid.has_node(m));
        let between = mid.nodes[m];
        if mid.nodes[m].visited {
            assert(entered(g, mid, m));
            let slot = after.nodes[m];
            let (q, i) = choose|q: QueryView, i: int|
                0 <= i < first.len() && answers(m, q) is Ok && #[trigger] first[i].holds(
                    answers(m, q)->Ok_0,
                );
            assert(all[i] == first[i]);
            assert(all[i].holds(answers(m, q)->Ok_0));
        } else {
            assert(entered(mid, after, m));
            let (q, i) = choose|q: QueryView, i: int|
                0 <= i < second.len() && answers(m, q) is Ok && #[trigger] second[i].holds(
                    answers(m, q)->Ok_0,
                );
            assert(all[first.len() + i] == second[i]);
            assert(all[first.len() + i].holds(answers(m, q)->Ok_0));
        }
    }
    lemma_covered_chain(g, mid, after);
}

proof fn lemma_covered_chain(g: GraphView, mid: GraphView, after: GraphView)
    requires
        g.well_formed(),
        mid.consumed_from(g),
        after.consumed_from(mid),
        covered(g, mid),
        covered(mid, after),
    ensures
        covered(g, after),
{
    assert(mid.shape() == g.shape());
    assert(after.shape() == g.shape());
    assert(mid.shape().node_count == g.shape().node_count);
    assert forall|c: int|
        g.has_node(c) && #[trigger] has_new_parent(g, after, c) && parents_visited(
            after,
            c,
        ) implies after.nodes[c].visited by {
        assert(mid.has_node(c));
        if has_new_parent(mid, after, c) {
        } else {
            let e = choose|e: int|
                g.has_edge(e) && (#[trigger] g.edges[e]).target == c && entered(
                    g,
                    after,
                    g.edges[e].source,
                );
            assert forall|x: int| 0 <= x < mid.edges.len() implies mid.from_visited(
                #[trigger] mid.edges[x],
                c,
            ) by {
                assert(g.shape().has_edge(x));
                assert(mid.shape().links[x] == after.shape().links[x]);
                if mid.edges[x].target == c {
                    let q = mid.edges[x].source;
                    assert(after.from_visited(after.edges[x], c));
                    assert(g.shape().has_node(g.shape().links[x].0));
                    if !mid.nodes[q].visited {
                        assert(entered(mid, after, q));
                        assert(has_new_parent(mid, after, c));
                    }
                }
            }
            assert(parents_visited(mid, c));
            assert(g.shape().links[e] == mid.shape().links[e]);
            let p = g.edges[e].source;
            assert(mid.from_visited(mid.edges[e], c));
            assert(entered(g, mid, p));
            assert(has_new_parent(g, mid, c));
            assert(mid.nodes[c].visited);
        }
    }
}

/// An expression that holds what `exprs` hold, leaf for leaf, stands for
/// them in a complete step.
proof fn lemma_complete_wrap(
    g: GraphView,
    after: GraphView,
    answers: Answers,
    exprs: Seq<ExpressionView>,
    wrapped: ExpressionView,
)
    requires
        complete(g, after, answers, exprs),
        wrapped.leaf_count() == sum_leaves(exprs, exprs.len()),
        forall|d: DbQueryView, i: int|
            0 <= i < exprs.len() && #[trigger] exprs[i].holds(d) ==> wrapped.holds(d),
    ensures
        complete(g, after, answers, seq![wrapped]),
{
    let one = seq![wrapped];
    assert(sum_leaves(one, 1) == sum_leaves(one, 0) + one[0].leaf_count());
    assert forall|m: int| #[trigger] entered(g, after, m) implies lowered(one, answers, m) by {
        let (q, i) = choose|q: QueryView, i: int|
            0 <= i < exprs.len() && answers(m, q) is Ok && #[trigger] exprs[i].holds(
                answers(m, q)->Ok_0,
            );
        assert(one[0].holds(answers(m, q)->Ok_0));
    }
}

proof fn lemma_sequence_holds(items: Seq<ExpressionView>, i: int, d: DbQueryView)
    requires
        0 <= i < items.len(),
        items[i].holds(d),
    ensures
        ExpressionView::Sequence(items).holds(d),
{
    let whole = ExpressionView::Sequence(items);
    assert(whole->Sequence_0 == items);
    let item = items[i];
    assert(exists|k: int| 0 <= k < items.len() && (#[trigger] items[k]).holds(d));
    assert(whole.holds(d) == (exists|k: int|
        0 <= k < items.len() && (#[trigger] items[k]).holds(d)));
}

proof fn lemma_same_marks(a: GraphView, b: GraphView)
    requires
        a.follows(b),
        b.follows(a),
    ensures
        a.unvisited() == b.unvisited(),
{
    lemma_follows_unvisited(a, b);
    lemma_follows_unvisited(b, a);
}

/// No node was left out below a node that translated its direct children.
proof fn lemma_covered_below(
    g: GraphView,
    below: GraphView,
    after: GraphView,
    n: int,
)
    requires
        g.well_formed(),
        g.has_node(n),
        !g.nodes[n].visited,
        below.consumed_from(g.mark_visited(n)),
        covered(g.mark_visited(n), below),
        after.follows(below),
        below.follows(after),
        (forall|i: int|
            0 <= i < g.mark_visited(n).child_pairs(n).len() ==> below.nodes[(
            #[trigger] g.mark_visited(n).child_pairs(n)[i]).1].visited) || (forall|e: int|
            g.has_edge(e) ==> (#[trigger] g.edges[e]).source != n),
    ensures
        covered(g, after),
{
    let marked = g.mark_visited(n);
    let pairs = marked.child_pairs(n);
    assert(marked.shape() == g.shape());
    assert(below.shape() == g.shape());
    assert(after.shape() == g.shape());
    assert(below.shape().node_count == g.shape().node_count);
    assert(after.shape().node_count == g.shape().node_count);
    assert forall|c: int|
        g.has_node(c) && #[trigger] has_new_parent(g, after, c) && parents_visited(
            after,
            c,
        ) implies after.nodes[c].visited by {
        assert(below.has_node(c) && after.has_node(c));
        let e = choose|e: int|
            g.has_edge(e) && (#[trigger] g.edges[e]).target == c && entered(
                g,
                after,
                g.edges[e].source,
            );
        let p = g.edges[e].source;
        assert(g.shape().has_edge(e));
        assert(g.shape().has_node(g.shape().links[e].0));
        assert(marked.shape().links[e] == g.shape().links[e]);
        assert(below.shape().links[e] == g.shape().links[e]);
        assert(marked.edges[e].source == p && marked.edges[e].target == c);
        assert(below.has_node(p));
        assert(below.nodes[p].visited);
        assert forall|x: int| 0 <= x < below.edges.len() implies below.from_visited(
            #[trigger] below.edges[x],
            c,
        ) by {
            assert(g.shape().has_edge(x));
            assert(below.shape().links[x] == after.shape().links[x]);
            assert(g.shape().has_node(g.shape().links[x].0));
            if below.edges[x].target == c {
                assert(after.from_visited(after.edges[x], c));
                assert(after.has_node(below.edges[x].source));
            }
        }
        assert(parents_visited(below, c));
        if has_new_parent(marked, below, c) {
            assert(below.nodes[c].visited);
        } else {
            assert forall|x: int| 0 <= x < marked.edges.len() implies marked.from_visited(
                #[trigger] marked.edges[x],
                c,
            ) by {
                assert(g.shape().has_edge(x));
                assert(marked.shape().links[x] == below.shape().links[x]);
                assert(g.shape().has_node(g.shape().links[x].0));
                if marked.edges[x].target == c {
                    let q = marked.edges[x].source;
                    assert(below.from_visited(below.edges[x], c));
                    if !marked.nodes[q].visited {
                        assert(entered(marked, below, q));
                        assert(has_new_parent(marked, below, c));
                    }
                }
            }
            if !marked.nodes[p].visited {
                assert(entered(marked, below, p));
                assert(has_new_parent(marked, below, c));
            }
            assert(p == n);
            if !marked.nodes[c].visited {
                assert(marked.is_ready(c));
                lemma_child_pairs_exact(marked, n, marked.edges.len() as int, e, c);
                assert(pairs.contains((e, c)));
                let i = choose|i: int| 0 <= i < pairs.len() && pairs[i] == (e, c);
                assert(below.nodes[pairs[i].1].visited);
            } else {
                let slot = below.nodes[c];
            }
        }
    }
}

/// Coverage, for one node: where it is translated, it and all that it
/// led to was translated, each node once.
pub proof fn lemma_translate_node_complete(
    g: GraphView,
    answers: Answers,
    n: int,
    parents: Seq<int>,
)
    requires
        plain(g),
        g.has_node(n),
        edges_of(g, parents),
    ensures
        translate_node(g, answers, n, parents).result matches Ok(e) ==> complete(
            g,
            translate_node(g, answers, n, parents).graph,
            answers,
            seq![e],
        ) && translate_node(g, answers, n, parents).graph.nodes[n].visited,
    decreases g.unvisited(), 1int, 0nat,
{
    let slot = g.nodes[n];
    match g.nodes[n].content {
        Some(NodeView::Query(_)) => {
            lemma_translate_query_complete(g, answers, n, parents);
        },
        _ => {},
    }
}

/// Coverage, for a node that holds an operation.
pub proof fn lemma_translate_query_complete(
    g: GraphView,
    answers: Answers,
    n: int,
    parents: Seq<int>,
)
    requires
        plain(g),
        g.has_node(n),
        edges_of(g, parents),
    ensures
        translate_query(g, answers, n, parents).result matches Ok(e) ==> complete(
            g,
            translate_query(g, answers, n, parents).graph,
            answers,
            seq![e],
        ) && translate_query(g, answers, n, parents).graph.nodes[n].visited,
    decreases g.unvisited(), 0int, 0nat,
{
    if !g.nodes[n].visited {
        let marked = g.mark_visited(n);
        lemma_mark_visited(g, n);
        assert(marked.consumed_from(g));
        lemma_plain_kept(g, marked);
        let below = if marked.is_result(n) {
            Outcome::<Seq<ExpressionView>> { graph: marked, result: Ok(Seq::empty()) }
        } else {
            process_children(marked, answers, n)
        };
        if marked.is_result(n) {
            lemma_complete_nothing(marked, answers);
            assert forall|e: int| g.has_edge(e) implies (#[trigger] g.edges[e]).source != n by {}
        } else {
            lemma_process_children_complete(marked, answers, n);
            lemma_process_children_consumes(marked, answers, n);
        }
        lemma_translate_query_consumes(g, answers, n, parents);
        if let Ok(children) = below.result {
            if let Ok(e) = translate_query(g, answers, n, parents).result {
                let g2 = below.graph;
                assert(g2.consumed_from(marked));
                assert(g2.shape() == g.shape());
                assert(g2.has_node(n));
                let plucked = g2.pluck_node(n);
                let operation = g2.nodes[n].content->Some_0->Query_0;
                assert(edges_of(plucked, parents)) by {
                    assert forall|i: int| 0 <= i < parents.len() implies plucked.has_edge(
                        #[trigger] parents[i],
                    ) by {
                        assert(g.has_edge(parents[i]));
                    }
                }
                lemma_apply_dependencies_consumes(plucked, operation, parents);
                let applied = apply_dependencies(plucked, operation, parents);
                let after = applied.graph;
                let finished = applied.result->Ok_0;
                let answer = answers(n, finished);
                let d = answer->Ok_0;
                assert(finish_query(node_name(n), answer, children) == Ok::<
                    ExpressionView,
                    crate::error::TranslateErrorView,
                >(e));
                assert(after.nodes == plucked.nodes);
                assert(plucked.follows(g2) && g2.follows(plucked));
                assert(after.follows(g2) && g2.follows(after)) by {
                    assert(after.shape() == plucked.shape());
                }
                lemma_same_marks(after, g2);
                lemma_covered_below(g, g2, after, n);
                assert(after.consumed_from(g));
                assert(e.holds(d) && e.leaf_count() == 1 + sum_leaves(children, children.len())
                    && forall|x: DbQueryView, i: int|
                    0 <= i < children.len() && #[trigger] children[i].holds(x) ==> e.holds(x)) by {
                    if children.len() > 0 {
                        let bindings = seq![
                            BindingView { name: node_name(n), expr: ExpressionView::Query(d) },
                        ];
                        let body = ExpressionView::Sequence(children);
                        assert(e == ExpressionView::Let { bindings, expr: Box::new(body) });
                        assert(bindings[0].expr.holds(d));
                        assert(sum_bound(bindings, 1) == sum_bound(bindings, 0)
                            + bindings[0].expr.leaf_count());
                        assert(bindings[0].expr.leaf_count() == 1);
                        assert forall|x: DbQueryView, i: int|
                            0 <= i < children.len() && #[trigger] children[i].holds(
                                x,
                            ) implies e.holds(x) by {
                            lemma_sequence_holds(children, i, x);
                        }
                        assert(body.leaf_count() == sum_leaves(children, children.len()));
                        assert(e.leaf_count() == sum_bound(bindings, bindings.len())
                            + body.leaf_count());
                    } else {
                        assert(e == ExpressionView::Query(d));
                    }
                }
                let one = seq![e];
                assert(sum_leaves(one, 1) == sum_leaves(one, 0) + one[0].leaf_count());
                assert forall|m: int| #[trigger] entered(g, after, m) implies g.nodes[m].content is Some
                    && after.nodes[m].content is None && lowered(one, answers, m) by {
                    let at_first = marked.nodes[m];
                    if m == n {
                        let kept = g2.nodes[n];
                        assert(one[0].holds(answers(n, finished)->Ok_0));
                    } else {
                        assert(marked.has_node(m));
                        assert(entered(marked, g2, m));
                        let (q, i) = choose|q: QueryView, i: int|
                            0 <= i < children.len() && answers(m, q) is Ok && #[trigger] children[i].holds(
                                answers(m, q)->Ok_0,
                            );
                        assert(one[0].holds(answers(m, q)->Ok_0));
                    }
                }
            }
        }
    }
}

/// Coverage, for the children of a node: all its direct children were
/// translated.
pub proof fn lemma_process_children_complete(g: GraphView, answers: Answers, n: int)
    requires
        plain(g),
        g.has_node(n),
    ensures
        process_children(g, answers, n).result matches Ok(exprs) ==> complete(
            g,
            process_children(g, answers, n).graph,
            answers,
            exprs,
        ) && forall|i: int|
            0 <= i < g.child_pairs(n).len() ==> process_children(g, answers, n).graph.nodes[(
            #[trigger] g.child_pairs(n)[i]).1].visited,
    decreases g.unvisited(), 5int, 0nat,
{
    let pairs = g.child_pairs(n);
    lemma_child_pairs_joined(g, n, g.edges.len() as int);
    lemma_select_joined(g.shape(), pairs, false);
    lemma_select_joined(g.shape(), pairs, true);
    let lone = g.shape().select(pairs, false);
    let bearing = g.shape().select(pairs, true);
    lemma_translate_children_complete(g, answers, lone);
    lemma_translate_children_consumes(g, answers, lone);
    let effects = translate_children(g, answers, lone);
    lemma_follows_unvisited(effects.graph, g);
    if let Ok(exprs) = effects.result {
        if let Ok(all) = process_children(g, answers, n).result {
            let after = process_children(g, answers, n).graph;
            let at_lone = lemma_select_keeps_order(g.shape(), pairs, false);
            let at_bearing = lemma_select_keeps_order(g.shape(), pairs, true);
            if bearing.len() > 0 {
                lemma_plain_kept(g, effects.graph);
                lemma_fold_result_scopes_complete(effects.graph, answers, bearing);
                lemma_fold_result_scopes_consumes(effects.graph, answers, bearing);
                let folded = fold_result_scopes(effects.graph, answers, bearing);
                let e = folded.result->Ok_0;
                lemma_complete_chain(g, effects.graph, after, answers, exprs, seq![e]);
                assert(exprs + seq![e] =~= exprs.push(e));
            } else {
                assert(after == effects.graph);
            }
            assert(after.follows(effects.graph));
            assert(effects.graph.shape().node_count == g.shape().node_count);
            assert forall|i: int| 0 <= i < pairs.len() implies after.nodes[(#[trigger] pairs[i]).1].visited by {
                let c = pairs[i].1;
                assert(g.shape().has_node(c));
                if g.shape().contains_result(c) {
                    assert(at_bearing.contains(i));
                    let k = choose|k: int| 0 <= k < at_bearing.len() && at_bearing[k] == i;
                    assert(bearing[k] == pairs[i]);
                } else {
                    assert(at_lone.contains(i));
                    let k = choose|k: int| 0 <= k < at_lone.len() && at_lone[k] == i;
                    assert(lone[k] == pairs[i]);
                    assert(effects.graph.nodes[lone[k].1].visited);
                    assert(effects.graph.has_node(c));
                }
            }
        }
    }
}

/// Coverage, for a fold.
pub proof fn lemma_fold_result_scopes_complete(
    g: GraphView,
    answers: Answers,
    pairs: Seq<(int, int)>,
)
    requires
        plain(g),
        joined(g.shape(), pairs),
    ensures
        fold_result_scopes(g, answers, pairs).result matches Ok(e) ==> complete(
            g,
            fold_result_scopes(g, answers, pairs).graph,
            answers,
            seq![e],
        ) && forall|i: int|
            0 <= i < pairs.len() ==> fold_result_scopes(g, answers, pairs).graph.nodes[(
            #[trigger] pairs[i]).1].visited,
    decreases g.unvisited(), 4int, 0nat,
{
    lemma_translate_children_complete(g, answers, pairs);
    lemma_translate_children_consumes(g, answers, pairs);
    let translated = translate_children(g, answers, pairs);
    if let Ok(exprs) = translated.result {
        let e = fold_bindings(pairs, exprs, g.results.len());
        let bindings = bind_targets(pairs, exprs);
        lemma_sum_bound(pairs, exprs, pairs.len());
        let body = if g.results.len() == 1 {
            ExpressionView::Get { name: crate::plan::target_names(pairs).last() }
        } else {
            ExpressionView::GetFirstNonEmpty { names: crate::plan::target_names(pairs) }
        };
        assert(body.leaf_count() == 0);
        assert(e == ExpressionView::Let { bindings, expr: Box::new(body) });
        assert(e.leaf_count() == sum_bound(bindings, bindings.len()) + body.leaf_count());
        assert forall|d: DbQueryView, i: int|
            0 <= i < exprs.len() && #[trigger] exprs[i].holds(d) implies e.holds(d) by {
            assert(bindings[i].expr.holds(d));
        }
        lemma_complete_wrap(g, translated.graph, answers, exprs, e);
    }
}

/// Coverage, for a list of children: each of them was translated.
pub proof fn lemma_translate_children_complete(
    g: GraphView,
    answers: Answers,
    pairs: Seq<(int, int)>,
)
    requires
        plain(g),
        joined(g.shape(), pairs),
    ensures
        translate_children(g, answers, pairs).result matches Ok(exprs) ==> complete(
            g,
            translate_children(g, answers, pairs).graph,
            answers,
            exprs,
        ) && forall|i: int|
            0 <= i < pairs.len() ==> translate_children(g, answers, pairs).graph.nodes[(
            #[trigger] pairs[i]).1].visited,
    decreases g.unvisited(), 3int, pairs.len(),
{
    if pairs.len() == 0 {
        lemma_complete_nothing(g, answers);
    } else {
        assert(g.shape().has_edge(pairs[0].0));
        assert(g.shape().has_node(pairs[0].1));
        lemma_process_child_consumes(g, answers, pairs[0].0, pairs[0].1);
        lemma_process_child_complete(g, answers, pairs[0].0, pairs[0].1);
        let first = process_child_with_dependency(g, answers, pairs[0].0, pairs[0].1);
        lemma_follows_unvisited(first.graph, g);
        if let Ok(expr) = first.result {
            let rest = pairs.skip(1);
            assert(joined(first.graph.shape(), rest)) by {
                assert forall|i: int| 0 <= i < rest.len() implies g.shape().has_edge(
                    (#[trigger] rest[i]).0,
                ) && g.shape().links[rest[i].0].1 == rest[i].1 && g.shape().has_node(rest[i].1) by {
                    assert(rest[i] == pairs[i + 1]);
                }
            }
            lemma_plain_kept(g, first.graph);
            lemma_translate_children_complete(first.graph, answers, rest);
            lemma_translate_children_consumes(first.graph, answers, rest);
            let tail = translate_children(first.graph, answers, rest);
            if let Ok(exprs) = tail.result {
                lemma_complete_chain(g, first.graph, tail.graph, answers, seq![expr], exprs);
                assert(first.graph.shape().node_count == g.shape().node_count);
                assert forall|i: int| 0 <= i < pairs.len() implies tail.graph.nodes[(
                #[trigger] pairs[i]).1].visited by {
                    if i > 0 {
                        assert(rest[i - 1] == pairs[i]);
                    } else {
                        assert(first.graph.has_node(pairs[0].1));
                    }
                }
            }
        }
    }
}

/// Coverage, for one child.
pub proof fn lemma_process_child_complete(g: GraphView, answers: Answers, edge: int, child: int)
    requires
        plain(g),
        g.has_edge(edge),
        g.has_node(child),
    ensures
        process_child_with_dependency(g, answers, edge, child).result matches Ok(e) ==> complete(
            g,
            process_child_with_dependency(g, answers, edge, child).graph,
            answers,
            seq![e],
        ) && process_child_with_dependency(g, answers, edge, child).graph.nodes[child].visited,
    decreases g.unvisited(), 2int, 0nat,
{
    let incoming = g.shape().incoming(child);
    lemma_incoming_edges(g.shape(), child, g.shape().links.len() as int);
    assert(edges_of(g, incoming)) by {
        assert forall|i: int| 0 <= i < incoming.len() implies g.has_edge(
            #[trigger] incoming[i],
        ) by {
            assert(g.shape().has_edge(incoming[i]));
        }
    }
    lemma_translate_node_complete(g, answers, child, incoming);
    let translated = translate_node(g, answers, child, incoming);
    if let Ok(field) = crate::plan::projected_field(g.edges[edge].content) {
        if let Ok(expr) = translated.result {
            let wrapped = with_projection(field, node_name(g.edges[edge].source), expr);
            let inner = seq![expr];
            assert(sum_leaves(inner, 1) == sum_leaves(inner, 0) + inner[0].leaf_count());
            match field {
                None => {},
                Some(f) => {
                    let source = node_name(g.edges[edge].source);
                    let mapped = ExpressionView::MapField {
                        field: f,
                        records: Box::new(ExpressionView::Get { name: source }),
                    };
                    let bindings = seq![BindingView { name: source, expr: mapped }];
                    assert(wrapped == ExpressionView::Let { bindings, expr: Box::new(expr) });
                    assert(mapped.leaf_count() == 0) by {
                        assert((ExpressionView::Get { name: source }).leaf_count() == 0);
                    }
                    assert(sum_bound(bindings, 1) == sum_bound(bindings, 0)
                        + bindings[0].expr.leaf_count());
                },
            }
            lemma_complete_wrap(g, translated.graph, answers, inner, wrapped);
        }
    }
}

/// Coverage, for a list of roots: each of them was translated.
pub proof fn lemma_translate_roots_complete(g: GraphView, answers: Answers, roots: Seq<int>)
    requires
        plain(g),
        nodes_of(g, roots),
    ensures
        translate_roots(g, answers, roots).result matches Ok(exprs) ==> complete(
            g,
            translate_roots(g, answers, roots).graph,
            answers,
            exprs,
        ) && forall|i: int|
            0 <= i < roots.len() ==> translate_roots(g, answers, roots).graph.nodes[
            #[trigger] roots[i]].visited,
    decreases roots.len(),
{
    if roots.len() == 0 {
        lemma_complete_nothing(g, answers);
    } else {
        assert(g.has_node(roots[0]));
        lemma_translate_node_consumes(g, answers, roots[0], Seq::empty());
        lemma_translate_node_complete(g, answers, roots[0], Seq::empty());
        let first = translate_node(g, answers, roots[0], Seq::empty());
        if let Ok(expr) = first.result {
            let rest = roots.skip(1);
            assert(first.graph.shape().node_count == g.shape().node_count);
            assert forall|i: int| 0 <= i < rest.len() implies first.graph.has_node(
                #[trigger] rest[i],
            ) by {
                assert(rest[i] == roots[i + 1]);
                assert(g.has_node(roots[i + 1]));
            }
            lemma_plain_kept(g, first.graph);
            lemma_translate_roots_complete(first.graph, answers, rest);
            crate::consumption::lemma_translate_roots_consumes(first.graph, answers, rest);
            let tail = translate_roots(first.graph, answers, rest);
            if let Ok(exprs) = tail.result {
                lemma_complete_chain(g, first.graph, tail.graph, answers, seq![expr], exprs);
                assert forall|i: int| 0 <= i < roots.len() implies tail.graph.nodes[
                #[trigger] roots[i]].visited by {
                    if i > 0 {
                        assert(rest[i - 1] == roots[i]);
                    } else {
                        assert(first.graph.has_node(roots[0]));
                    }
                }
            }
        }
    }
}

/// Whether the statement that the builder gave for the operation of `n` is
/// among the leaves of `e`.
pub open spec fn gave(e: ExpressionView, answers: Answers, n: int) -> bool {
    exists|q: QueryView| answers(n, q) is Ok && #[trigger] e.holds(answers(n, q)->Ok_0)
}

/// Whether `rank` puts the source of every edge before its target.
pub open spec fn ranked(g: GraphView, rank: spec_fn(int) -> nat) -> bool {
    forall|e: int| g.has_edge(e) ==> rank((#[trigger] g.edges[e]).source) < rank(g.edges[e].target)
}

/// Whether the graph has no cycle: its nodes can be ranked so that every
/// edge leads from a lower rank to a higher one.
pub open spec fn acyclic(g: GraphView) -> bool {
    exists|rank: spec_fn(int) -> nat| ranked(g, rank)
}

/// Whether no node of the graph is marked as visited.
pub open spec fn untouched(g: GraphView) -> bool {
    forall|n: int| g.has_node(n) ==> !(#[trigger] g.nodes[n]).visited
}

proof fn lemma_count_all(g: GraphView, upto: int)
    requires
        0 <= upto <= g.nodes.len(),
    ensures
        untouched(g) ==> g.unvisited_below(upto) == upto,
        (forall|n: int| g.has_node(n) ==> (#[trigger] g.nodes[n]).visited) ==> g.unvisited_below(
            upto,
        ) == 0,
    decreases upto,
{
    if upto > 0 {
        lemma_count_all(g, upto - 1);
        assert(g.has_node(upto - 1));
        let slot = g.nodes[upto - 1];
    }
}

proof fn lemma_reached(
    g: GraphView,
    after: GraphView,
    rank: spec_fn(int) -> nat,
    roots: Seq<int>,
    c: int,
)
    requires
        g.well_formed(),
        untouched(g),
        ranked(g, rank),
        after.consumed_from(g),
        covered(g, after),
        roots == g.shape().roots(),
        forall|i: int| 0 <= i < roots.len() ==> after.nodes[#[trigger] roots[i]].visited,
        g.has_node(c),
    ensures
        after.nodes[c].visited,
    decreases rank(c),
{
    let shape = g.shape();
    assert(after.shape() == shape);
    if !shape.has_incoming(c) {
        crate::order::lemma_roots_exact(shape, shape.node_count as int, c);
        assert(roots.contains(c));
        let i = choose|i: int| 0 <= i < roots.len() && roots[i] == c;
        assert(after.nodes[roots[i]].visited);
    } else {
        let e = choose|e: int| #[trigger] shape.has_edge(e) && shape.links[e].1 == c;
        assert forall|x: int| 0 <= x < after.edges.len() implies after.from_visited(
            #[trigger] after.edges[x],
            c,
        ) by {
            assert(shape.has_edge(x));
            assert(after.shape().links[x] == shape.links[x]);
            if after.edges[x].target == c {
                let slot = g.edges[x];
                assert(g.has_edge(x));
                assert(shape.has_node(shape.links[x].0));
                lemma_reached(g, after, rank, roots, slot.source);
            }
        }
        let slot = g.edges[e];
        assert(g.has_edge(e));
        assert(shape.has_node(shape.links[e].0));
        let p = slot.source;
        let before = g.nodes[p];
        assert(after.from_visited(after.edges[e], c));
        assert(entered(g, after, p));
        assert(has_new_parent(g, after, c));
    }
}

/// Coverage: in a graph without cycle, of operations only, of which none
/// is visited yet and in which no edge leaves a result node, a plan holds
/// each node exactly once.  It has as many leaves as the graph has nodes,
/// and among them, for each node, the statement that the builder gave for
/// the operation of that node; so every node held an operation.
pub proof fn lemma_plan_holds_each_node_once(g: GraphView, answers: Answers)
    requires
        plain(g),
        acyclic(g),
        untouched(g),
        crate::plan::plan(g, answers) is Ok,
    ensures
        crate::plan::plan(g, answers)->Ok_0.leaf_count() == g.nodes.len(),
        forall|n: int|
            g.has_node(n) ==> (#[trigger] g.nodes[n]).content is Some && gave(
                crate::plan::plan(g, answers)->Ok_0,
                answers,
                n,
            ),
{
    let roots = g.shape().roots();
    lemma_roots_are_nodes(g.shape(), g.shape().node_count as int);
    assert(nodes_of(g, roots)) by {
        assert forall|i: int| 0 <= i < roots.len() implies g.has_node(#[trigger] roots[i]) by {
            assert(g.shape().has_node(roots[i]));
        }
    }
    lemma_translate_roots_complete(g, answers, roots);
    let outcome = translate_roots(g, answers, roots);
    let exprs = outcome.result->Ok_0;
    let after = outcome.graph;
    let e = ExpressionView::Sequence(exprs);
    let rank = choose|rank: spec_fn(int) -> nat| ranked(g, rank);
    assert(after.shape().node_count == g.shape().node_count);
    assert forall|n: int| after.has_node(n) implies (#[trigger] after.nodes[n]).visited by {
        lemma_reached(g, after, rank, roots, n);
    }
    lemma_count_all(g, g.nodes.len() as int);
    lemma_count_all(after, after.nodes.len() as int);
    assert forall|n: int| g.has_node(n) implies (#[trigger] g.nodes[n]).content is Some && gave(
        e,
        answers,
        n,
    ) by {
        assert(after.has_node(n));
        let slot = after.nodes[n];
        assert(entered(g, after, n));
        let (q, i) = choose|q: QueryView, i: int|
            0 <= i < exprs.len() && answers(n, q) is Ok && #[trigger] exprs[i].holds(
                answers(n, q)->Ok_0,
            );
        lemma_sequence_holds(exprs, i, answers(n, q)->Ok_0);
    }
}

} // verus!
