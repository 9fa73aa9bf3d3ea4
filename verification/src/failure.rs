use vstd::prelude::*;
use crate::consumption::{
    entered, touched_only,
    lemma_apply_dependencies_consumes, lemma_consumed_chain, lemma_fold_result_scopes_consumes,
    lemma_process_child_consumes, lemma_process_children_consumes,
    lemma_translate_children_consumes, lemma_translate_node_consumes,
    lemma_translate_query_consumes, };
use crate::coverage::{
    acyclic, has_new_parent, lemma_plain_kept, lemma_plan_holds_each_node_once, plain,
    untouched,
};
use crate::error::TranslateErrorView;
use crate::expression::ExpressionView;
use crate::graph::{node_name, DependencyView, GraphView, NodeView, Shape};
use crate::order::{lemma_incoming_exact, lemma_select_keeps_order};
use crate::plan::{
    apply_dependencies, apply_dependency, fold_result_scopes, lemma_follows_unvisited,
    lemma_mark_visited, plan, process_child_with_dependency, process_children, projected_field,
    translate_children, translate_node, translate_query, translate_roots, Answers, Outcome,
};
use crate::query::QueryView;
use crate::reach::{
    joined, lemma_child_pairs_joined, lemma_incoming_edges, lemma_incoming_targets,
    lemma_roots_are_nodes, lemma_select_joined,
};

verus! {

/// Whether an edge carries what translation takes up: an order of
/// execution, or the projection of one field.
pub open spec fn supported(content: Option<DependencyView>) -> bool {
    match content {
        Some(DependencyView::ExecutionOrder) => true,
        Some(DependencyView::ProjectedDataDependency(selection, _)) => selection.len() == 1,
        _ => false,
    }
}

/// Whether every edge into a node that is not visited carries what
/// translation takes up.
pub open spec fn sound_edges(g: GraphView) -> bool {
    forall|e: int|
        g.has_edge(e) && !g.nodes[(#[trigger] g.edges[e]).target].visited ==> supported(
            g.edges[e].content,
        )
}

/// Whether no two edges join the same two nodes in the same direction.
pub open spec fn simple(g: Shape) -> bool {
    forall|a: int, b: int|
        g.has_edge(a) && g.has_edge(b) && #[trigger] g.links[a] == #[trigger] g.links[b] ==> a
            == b
}

/// Whether the builder accepts every operation.
pub open spec fn willing(answers: Answers) -> bool {
    forall|n: int, q: QueryView| (#[trigger] answers(n, q)) is Ok
}

/// Whether the graph is one that translation can only fail on for want of
/// content: operations only, no edge out of a result node, no edge that is
/// not supported, no two edges alike.
pub open spec fn fit(g: GraphView) -> bool {
    &&& plain(g)
    &&& sound_edges(g)
    &&& simple(g.shape())
}

/// Whether each node visited between `g` and `after` is one of `targets`
/// or has a parent that was visited in between.
pub open spec fn sprung(g: GraphView, after: GraphView, targets: Set<int>) -> bool {
    forall|m: int| #[trigger]
        entered(g, after, m) ==> targets.contains(m) || has_new_parent(g, after, m)
}

/// Whether the step from `g` to `after` kept to `targets` and what hangs
/// below them.
pub open spec fn steady(g: GraphView, after: GraphView, targets: Set<int>) -> bool {
    &&& after.consumed_from(g)
    &&& touched_only(g, after)
    &&& sprung(g, after, targets)
}

/// Whether `err` says that a node is without content which in `g` is not
/// visited and is without content.
pub open spec fn named(g: GraphView, err: TranslateErrorView) -> bool {
    exists|x: int|
        g.has_node(x) && !(#[trigger] g.nodes[x]).visited && g.nodes[x].content is None && err
            == TranslateErrorView::NodeContentEmpty(node_name(x))
}

/// The targets of `pairs`.
pub open spec fn among(pairs: Seq<(int, int)>) -> Set<int> {
    Set::new(|m: int| exists|i: int| 0 <= i < pairs.len() && (#[trigger] pairs[i]).1 == m)
}

/// Whether each of `pairs` ends in a node that is ready, and no two of
/// them end in the same node.
pub open spec fn ready_all(g: GraphView, pairs: Seq<(int, int)>) -> bool {
    &&& forall|i: int| 0 <= i < pairs.len() ==> g.is_ready((#[trigger] pairs[i]).1)
    &&& forall|i: int, j: int|
        0 <= i < j < pairs.len() ==> (#[trigger] pairs[i]).1 != (#[trigger] pairs[j]).1
}

proof fn lemma_fit_kept(g: GraphView, after: GraphView)
    requires
        fit(g),
        after.consumed_from(g),
        touched_only(g, after),
    ensures
        fit(after),
{
    lemma_plain_kept(g, after);
    assert(after.shape() == g.shape());
    assert forall|e: int|
        after.has_edge(e) && !after.nodes[(#[trigger] after.edges[e]).target].visited implies supported(
        after.edges[e].content,
    ) by {
        assert(g.shape().has_edge(e));
        assert(after.shape().links[e] == g.shape().links[e]);
        assert(g.shape().has_node(g.shape().links[e].1));
        let slot = g.edges[e];
        let t = slot.target;
        assert(g.has_node(t));
        if g.nodes[t].visited {
            assert(after.nodes[t].visited);
        }
    }
}

proof fn lemma_named_kept(g: GraphView, mid: GraphView, err: TranslateErrorView)
    requires
        mid.consumed_from(g),
        named(mid, err),
    ensures
        named(g, err),
{
    let x = choose|x: int|
        mid.has_node(x) && !(#[trigger] mid.nodes[x]).visited && mid.nodes[x].content is None
            && err == TranslateErrorView::NodeContentEmpty(node_name(x));
    assert(mid.shape().node_count == g.shape().node_count);
    assert(g.has_node(x));
    let slot = g.nodes[x];
    if g.nodes[x].visited {
        assert(mid.nodes[x].visited);
    }
}

proof fn lemma_steady_chain(
    g: GraphView,
    mid: GraphView,
    after: GraphView,
    first: Set<int>,
    second: Set<int>,
    all: Set<int>,
)
    requires
        g.well_formed(),
        steady(g, mid, first),
        steady(mid, after, second),
        forall|m: int| first.contains(m) || second.contains(m) ==> all.contains(m),
    ensures
        steady(g, after, all),
{
    lemma_consumed_chain(g, mid, after);
    assert(mid.shape() == g.shape());
    assert(mid.shape().node_count == g.shape().node_count);
    assert forall|e: int| g.has_edge(e) implies #[trigger] after.edges[e] == g.edges[e] || entered(
        g,
        after,
        g.edges[e].target,
    ) by {
        assert(g.shape().has_edge(e));
        assert(g.shape().has_node(g.shape().links[e].1));
        assert(mid.shape().links[e] == g.shape().links[e]);
        let t = g.edges[e].target;
        let between = mid.edges[e];
        assert(mid.has_node(t));
        if mid.edges[e] != g.edges[e] {
            assert(entered(g, mid, t));
            assert(after.nodes[t].visited);
        } else if after.edges[e] != mid.edges[e] {
            assert(entered(mid, after, t));
            if g.nodes[t].visited {
                assert(mid.nodes[t].visited);
            }
        }
    }
    assert forall|m: int| #[trigger] entered(g, after, m) implies all.contains(m)
        || has_new_parent(g, after, m) by {
        assert(mid.has_node(m));
        if mid.nodes[m].visited {
            assert(entered(g, mid, m));
            if !first.contains(m) {
                let e = choose|e: int|
                    g.has_edge(e) && (#[trigger] g.edges[e]).target == m && entered(
                        g,
                        mid,
                        g.edges[e].source,
                    );
                let q = g.edges[e].source;
                assert(mid.has_node(q));
                assert(after.nodes[q].visited);
                assert(entered(g, after, q));
            }
        } else {
            assert(entered(mid, after, m));
            if !second.contains(m) {
                let e = choose|e: int|
                    mid.has_edge(e) && (#[trigger] mid.edges[e]).target == m && entered(
                        mid,
                        after,
                        mid.edges[e].source,
                    );
                assert(g.shape().has_edge(e));
                assert(mid.shape().links[e] == g.shape().links[e]);
                let slot = g.edges[e];
                let q = slot.source;
                assert(g.shape().has_node(g.shape().links[e].0));
                if g.nodes[q].visited {
                    assert(mid.nodes[q].visited);
                }
                assert(entered(g, after, q));
            }
        }
    }
}

/// A node that is ready is not visited by a step that keeps to other
/// nodes.
proof fn lemma_still_ready(g: GraphView, after: GraphView, targets: Set<int>, c: int)
    requires
        g.well_formed(),
        g.has_node(c),
        g.is_ready(c),
        steady(g, after, targets),
        !targets.contains(c),
    ensures
        after.is_ready(c),
{
    assert(after.shape() == g.shape());
    if after.nodes[c].visited {
        assert(entered(g, after, c));
        let e = choose|e: int|
            g.has_edge(e) && (#[trigger] g.edges[e]).target == c && entered(
                g,
                after,
                g.edges[e].source,
            );
        assert(g.from_visited(g.edges[e], c));
    }
    assert forall|x: int| 0 <= x < after.edges.len() implies after.from_visited(
        #[trigger] after.edges[x],
        c,
    ) by {
        assert(g.shape().has_edge(x));
        assert(after.shape().links[x] == g.shape().links[x]);
        assert(g.shape().has_node(g.shape().links[x].0));
        assert(g.from_visited(g.edges[x], c));
        let slot = g.edges[x];
        if slot.target == c {
            assert(g.has_node(slot.source));
            assert(after.nodes[slot.source].visited);
        }
    }
}

/// The edges that end in a node ascend.
proof fn lemma_incoming_ascend(g: Shape, n: int, upto: int)
    requires
        0 <= upto <= g.links.len(),
    ensures
        forall|i: int|
            0 <= i < g.incoming_below(n, upto).len() ==> 0 <= #[trigger] g.incoming_below(
                n,
                upto,
            )[i] < upto,
        forall|i: int, j: int|
            0 <= i < j < g.incoming_below(n, upto).len() ==> #[trigger] g.incoming_below(n, upto)[i]
                < #[trigger] g.incoming_below(n, upto)[j],
    decreases upto,
{
    if upto > 0 {
        lemma_incoming_ascend(g, n, upto - 1);
        let prev = g.incoming_below(n, upto - 1);
        let cur = g.incoming_below(n, upto);
        assert forall|i: int| 0 <= i < cur.len() implies 0 <= #[trigger] cur[i] < upto by {
            if i < prev.len() {
                assert(cur[i] == prev[i]);
            }
        }
        assert forall|i: int, j: int| 0 <= i < j < cur.len() implies #[trigger] cur[i]
            < #[trigger] cur[j] by {
            assert(cur[i] == prev[i]);
            if j < prev.len() {
                assert(cur[j] == prev[j]);
            }
        }
    }
}

/// Supported edges, each once, are all taken up.
proof fn lemma_apply_supported(g: GraphView, query: QueryView, edges: Seq<int>)
    requires
        forall|i: int|
            0 <= i < edges.len() ==> g.has_edge(#[trigger] edges[i]) && supported(
                g.edges[edges[i]].content,
            ),
        forall|i: int, j: int| 0 <= i < j < edges.len() ==> #[trigger] edges[i] < #[trigger] edges[j],
    ensures
        apply_dependencies(g, query, edges).result is Ok,
        forall|e: int|
            g.has_edge(e) ==> #[trigger] apply_dependencies(g, query, edges).graph.edges[e]
                == g.edges[e] || edges.contains(e),
    decreases edges.len(),
{
    if edges.len() > 0 {
        let e = edges[0];
        assert(g.has_edge(e) && supported(g.edges[e].content));
        let next = g.pluck_edge(e);
        let rest = edges.skip(1);
        assert forall|i: int| 0 <= i < rest.len() implies next.has_edge(#[trigger] rest[i])
            && supported(next.edges[rest[i]].content) by {
            assert(rest[i] == edges[i + 1]);
            assert(edges[0] < edges[i + 1]);
            assert(g.has_edge(edges[i + 1]));
        }
        assert forall|i: int, j: int| 0 <= i < j < rest.len() implies #[trigger] rest[i]
            < #[trigger] rest[j] by {
            assert(rest[i] == edges[i + 1] && rest[j] == edges[j + 1]);
        }
        let applied = apply_dependency(
            query,
            g.edges[e].content,
            g.edges[e].source,
            g.edges[e].target,
        );
        assert(applied is Ok);
        lemma_apply_supported(next, applied->Ok_0, rest);
        let after = apply_dependencies(next, applied->Ok_0, rest).graph;
        assert forall|x: int| g.has_edge(x) implies #[trigger] after.edges[x] == g.edges[x]
            || edges.contains(x) by {
            if x == e {
                assert(edges[0] == x);
            } else {
                assert(next.has_edge(x));
                if rest.contains(x) {
                    let i = choose|i: int| 0 <= i < rest.len() && rest[i] == x;
                    assert(edges[i + 1] == x);
                }
            }
        }
    }
}

/// Whether the step that gave `outcome` from `g` either kept to `targets`
/// or failed for want of content in a node that it names.
pub open spec fn fails_by_name<T>(g: GraphView, outcome: Outcome<T>, targets: Set<int>) -> bool {
    match outcome.result {
        Ok(_) => steady(g, outcome.graph, targets),
        Err(err) => named(g, err),
    }
}

proof fn lemma_steady_nothing(g: GraphView, targets: Set<int>)
    ensures
        steady(g, g, targets),
{
}

/// Failure, for one node that is not visited: where its translation
/// fails, a node without content is what it fails on.
pub proof fn lemma_translate_node_fails_by_name(g: GraphView, answers: Answers, n: int)
    requires
        fit(g),
        willing(answers),
        g.has_node(n),
        !g.nodes[n].visited,
    ensures
        fails_by_name(g, translate_node(g, answers, n, g.shape().incoming(n)), set![n]),
    decreases g.unvisited(), 1int, 0nat,
{
    let slot = g.nodes[n];
    match g.nodes[n].content {
        Some(NodeView::Query(_)) => {
            lemma_translate_query_fails_by_name(g, answers, n);
        },
        _ => {},
    }
}

/// Failure, for a node that holds an operation.
pub proof fn lemma_translate_query_fails_by_name(g: GraphView, answers: Answers, n: int)
    requires
        fit(g),
        willing(answers),
        g.has_node(n),
        !g.nodes[n].visited,
        g.nodes[n].content matches Some(NodeView::Query(_)),
    ensures
        fails_by_name(g, translate_query(g, answers, n, g.shape().incoming(n)), set![n]),
    decreases g.unvisited(), 0int, 0nat,
{
    let shape = g.shape();
    let parents = shape.incoming(n);
    lemma_incoming_edges(shape, n, shape.links.len() as int);
    lemma_incoming_targets(shape, n, shape.links.len() as int);
    lemma_incoming_ascend(shape, n, shape.links.len() as int);
    assert forall|i: int| 0 <= i < parents.len() implies g.has_edge(#[trigger] parents[i]) by {
        assert(shape.has_edge(parents[i]));
    }
    let marked = g.mark_visited(n);
    lemma_mark_visited(g, n);
    assert(marked.consumed_from(g));
    assert(touched_only(g, marked));
    lemma_fit_kept(g, marked);
    let pairs = marked.child_pairs(n);
    if marked.is_result(n) {
        lemma_steady_nothing(marked, among(pairs));
    } else {
        lemma_process_children_fails_by_name(marked, answers, n);
        lemma_process_children_consumes(marked, answers, n);
    }
    let below = if marked.is_result(n) {
        Outcome::<Seq<ExpressionView>> { graph: marked, result: Ok(Seq::empty()) }
    } else {
        process_children(marked, answers, n)
    };
    lemma_translate_query_consumes(g, answers, n, parents);
    match below.result {
        Err(err) => {
            lemma_named_kept(g, marked, err);
        },
        Ok(children) => {
            let g2 = below.graph;
            assert(steady(marked, g2, among(pairs)));
            assert(g2.shape() == shape);
            assert(g2.has_node(n));
            let kept = g2.nodes[n];
            assert(g2.nodes[n].content == g.nodes[n].content);
            let operation = g2.nodes[n].content->Some_0->Query_0;
            let plucked = g2.pluck_node(n);
            assert forall|i: int| 0 <= i < parents.len() implies plucked.has_edge(
                #[trigger] parents[i],
            ) && supported(plucked.edges[parents[i]].content) by {
                let e = parents[i];
                assert(shape.has_edge(e));
                assert(shape.links[e].1 == n);
                assert(g.has_edge(e));
                let at_first = g.edges[e];
                assert(at_first.target == n);
                let later = g2.edges[e];
                assert(marked.has_edge(e));
                assert(!entered(marked, g2, n));
                assert(marked.edges[e].target == n);
                assert(g2.edges[e] == marked.edges[e]);
            }
            lemma_apply_supported(plucked, operation, parents);
            lemma_apply_dependencies_consumes(plucked, operation, parents);
            let applied = apply_dependencies(plucked, operation, parents);
            let after = applied.graph;
            let finished = applied.result->Ok_0;
            assert(answers(n, finished) is Ok);
            assert(translate_query(g, answers, n, parents).graph == after);
            assert(translate_query(g, answers, n, parents).result is Ok);
            assert(after.nodes == plucked.nodes);
            assert(after.shape() == shape);
            assert forall|x: int| g.has_edge(x) implies #[trigger] after.edges[x] == g.edges[x]
                || entered(g, after, g.edges[x].target) by {
                assert(shape.has_edge(x));
                assert(shape.has_node(shape.links[x].1));
                let t = g.edges[x].target;
                assert(plucked.has_edge(x));
                if parents.contains(x) {
                    let i = choose|i: int| 0 <= i < parents.len() && parents[i] == x;
                    assert(shape.links[parents[i]].1 == n);
                    assert(entered(g, after, n));
                } else {
                    assert(after.edges[x] == plucked.edges[x]);
                    assert(marked.has_edge(x));
                    let between = g2.edges[x];
                    if g2.edges[x] != marked.edges[x] {
                        assert(marked.edges[x].target == t);
                        assert(entered(marked, g2, t));
                        assert(t != n);
                        assert(entered(g, after, t));
                    }
                }
            }
            assert forall|m: int| #[trigger] entered(g, after, m) implies set![n].contains(m)
                || has_new_parent(g, after, m) by {
                if m != n {
                    assert(marked.has_node(m));
                    assert(entered(marked, g2, m));
                    assert(entered(g, after, n));
                    if among(pairs).contains(m) {
                        let i = choose|i: int| 0 <= i < pairs.len() && (#[trigger] pairs[i]).1 == m;
                        lemma_child_pairs_joined(marked, n, marked.edges.len() as int);
                        let e = pairs[i].0;
                        assert(shape.has_edge(e));
                        assert(marked.shape().links[e] == shape.links[e]);
                        assert(g.edges[e].source == n && g.edges[e].target == m);
                        assert(has_new_parent(g, after, m));
                    } else {
                        let e = choose|e: int|
                            marked.has_edge(e) && (#[trigger] marked.edges[e]).target == m
                                && entered(marked, g2, marked.edges[e].source);
                        assert(shape.has_edge(e));
                        assert(marked.shape().links[e] == shape.links[e]);
                        let slot = g.edges[e];
                        let q = slot.source;
                        assert(shape.has_node(shape.links[e].0));
                        assert(q != n);
                        assert(entered(g, after, q));
                        assert(has_new_parent(g, after, m));
                    }
                }
            }
        },
    }
}

/// The direct children of a node are ready, and no two edges to them end
/// in the same node.
proof fn lemma_child_pairs_ready(g: GraphView, n: int)
    requires
        fit(g),
    ensures
        joined(g.shape(), g.child_pairs(n)),
        ready_all(g, g.child_pairs(n)),
{
    let pairs = g.child_pairs(n);
    lemma_child_pairs_joined(g, n, g.edges.len() as int);
    crate::order::lemma_child_pairs_ascend(g, n, g.edges.len() as int);
    assert forall|i: int, j: int| 0 <= i < j < pairs.len() implies (#[trigger] pairs[i]).1 != (
    #[trigger] pairs[j]).1 by {
        let a = pairs[i].0;
        let b = pairs[j].0;
        assert(a < b);
        assert(g.shape().has_edge(a) && g.shape().has_edge(b));
        if pairs[i].1 == pairs[j].1 {
            assert(g.shape().links[a] == g.shape().links[b]);
        }
    }
}

/// A group of children that are ready is ready.
proof fn lemma_select_ready(g: GraphView, pairs: Seq<(int, int)>, bearing: bool)
    requires
        ready_all(g, pairs),
    ensures
        ready_all(g, g.shape().select(pairs, bearing)),
        forall|m: int|
            among(g.shape().select(pairs, bearing)).contains(m) ==> among(pairs).contains(m)
                && g.shape().contains_result(m) == bearing,
{
    let chosen = g.shape().select(pairs, bearing);
    let at = lemma_select_keeps_order(g.shape(), pairs, bearing);
    assert forall|i: int| 0 <= i < chosen.len() implies g.is_ready((#[trigger] chosen[i]).1) by {
        assert(chosen[i] == pairs[at[i]]);
    }
    assert forall|i: int, j: int| 0 <= i < j < chosen.len() implies (#[trigger] chosen[i]).1 != (
    #[trigger] chosen[j]).1 by {
        assert(chosen[i] == pairs[at[i]] && chosen[j] == pairs[at[j]]);
        assert(at[i] < at[j]);
    }
    assert forall|m: int| among(chosen).contains(m) implies among(pairs).contains(m)
        && g.shape().contains_result(m) == bearing by {
        let i = choose|i: int| 0 <= i < chosen.len() && (#[trigger] chosen[i]).1 == m;
        assert(chosen[i] == pairs[at[i]]);
        assert(pairs[at[i]].1 == m);
    }
}

/// Failure, for the children of a node.
pub proof fn lemma_process_children_fails_by_name(g: GraphView, answers: Answers, n: int)
    requires
        fit(g),
        willing(answers),
        g.has_node(n),
    ensures
        fails_by_name(g, process_children(g, answers, n), among(g.child_pairs(n))),
    decreases g.unvisited(), 5int, 0nat,
{
    let pairs = g.child_pairs(n);
    lemma_child_pairs_ready(g, n);
    lemma_select_joined(g.shape(), pairs, false);
    lemma_select_joined(g.shape(), pairs, true);
    lemma_select_ready(g, pairs, false);
    lemma_select_ready(g, pairs, true);
    let lone = g.shape().select(pairs, false);
    let bearing = g.shape().select(pairs, true);
    lemma_translate_children_fails_by_name(g, answers, lone);
    lemma_translate_children_consumes(g, answers, lone);
    let effects = translate_children(g, answers, lone);
    lemma_follows_unvisited(effects.graph, g);
    if let Ok(exprs) = effects.result {
        let g1 = effects.graph;
        if bearing.len() > 0 {
            lemma_fit_kept(g, g1);
            assert(g1.shape() == g.shape());
            assert(ready_all(g1, bearing)) by {
                assert forall|i: int| 0 <= i < bearing.len() implies g1.is_ready(
                    (#[trigger] bearing[i]).1,
                ) by {
                    let c = bearing[i].1;
                    assert(g.shape().has_node(c));
                    assert(among(bearing).contains(c));
                    assert(g.shape().contains_result(c));
                    if among(lone).contains(c) {
                        assert(!g.shape().contains_result(c));
                    }
                    lemma_still_ready(g, g1, among(lone), c);
                }
            }
            lemma_fold_result_scopes_fails_by_name(g1, answers, bearing);
            lemma_fold_result_scopes_consumes(g1, answers, bearing);
            let folded = fold_result_scopes(g1, answers, bearing);
            match folded.result {
                Err(err) => {
                    lemma_named_kept(g, g1, err);
                },
                Ok(_) => {
                    lemma_steady_chain(
                        g,
                        g1,
                        folded.graph,
                        among(lone),
                        among(bearing),
                        among(pairs),
                    );
                },
            }
        } else {
            lemma_steady_nothing(g1, among(bearing));
            lemma_steady_chain(g, g1, g1, among(lone), among(bearing), among(pairs));
        }
    }
}

/// Failure, for a fold.
pub proof fn lemma_fold_result_scopes_fails_by_name(
    g: GraphView,
    answers: Answers,
    pairs: Seq<(int, int)>,
)
    requires
        fit(g),
        willing(answers),
        joined(g.shape(), pairs),
        ready_all(g, pairs),
    ensures
        fails_by_name(g, fold_result_scopes(g, answers, pairs), among(pairs)),
    decreases g.unvisited(), 4int, 0nat,
{
    lemma_translate_children_fails_by_name(g, answers, pairs);
}

/// Failure, for a list of children that are ready.
pub proof fn lemma_translate_children_fails_by_name(
    g: GraphView,
    answers: Answers,
    pairs: Seq<(int, int)>,
)
    requires
        fit(g),
        willing(answers),
        joined(g.shape(), pairs),
        ready_all(g, pairs),
    ensures
        fails_by_name(g, translate_children(g, answers, pairs), among(pairs)),
    decreases g.unvisited(), 3int, pairs.len(),
{
    if pairs.len() == 0 {
        lemma_steady_nothing(g, among(pairs));
    } else {
        let e0 = pairs[0].0;
        let c0 = pairs[0].1;
        assert(g.shape().has_edge(e0));
        assert(g.shape().has_node(c0));
        assert(g.shape().links[e0].1 == c0);
        assert(g.is_ready(c0));
        lemma_process_child_consumes(g, answers, e0, c0);
        lemma_process_child_fails_by_name(g, answers, e0, c0);
        let first = process_child_with_dependency(g, answers, e0, c0);
        lemma_follows_unvisited(first.graph, g);
        if let Ok(expr) = first.result {
            let g1 = first.graph;
            let rest = pairs.skip(1);
            assert(g1.shape() == g.shape());
            assert(joined(g1.shape(), rest)) by {
                assert forall|i: int| 0 <= i < rest.len() implies g.shape().has_edge(
                    (#[trigger] rest[i]).0,
                ) && g.shape().links[rest[i].0].1 == rest[i].1 && g.shape().has_node(rest[i].1) by {
                    assert(rest[i] == pairs[i + 1]);
                }
            }
            lemma_fit_kept(g, g1);
            assert(ready_all(g1, rest)) by {
                assert forall|i: int| 0 <= i < rest.len() implies g1.is_ready(
                    (#[trigger] rest[i]).1,
                ) by {
                    assert(rest[i] == pairs[i + 1]);
                    assert(pairs[0].1 != pairs[i + 1].1);
                    assert(g.shape().has_node(pairs[i + 1].1));
                    lemma_still_ready(g, g1, set![c0], rest[i].1);
                }
                assert forall|i: int, j: int| 0 <= i < j < rest.len() implies (#[trigger] rest[i]).1
                    != (#[trigger] rest[j]).1 by {
                    assert(rest[i] == pairs[i + 1] && rest[j] == pairs[j + 1]);
                }
            }
            lemma_translate_children_fails_by_name(g1, answers, rest);
            lemma_translate_children_consumes(g1, answers, rest);
            let tail = translate_children(g1, answers, rest);
            match tail.result {
                Err(err) => {
                    lemma_named_kept(g, g1, err);
                },
                Ok(_) => {
                    assert forall|m: int|
                        set![c0].contains(m) || among(rest).contains(m) implies among(
                        pairs,
                    ).contains(m) by {
                        if m == c0 {
                            assert(pairs[0].1 == m);
                        } else {
                            let i = choose|i: int|
                                0 <= i < rest.len() && (#[trigger] rest[i]).1 == m;
                            assert(pairs[i + 1].1 == m);
                        }
                    }
                    lemma_steady_chain(g, g1, tail.graph, set![c0], among(rest), among(pairs));
                },
            }
        }
    }
}

/// Failure, for one child that is ready.
pub proof fn lemma_process_child_fails_by_name(
    g: GraphView,
    answers: Answers,
    edge: int,
    child: int,
)
    requires
        fit(g),
        willing(answers),
        g.has_edge(edge),
        g.edges[edge].target == child,
        g.has_node(child),
        g.is_ready(child),
    ensures
        fails_by_name(g, process_child_with_dependency(g, answers, edge, child), set![child]),
    decreases g.unvisited(), 2int, 0nat,
{
    let slot = g.edges[edge];
    assert(supported(slot.content));
    assert(projected_field(slot.content) is Ok);
    lemma_translate_node_fails_by_name(g, answers, child);
}

/// No edge ends in a root.
proof fn lemma_root_has_no_parents(g: Shape, r: int)
    requires
        !g.has_incoming(r),
    ensures
        g.incoming(r) == Seq::<int>::empty(),
{
    let incoming = g.incoming(r);
    if incoming.len() > 0 {
        lemma_incoming_exact(g, r, g.links.len() as int, incoming[0]);
        assert(incoming.contains(incoming[0]));
        assert(g.has_edge(incoming[0]));
    }
    assert(incoming =~= Seq::empty());
}

/// Failure, for a list of roots.
pub proof fn lemma_translate_roots_fails_by_name(g: GraphView, answers: Answers, roots: Seq<int>)
    requires
        fit(g),
        willing(answers),
        forall|i: int|
            0 <= i < roots.len() ==> g.has_node(#[trigger] roots[i]) && !g.shape().has_incoming(
                roots[i],
            ) && !g.nodes[roots[i]].visited,
        forall|i: int, j: int| 0 <= i < j < roots.len() ==> #[trigger] roots[i] != #[trigger] roots[j],
    ensures
        translate_roots(g, answers, roots).result matches Err(err) ==> named(g, err),
    decreases roots.len(),
{
    if roots.len() > 0 {
        let r = roots[0];
        assert(g.has_node(r));
        lemma_root_has_no_parents(g.shape(), r);
        lemma_translate_node_fails_by_name(g, answers, r);
        lemma_translate_node_consumes(g, answers, r, Seq::empty());
        let first = translate_node(g, answers, r, Seq::empty());
        if let Ok(expr) = first.result {
            let g1 = first.graph;
            let rest = roots.skip(1);
            assert(g1.shape() == g.shape());
            assert(g1.shape().node_count == g.shape().node_count);
            lemma_fit_kept(g, g1);
            assert forall|i: int| 0 <= i < rest.len() implies g1.has_node(#[trigger] rest[i])
                && !g1.shape().has_incoming(rest[i]) && !g1.nodes[rest[i]].visited by {
                assert(rest[i] == roots[i + 1]);
                let m = roots[i + 1];
                assert(roots[0] != roots[i + 1]);
                assert(g.has_node(m));
                if g1.nodes[m].visited {
                    assert(entered(g, g1, m));
                    let e = choose|e: int|
                        g.has_edge(e) && (#[trigger] g.edges[e]).target == m && entered(
                            g,
                            g1,
                            g.edges[e].source,
                        );
                    assert(g.shape().has_edge(e));
                    assert(g.shape().links[e].1 == m);
                }
            }
            assert forall|i: int, j: int| 0 <= i < j < rest.len() implies #[trigger] rest[i]
                != #[trigger] rest[j] by {
                assert(rest[i] == roots[i + 1] && rest[j] == roots[j + 1]);
            }
            lemma_translate_roots_fails_by_name(g1, answers, rest);
            if let Err(err) = translate_roots(g1, answers, rest).result {
                lemma_named_kept(g, g1, err);
            }
        }
    }
}

/// Failure propagation: in a graph of operations only, of which none is
/// visited, with supported edges of which no two are alike, and with a
/// builder that accepts every operation, compilation fails only on a node
/// without content, with the error that names that node.
pub proof fn lemma_failure_names_empty_node(g: GraphView, answers: Answers)
    requires
        fit(g),
        untouched(g),
        willing(answers),
        plan(g, answers) is Err,
    ensures
        named(g, plan(g, answers)->Err_0),
{
    let shape = g.shape();
    let roots = shape.roots();
    lemma_roots_are_nodes(shape, shape.node_count as int);
    crate::order::lemma_roots_ascend(shape, shape.node_count as int);
    assert forall|i: int| 0 <= i < roots.len() implies g.has_node(#[trigger] roots[i])
        && !shape.has_incoming(roots[i]) && !g.nodes[roots[i]].visited by {
        assert(shape.has_node(roots[i]));
        assert(roots.contains(roots[i]));
        crate::order::lemma_roots_exact(shape, shape.node_count as int, roots[i]);
        let slot = g.nodes[roots[i]];
    }
    lemma_translate_roots_fails_by_name(g, answers, roots);
}

/// Failure propagation: in such a graph without cycle, a node without
/// content makes compilation fail, with the error that names a node
/// without content; where there is one such node, it is the one named.
pub proof fn lemma_empty_node_fails_by_name(g: GraphView, answers: Answers, x: int)
    requires
        fit(g),
        acyclic(g),
        untouched(g),
        willing(answers),
        g.has_node(x),
        g.nodes[x].content is None,
    ensures
        plan(g, answers) is Err,
        named(g, plan(g, answers)->Err_0),
        (forall|y: int| g.has_node(y) && (#[trigger] g.nodes[y]).content is None ==> y == x)
            ==> plan(g, answers) == Err::<ExpressionView, _>(
            TranslateErrorView::NodeContentEmpty(node_name(x)),
        ),
{
    if plan(g, answers) is Ok {
        lemma_plan_holds_each_node_once(g, answers);
        let slot = g.nodes[x];
        assert(false);
    }
    lemma_failure_names_empty_node(g, answers);
}

} // verus!
