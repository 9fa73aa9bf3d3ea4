use vstd::prelude::*;
use crate::graph::GraphView;
use crate::plan::{
    apply_dependencies, fold_result_scopes, lemma_follows_unvisited, lemma_mark_visited,
    process_child_with_dependency, process_children, translate_children, translate_node,
    translate_query, translate_roots, Answers,
};
use crate::reach::{joined, lemma_child_pairs_joined, lemma_incoming_edges, lemma_select_joined};

verus! {

impl GraphView {
    /// Whether `self` is a later state of `before` in which contents were
    /// only taken out, never put in, and a node lost its content only in
    /// the step that visited it.
    pub open spec fn consumed_from(self, before: GraphView) -> bool {
        &&& self.follows(before)
        &&& forall|n: int|
            before.has_node(n) ==> (#[trigger] self.nodes[n]).content == before.nodes[n].content
                || (self.nodes[n].content is None && before.nodes[n].content is Some
                && !before.nodes[n].visited && self.nodes[n].visited)
        &&& forall|e: int|
            before.has_edge(e) ==> (#[trigger] self.edges[e]).content == before.edges[e].content
                || self.edges[e].content is None
    }
}

/// Whether `m` was visited between `g` and `after`.
pub open spec fn entered(g: GraphView, after: GraphView, m: int) -> bool {
    g.has_node(m) && !g.nodes[m].visited && after.nodes[m].visited
}

/// Whether an edge between `g` and `after` changed only where its target
/// was visited in between.
pub open spec fn touched_only(g: GraphView, after: GraphView) -> bool {
    forall|e: int|
        g.has_edge(e) ==> #[trigger] after.edges[e] == g.edges[e] || entered(
            g,
            after,
            g.edges[e].target,
        )
}

/// Whether each of `edges` ends in `n`.
pub open spec fn end_at(g: GraphView, edges: Seq<int>, n: int) -> bool {
    forall|i: int| 0 <= i < edges.len() ==> g.edges[#[trigger] edges[i]].target == n
}

/// Whether each of `edges` is an edge of `g`.
pub open spec fn edges_of(g: GraphView, edges: Seq<int>) -> bool {
    forall|i: int| 0 <= i < edges.len() ==> g.has_edge(#[trigger] edges[i])
}

/// Whether each of `nodes` is a node of `g`.
pub open spec fn nodes_of(g: GraphView, nodes: Seq<int>) -> bool {
    forall|i: int| 0 <= i < nodes.len() ==> g.has_node(#[trigger] nodes[i])
}

/// Consumption over two steps, one after the other, is consumption.
pub proof fn lemma_consumed_chain(a: GraphView, b: GraphView, c: GraphView)
    requires
        b.consumed_from(a),
        c.consumed_from(b),
    ensures
        c.consumed_from(a),
{
    assert(a.shape().node_count == b.shape().node_count);
    assert forall|n: int| a.has_node(n) implies (#[trigger] c.nodes[n]).content
        == a.nodes[n].content || (c.nodes[n].content is None && a.nodes[n].content is Some
        && !a.nodes[n].visited && c.nodes[n].visited) by {
        assert(b.has_node(n));
        let x = b.nodes[n];
    }
    assert forall|e: int| a.has_edge(e) implies (#[trigger] c.edges[e]).content
        == a.edges[e].content || c.edges[e].content is None by {
        assert(b.has_edge(e));
        let x = b.edges[e];
    }
}

/// Applying dependencies takes the content out of edges and touches
/// nothing else.
pub proof fn lemma_apply_dependencies_consumes(
    g: GraphView,
    query: crate::query::QueryView,
    edges: Seq<int>,
)
    requires
        edges_of(g, edges),
    ensures
        apply_dependencies(g, query, edges).graph.consumed_from(g),
        apply_dependencies(g, query, edges).graph.nodes == g.nodes,
    decreases edges.len(),
{
    if edges.len() > 0 {
        let e = edges[0];
        let next = g.pluck_edge(e);
        assert(g.has_edge(e));
        assert(next.shape().links =~= g.shape().links);
        assert(next.consumed_from(g));
        let rest = edges.skip(1);
        assert forall|i: int| 0 <= i < rest.len() implies next.has_edge(#[trigger] rest[i]) by {
            assert(rest[i] == edges[i + 1]);
        }
        match crate::plan::apply_dependency(
            query,
            g.edges[e].content,
            g.edges[e].source,
            g.edges[e].target,
        ) {
            Err(_) => {},
            Ok(q) => {
                lemma_apply_dependencies_consumes(next, q, rest);
                lemma_consumed_chain(g, next, apply_dependencies(next, q, rest).graph);
            },
        }
    }
}

/// Where all the dependencies were applied, each of the edges is empty.
pub proof fn lemma_apply_dependencies_empties(
    g: GraphView,
    query: crate::query::QueryView,
    edges: Seq<int>,
)
    requires
        edges_of(g, edges),
        apply_dependencies(g, query, edges).result is Ok,
    ensures
        forall|i: int|
            0 <= i < edges.len() ==> apply_dependencies(g, query, edges).graph.edges[
            #[trigger] edges[i]].content is None,
    decreases edges.len(),
{
    if edges.len() > 0 {
        let e = edges[0];
        let next = g.pluck_edge(e);
        assert(g.has_edge(e));
        let rest = edges.skip(1);
        assert forall|i: int| 0 <= i < rest.len() implies next.has_edge(#[trigger] rest[i]) by {
            assert(rest[i] == edges[i + 1]);
        }
        let applied = crate::plan::apply_dependency(
            query,
            g.edges[e].content,
            g.edges[e].source,
            g.edges[e].target,
        );
        let q = applied->Ok_0;
        lemma_apply_dependencies_empties(next, q, rest);
        lemma_apply_dependencies_consumes(next, q, rest);
        let after = apply_dependencies(next, q, rest).graph;
        assert forall|i: int| 0 <= i < edges.len() implies after.edges[#[trigger] edges[i]].content is None by {
            if i == 0 {
                assert(next.has_edge(e));
                let slot = after.edges[e];
            } else {
                assert(rest[i - 1] == edges[i]);
            }
        }
    }
}

/// Single consumption, for one node: translation only takes contents out,
/// and takes a node's content only as it visits the node.
pub proof fn lemma_translate_node_consumes(
    g: GraphView,
    answers: Answers,
    n: int,
    parents: Seq<int>,
)
    requires
        g.well_formed(),
        g.has_node(n),
        edges_of(g, parents),
    ensures
        translate_node(g, answers, n, parents).graph.consumed_from(g),
    decreases g.unvisited(), 1int, 0nat,
{
    match g.nodes[n].content {
        Some(crate::graph::NodeView::Query(_)) => {
            lemma_translate_query_consumes(g, answers, n, parents);
        },
        _ => {},
    }
}

/// Single consumption, for a node that holds an operation.
pub proof fn lemma_translate_query_consumes(
    g: GraphView,
    answers: Answers,
    n: int,
    parents: Seq<int>,
)
    requires
        g.well_formed(),
        g.has_node(n),
        edges_of(g, parents),
    ensures
        translate_query(g, answers, n, parents).graph.consumed_from(g),
    decreases g.unvisited(), 0int, 0nat,
{
    if !g.nodes[n].visited {
        let marked = g.mark_visited(n);
        assert(marked.consumed_from(g));
        lemma_mark_visited(g, n);
        if !marked.is_result(n) {
            lemma_process_children_consumes(marked, answers, n);
        }
        let below = if marked.is_result(n) {
            crate::plan::Outcome::<Seq<crate::expression::ExpressionView>> {
                graph: marked,
                result: Ok(Seq::empty()),
            }
        } else {
            process_children(marked, answers, n)
        };
        lemma_consumed_chain(g, marked, below.graph);
        if below.result is Ok {
            let plucked = below.graph.pluck_node(n);
            assert(below.graph.has_node(n));
            assert(plucked.consumed_from(g)) by {
                assert(plucked.follows(below.graph));
                assert(marked.nodes[n].visited);
                assert(below.graph.nodes[n].visited);
                assert forall|m: int| g.has_node(m) implies (#[trigger] plucked.nodes[m]).content
                    == g.nodes[m].content || (plucked.nodes[m].content is None
                    && g.nodes[m].content is Some && !g.nodes[m].visited
                    && plucked.nodes[m].visited) by {
                    let x = below.graph.nodes[m];
                }
                assert forall|e: int| g.has_edge(e) implies (#[trigger] plucked.edges[e]).content
                    == g.edges[e].content || plucked.edges[e].content is None by {
                    let x = below.graph.edges[e];
                }
            }
            match below.graph.nodes[n].content {
                Some(crate::graph::NodeView::Query(query)) => {
                    assert(edges_of(plucked, parents)) by {
                        assert forall|i: int| 0 <= i < parents.len() implies plucked.has_edge(
                            #[trigger] parents[i],
                        ) by {
                            assert(g.has_edge(parents[i]));
                        }
                    }
                    lemma_apply_dependencies_consumes(plucked, query, parents);
                    lemma_consumed_chain(
                        g,
                        plucked,
                        apply_dependencies(plucked, query, parents).graph,
                    );
                },
                _ => {},
            }
        }
    }
}

/// Single consumption, for the children of a node.
pub proof fn lemma_process_children_consumes(g: GraphView, answers: Answers, n: int)
    requires
        g.well_formed(),
        g.has_node(n),
    ensures
        process_children(g, answers, n).graph.consumed_from(g),
    decreases g.unvisited(), 5int, 0nat,
{
    let pairs = g.child_pairs(n);
    lemma_child_pairs_joined(g, n, g.edges.len() as int);
    lemma_select_joined(g.shape(), pairs, false);
    lemma_select_joined(g.shape(), pairs, true);
    let lone = g.shape().select(pairs, false);
    let bearing = g.shape().select(pairs, true);
    lemma_translate_children_consumes(g, answers, lone);
    let effects = translate_children(g, answers, lone);
    lemma_follows_unvisited(effects.graph, g);
    if effects.result is Ok && bearing.len() > 0 {
        lemma_fold_result_scopes_consumes(effects.graph, answers, bearing);
        lemma_consumed_chain(
            g,
            effects.graph,
            fold_result_scopes(effects.graph, answers, bearing).graph,
        );
    }
}

/// Single consumption, for a fold.
pub proof fn lemma_fold_result_scopes_consumes(
    g: GraphView,
    answers: Answers,
    pairs: Seq<(int, int)>,
)
    requires
        g.well_formed(),
        joined(g.shape(), pairs),
    ensures
        fold_result_scopes(g, answers, pairs).graph.consumed_from(g),
    decreases g.unvisited(), 4int, 0nat,
{
    lemma_translate_children_consumes(g, answers, pairs);
}

/// Single consumption, for a list of children; where all of them succeed, each gives one expression.
pub proof fn lemma_translate_children_consumes(
    g: GraphView,
    answers: Answers,
    pairs: Seq<(int, int)>,
)
    requires
        g.well_formed(),
        joined(g.shape(), pairs),
    ensures
        translate_children(g, answers, pairs).graph.consumed_from(g),
        translate_children(g, answers, pairs).result matches Ok(exprs) ==> exprs.len()
            == pairs.len(),
    decreases g.unvisited(), 3int, pairs.len(),
{
    if pairs.len() > 0 {
        assert(g.shape().has_edge(pairs[0].0));
        lemma_process_child_consumes(g, answers, pairs[0].0, pairs[0].1);
        let first = process_child_with_dependency(g, answers, pairs[0].0, pairs[0].1);
        lemma_follows_unvisited(first.graph, g);
        if first.result is Ok {
            let rest = pairs.skip(1);
            assert(joined(first.graph.shape(), rest)) by {
                assert forall|i: int| 0 <= i < rest.len() implies g.shape().has_edge(
                    (#[trigger] rest[i]).0,
                ) && g.shape().links[rest[i].0].1 == rest[i].1 && g.shape().has_node(rest[i].1) by {
                    assert(rest[i] == pairs[i + 1]);
                }
            }
            lemma_translate_children_consumes(first.graph, answers, rest);
            lemma_consumed_chain(
                g,
                first.graph,
                translate_children(first.graph, answers, rest).graph,
            );
        }
    }
}

/// Single consumption, for one child.
pub proof fn lemma_process_child_consumes(g: GraphView, answers: Answers, edge: int, child: int)
    requires
        g.well_formed(),
        g.has_edge(edge),
        g.has_node(child),
    ensures
        process_child_with_dependency(g, answers, edge, child).graph.consumed_from(g),
    decreases g.unvisited(), 2int, 0nat,
{
    let incoming = g.shape().incoming(child);
    lemma_incoming_edges(g.shape(), child, g.shape().links.len() as int);
    assert(edges_of(g, incoming)) by {
        assert forall|i: int| 0 <= i < incoming.len() implies g.has_edge(
            #[trigger] incoming[i],
        ) by {
            assert(g.shape().has_edge(incoming[i]));
        }
    }
    lemma_translate_node_consumes(g, answers, child, incoming);
}

/// Single consumption, for a whole graph: from the first root to the last,
/// translation only takes contents out, and takes a node's content only as
/// it visits the node.
pub proof fn lemma_translate_roots_consumes(g: GraphView, answers: Answers, roots: Seq<int>)
    requires
        g.well_formed(),
        nodes_of(g, roots),
    ensures
        translate_roots(g, answers, roots).graph.consumed_from(g),
        translate_roots(g, answers, roots).result matches Ok(exprs) ==> exprs.len()
            == roots.len(),
    decreases roots.len(),
{
    if roots.len() > 0 {
        assert(g.has_node(roots[0]));
        lemma_translate_node_consumes(g, answers, roots[0], Seq::empty());
        let first = translate_node(g, answers, roots[0], Seq::empty());
        if first.result is Ok {
            let rest = roots.skip(1);
            assert forall|i: int| 0 <= i < rest.len() implies first.graph.has_node(
                #[trigger] rest[i],
            ) by {
                assert(rest[i] == roots[i + 1]);
                assert(g.has_node(roots[i + 1]));
                assert(first.graph.shape().node_count == g.shape().node_count);
            }
            lemma_translate_roots_consumes(first.graph, answers, rest);
            lemma_consumed_chain(g, first.graph, translate_roots(first.graph, answers, rest).graph);
        }
    }
}

/// A node that is being translated keeps its operation while its children
/// are translated: the operation is there to be plucked afterwards.
pub proof fn lemma_operation_kept(g: GraphView, answers: Answers, n: int)
    requires
        g.well_formed(),
        g.has_node(n),
        g.nodes[n].visited,
    ensures
        process_children(g, answers, n).graph.nodes[n].content == g.nodes[n].content,
{
    lemma_process_children_consumes(g, answers, n);
    let after = process_children(g, answers, n).graph;
    let slot = after.nodes[n];
}

/// What two steps pluck at the targets, one after the other, they pluck at
/// the targets together.
pub proof fn lemma_touched_chain(g: GraphView, mid: GraphView, after: GraphView)
    requires
        g.well_formed(),
        mid.consumed_from(g),
        after.consumed_from(mid),
        touched_only(g, mid),
        touched_only(mid, after),
    ensures
        touched_only(g, after),
{
    assert(mid.shape() == g.shape());
    assert(mid.shape().node_count == g.shape().node_count);
    assert forall|e: int| g.has_edge(e) implies #[trigger] after.edges[e] == g.edges[e] || entered(
        g,
        after,
        g.edges[e].target,
    ) by {
        assert(g.shape().has_edge(e));
        assert(g.shape().has_node(g.shape().links[e].1));
        assert(mid.shape().links[e] == g.shape().links[e]);
        let t = g.edges[e].target;
        let between = mid.edges[e];
        assert(mid.has_node(t));
        if mid.edges[e] != g.edges[e] {
            assert(entered(g, mid, t));
            assert(after.nodes[t].visited);
        } else if after.edges[e] != mid.edges[e] {
            assert(entered(mid, after, t));
            if g.nodes[t].visited {
                assert(mid.nodes[t].visited);
            }
        }
    }
}

proof fn lemma_apply_dependencies_touches(
    g: GraphView,
    query: crate::query::QueryView,
    edges: Seq<int>,
    n: int,
)
    requires
        edges_of(g, edges),
        end_at(g, edges, n),
    ensures
        forall|e: int|
            g.has_edge(e) ==> #[trigger] apply_dependencies(g, query, edges).graph.edges[e]
                == g.edges[e] || g.edges[e].target == n,
    decreases edges.len(),
{
    if edges.len() > 0 {
        let e = edges[0];
        let next = g.pluck_edge(e);
        assert(g.has_edge(e));
        let rest = edges.skip(1);
        assert forall|i: int| 0 <= i < rest.len() implies next.has_edge(#[trigger] rest[i])
            && next.edges[rest[i]].target == n by {
            assert(rest[i] == edges[i + 1]);
            assert(g.has_edge(edges[i + 1]));
        }
        match crate::plan::apply_dependency(
            query,
            g.edges[e].content,
            g.edges[e].source,
            g.edges[e].target,
        ) {
            Err(_) => {},
            Ok(q) => {
                lemma_apply_dependencies_touches(next, q, rest, n);
                let after = apply_dependencies(next, q, rest).graph;
                assert forall|x: int| g.has_edge(x) implies #[trigger] after.edges[x] == g.edges[x]
                    || g.edges[x].target == n by {
                    assert(next.has_edge(x));
                }
            },
        }
    }
}

/// Single consumption, for the edges: the translation of a node takes the
/// content of an edge only as it visits the node in which the edge ends.
pub proof fn lemma_translate_node_plucks_at_target(
    g: GraphView,
    answers: Answers,
    n: int,
    parents: Seq<int>,
)
    requires
        g.well_formed(),
        g.has_node(n),
        edges_of(g, parents),
        end_at(g, parents, n),
    ensures
        touched_only(g, translate_node(g, answers, n, parents).graph),
    decreases g.unvisited(), 1int, 0nat,
{
    match g.nodes[n].content {
        Some(crate::graph::NodeView::Query(_)) => {
            lemma_translate_query_plucks_at_target(g, answers, n, parents);
        },
        _ => {},
    }
}

/// Single consumption, for the edges, at a node that holds an operation.
pub proof fn lemma_translate_query_plucks_at_target(
    g: GraphView,
    answers: Answers,
    n: int,
    parents: Seq<int>,
)
    requires
        g.well_formed(),
        g.has_node(n),
        edges_of(g, parents),
        end_at(g, parents, n),
    ensures
        touched_only(g, translate_query(g, answers, n, parents).graph),
    decreases g.unvisited(), 0int, 0nat,
{
    if !g.nodes[n].visited {
        let marked = g.mark_visited(n);
        lemma_mark_visited(g, n);
        assert(marked.consumed_from(g));
        assert(touched_only(g, marked));
        if !marked.is_result(n) {
            lemma_process_children_plucks_at_target(marked, answers, n);
            lemma_process_children_consumes(marked, answers, n);
        }
        let below = if marked.is_result(n) {
            crate::plan::Outcome::<Seq<crate::expression::ExpressionView>> {
                graph: marked,
                result: Ok(Seq::empty()),
            }
        } else {
            process_children(marked, answers, n)
        };
        lemma_touched_chain(g, marked, below.graph);
        lemma_consumed_chain(g, marked, below.graph);
        if below.result is Ok {
            let g2 = below.graph;
            assert(g2.shape() == g.shape());
            assert(g2.has_node(n));
            assert(g2.nodes[n].visited);
            let plucked = g2.pluck_node(n);
            match g2.nodes[n].content {
                Some(crate::graph::NodeView::Query(query)) => {
                    assert(edges_of(plucked, parents) && end_at(plucked, parents, n)) by {
                        assert forall|i: int| 0 <= i < parents.len() implies plucked.has_edge(
                            #[trigger] parents[i],
                        ) && plucked.edges[parents[i]].target == n by {
                            let e = parents[i];
                            assert(g.has_edge(e));
                            assert(g.shape().has_edge(e));
                            assert(plucked.shape().links[e] == g.shape().links[e]);
                        }
                    }
                    lemma_apply_dependencies_touches(plucked, query, parents, n);
                    lemma_apply_dependencies_consumes(plucked, query, parents);
                    let after = apply_dependencies(plucked, query, parents).graph;
                    assert(after.nodes == plucked.nodes);
                    assert forall|e: int| g.has_edge(e) implies #[trigger] after.edges[e]
                        == g.edges[e] || entered(g, after, g.edges[e].target) by {
                        assert(g.shape().has_edge(e));
                        assert(g.shape().has_node(g.shape().links[e].1));
                        assert(plucked.shape().links[e] == g.shape().links[e]);
                        assert(plucked.has_edge(e));
                        let t = g.edges[e].target;
                        let between = g2.edges[e];
                        if after.edges[e] != plucked.edges[e] {
                            assert(plucked.edges[e].target == n);
                            assert(entered(g, after, n));
                        } else if g2.edges[e] != g.edges[e] {
                            assert(entered(g, g2, t));
                            assert(g2.has_node(t));
                        }
                    }
                },
                _ => {
                    assert forall|e: int| g.has_edge(e) implies #[trigger] plucked.edges[e]
                        == g.edges[e] || entered(g, plucked, g.edges[e].target) by {
                        assert(g.shape().has_edge(e));
                        assert(g.shape().has_node(g.shape().links[e].1));
                        let t = g.edges[e].target;
                        let between = g2.edges[e];
                        if g2.edges[e] != g.edges[e] {
                            assert(entered(g, g2, t));
                            assert(g2.has_node(t));
                        }
                    }
                },
            }
        }
    }
}

/// Single consumption, for the edges, below a node.
pub proof fn lemma_process_children_plucks_at_target(g: GraphView, answers: Answers, n: int)
    requires
        g.well_formed(),
        g.has_node(n),
    ensures
        touched_only(g, process_children(g, answers, n).graph),
    decreases g.unvisited(), 5int, 0nat,
{
    let pairs = g.child_pairs(n);
    lemma_child_pairs_joined(g, n, g.edges.len() as int);
    lemma_select_joined(g.shape(), pairs, false);
    lemma_select_joined(g.shape(), pairs, true);
    let lone = g.shape().select(pairs, false);
    let bearing = g.shape().select(pairs, true);
    lemma_translate_children_plucks_at_target(g, answers, lone);
    lemma_translate_children_consumes(g, answers, lone);
    let effects = translate_children(g, answers, lone);
    lemma_follows_unvisited(effects.graph, g);
    if effects.result is Ok && bearing.len() > 0 {
        lemma_translate_children_plucks_at_target(effects.graph, answers, bearing);
        lemma_fold_result_scopes_consumes(effects.graph, answers, bearing);
        lemma_touched_chain(
            g,
            effects.graph,
            fold_result_scopes(effects.graph, answers, bearing).graph,
        );
    }
}

/// Single consumption, for the edges, along a list of children.
pub proof fn lemma_translate_children_plucks_at_target(
    g: GraphView,
    answers: Answers,
    pairs: Seq<(int, int)>,
)
    requires
        g.well_formed(),
        joined(g.shape(), pairs),
    ensures
        touched_only(g, translate_children(g, answers, pairs).graph),
        touched_only(g, fold_result_scopes(g, answers, pairs).graph),
    decreases g.unvisited(), 3int, pairs.len(),
{
    if pairs.len() > 0 {
        let child = pairs[0].1;
        assert(g.shape().has_edge(pairs[0].0));
        assert(g.shape().has_node(child));
        let incoming = g.shape().incoming(child);
        lemma_incoming_edges(g.shape(), child, g.shape().links.len() as int);
        crate::reach::lemma_incoming_targets(g.shape(), child, g.shape().links.len() as int);
        assert(edges_of(g, incoming) && end_at(g, incoming, child)) by {
            assert forall|i: int| 0 <= i < incoming.len() implies g.has_edge(
                #[trigger] incoming[i],
            ) && g.edges[incoming[i]].target == child by {
                assert(g.shape().has_edge(incoming[i]));
                assert(g.shape().links[incoming[i]].1 == child);
            }
        }
        lemma_translate_node_plucks_at_target(g, answers, child, incoming);
        lemma_process_child_consumes(g, answers, pairs[0].0, child);
        let first = process_child_with_dependency(g, answers, pairs[0].0, child);
        lemma_follows_unvisited(first.graph, g);
        if first.result is Ok {
            let rest = pairs.skip(1);
            assert(joined(first.graph.shape(), rest)) by {
                assert forall|i: int| 0 <= i < rest.len() implies g.shape().has_edge(
                    (#[trigger] rest[i]).0,
                ) && g.shape().links[rest[i].0].1 == rest[i].1 && g.shape().has_node(rest[i].1) by {
                    assert(rest[i] == pairs[i + 1]);
                }
            }
            lemma_translate_children_plucks_at_target(first.graph, answers, rest);
            lemma_translate_children_consumes(first.graph, answers, rest);
            lemma_touched_chain(
                g,
                first.graph,
                translate_children(first.graph, answers, rest).graph,
            );
        }
    }
}

/// Single consumption, for the edges, over a whole graph: from the first
/// root to the last, an edge loses its content only as the node in which
/// it ends is visited.
pub proof fn lemma_translate_roots_plucks_at_target(
    g: GraphView,
    answers: Answers,
    roots: Seq<int>,
)
    requires
        g.well_formed(),
        nodes_of(g, roots),
    ensures
        touched_only(g, translate_roots(g, answers, roots).graph),
    decreases roots.len(),
{
    if roots.len() > 0 {
        assert(g.has_node(roots[0]));
        lemma_translate_node_plucks_at_target(g, answers, roots[0], Seq::empty());
        lemma_translate_node_consumes(g, answers, roots[0], Seq::empty());
        let first = translate_node(g, answers, roots[0], Seq::empty());
        if first.result is Ok {
            let rest = roots.skip(1);
            assert forall|i: int| 0 <= i < rest.len() implies first.graph.has_node(
                #[trigger] rest[i],
            ) by {
                assert(rest[i] == roots[i + 1]);
                assert(g.has_node(roots[i + 1]));
                assert(first.graph.shape().node_count == g.shape().node_count);
            }
            lemma_translate_roots_plucks_at_target(first.graph, answers, rest);
            lemma_translate_roots_consumes(first.graph, answers, rest);
            lemma_touched_chain(g, first.graph, translate_roots(first.graph, answers, rest).graph);
        }
    }
}

} // verus!
