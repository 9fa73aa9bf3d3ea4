use vstd::prelude::*;
use crate::expression::ExpressionView;
use crate::graph::{GraphView, NodeView, Shape};
use crate::consumption::{
    edges_of, lemma_process_child_consumes, lemma_translate_children_consumes,
    nodes_of,
};
use crate::plan::{
    apply_dependencies, apply_dependency, fold_result_scopes, lemma_follows_unvisited,
    lemma_mark_visited, process_child_with_dependency, process_children, translate_children,
    translate_node, translate_query, translate_roots, Answers, Outcome,
};
use crate::reach::{
    joined, lemma_child_pairs_joined, lemma_incoming_edges, lemma_incoming_targets,
    lemma_select_joined,
};
use crate::scope::lemma_select_sources;

verus! {

/// Whether every edge that leaves a node of `s` ends in a node of `s`.
pub open spec fn closed(g: Shape, s: Set<int>) -> bool {
    forall|e: int| #[trigger] g.has_edge(e) && s.contains(g.links[e].0) ==> s.contains(g.links[e].1)
}

/// Whether each of `edges` ends in a node of `s`.
pub open spec fn end_in(g: GraphView, edges: Seq<int>, s: Set<int>) -> bool {
    forall|i: int| 0 <= i < edges.len() ==> s.contains(g.edges[#[trigger] edges[i]].target)
}

/// Whether each of `pairs` ends in a node of `s`.
pub open spec fn targets_in(pairs: Seq<(int, int)>, s: Set<int>) -> bool {
    forall|i: int| 0 <= i < pairs.len() ==> s.contains((#[trigger] pairs[i]).1)
}

impl GraphView {
    /// Whether `self` has every node outside `s`, and every edge into a
    /// node outside `s`, as `before` has it.
    pub open spec fn untouched_outside(self, before: GraphView, s: Set<int>) -> bool {
        &&& self.shape() == before.shape()
        &&& self.edges.len() == before.edges.len()
        &&& forall|m: int|
            before.has_node(m) && !s.contains(m) ==> #[trigger] self.nodes[m] == before.nodes[m]
        &&& forall|e: int|
            before.has_edge(e) && !s.contains(before.edges[e].target) ==> #[trigger] self.edges[e]
                == before.edges[e]
    }
}

/// What two steps leave untouched, one after the other, they leave untouched together.
pub proof fn lemma_untouched_chain(a: GraphView, b: GraphView, c: GraphView, s: Set<int>)
    requires
        b.untouched_outside(a, s),
        c.untouched_outside(b, s),
    ensures
        c.untouched_outside(a, s),
{
    assert(a.shape().node_count == b.shape().node_count);
    assert forall|m: int| a.has_node(m) && !s.contains(m) implies #[trigger] c.nodes[m]
        == a.nodes[m] by {
        assert(b.has_node(m));
        assert(b.nodes[m] == a.nodes[m]);
    }
    assert forall|e: int| a.has_edge(e) && !s.contains(a.edges[e].target) implies #[trigger] c.edges[e]
        == a.edges[e] by {
        assert(b.has_edge(e));
        assert(b.edges[e] == a.edges[e]);
    }
}

/// The children of a node of a closed set are in the set.
pub proof fn lemma_children_in(g: GraphView, n: int, s: Set<int>, bearing: bool)
    requires
        g.well_formed(),
        closed(g.shape(), s),
        s.contains(n),
    ensures
        targets_in(g.shape().select(g.child_pairs(n), bearing), s),
{
    let pairs = g.child_pairs(n);
    let chosen = g.shape().select(pairs, bearing);
    lemma_child_pairs_joined(g, n, g.edges.len() as int);
    lemma_select_joined(g.shape(), pairs, bearing);
    lemma_select_sources(g, pairs, n, bearing);
    assert forall|i: int| 0 <= i < chosen.len() implies s.contains((#[trigger] chosen[i]).1) by {
        let e = chosen[i].0;
        assert(g.shape().has_edge(e));
        assert(g.edges[e].source == n);
        assert(g.shape().links[e].0 == n);
    }
}

/// The edges that end in a node are edges of the graph and end in it.
pub proof fn lemma_incoming_end_in(g: GraphView, child: int, s: Set<int>)
    requires
        s.contains(child),
    ensures
        edges_of(g, g.shape().incoming(child)),
        end_in(g, g.shape().incoming(child), s),
{
    lemma_incoming_edges(g.shape(), child, g.shape().links.len() as int);
    lemma_incoming_targets(g.shape(), child, g.shape().links.len() as int);
    let incoming = g.shape().incoming(child);
    assert forall|i: int| 0 <= i < incoming.len() implies g.has_edge(#[trigger] incoming[i])
        && s.contains(g.edges[incoming[i]].target) by {
        assert(g.shape().has_edge(incoming[i]));
        assert(g.shape().links[incoming[i]].1 == child);
    }
}

/// Applying dependencies touches nothing but the edges it is given.
pub proof fn lemma_apply_dependencies_frame(
    g: GraphView,
    query: crate::query::QueryView,
    edges: Seq<int>,
    s: Set<int>,
)
    requires
        edges_of(g, edges),
        end_in(g, edges, s),
    ensures
        apply_dependencies(g, query, edges).graph.untouched_outside(g, s),
    decreases edges.len(),
{
    if edges.len() > 0 {
        let e = edges[0];
        let next = g.pluck_edge(e);
        assert(g.has_edge(e));
        assert(next.shape().links =~= g.shape().links);
        assert(next.untouched_outside(g, s));
        let rest = edges.skip(1);
        assert forall|i: int| 0 <= i < rest.len() implies next.has_edge(#[trigger] rest[i])
            && s.contains(next.edges[rest[i]].target) by {
            assert(rest[i] == edges[i + 1]);
            assert(g.has_edge(edges[i + 1]));
        }
        match apply_dependency(query, g.edges[e].content, g.edges[e].source, g.edges[e].target) {
            Err(_) => {},
            Ok(q) => {
                lemma_apply_dependencies_frame(next, q, rest, s);
                lemma_untouched_chain(g, next, apply_dependencies(next, q, rest).graph, s);
            },
        }
    }
}

/// Translation of a node touches nothing but what can be reached from it:
/// where `s` holds the node and whatever an edge leads to from `s`, every
/// node outside `s` and every edge into such a node stays as it is.
pub proof fn lemma_translate_node_frame(
    g: GraphView,
    answers: Answers,
    n: int,
    parents: Seq<int>,
    s: Set<int>,
)
    requires
        g.well_formed(),
        g.has_node(n),
        edges_of(g, parents),
        end_in(g, parents, s),
        closed(g.shape(), s),
        s.contains(n),
    ensures
        translate_node(g, answers, n, parents).graph.untouched_outside(g, s),
    decreases g.unvisited(), 1int, 0nat,
{
    match g.nodes[n].content {
        Some(NodeView::Query(_)) => {
            lemma_translate_query_frame(g, answers, n, parents, s);
        },
        _ => {},
    }
}

/// Translation of an operation touches nothing outside a closed set that holds its node.
pub proof fn lemma_translate_query_frame(
    g: GraphView,
    answers: Answers,
    n: int,
    parents: Seq<int>,
    s: Set<int>,
)
    requires
        g.well_formed(),
        g.has_node(n),
        edges_of(g, parents),
        end_in(g, parents, s),
        closed(g.shape(), s),
        s.contains(n),
    ensures
        translate_query(g, answers, n, parents).graph.untouched_outside(g, s),
    decreases g.unvisited(), 0int, 0nat,
{
    if !g.nodes[n].visited {
        let marked = g.mark_visited(n);
        assert(marked.untouched_outside(g, s));
        lemma_mark_visited(g, n);
        if !marked.is_result(n) {
            lemma_process_children_frame(marked, answers, n, s);
        }
        let below = if marked.is_result(n) {
            Outcome::<Seq<ExpressionView>> { graph: marked, result: Ok(Seq::empty()) }
        } else {
            process_children(marked, answers, n)
        };
        lemma_untouched_chain(g, marked, below.graph, s);
        if below.result is Ok {
            let plucked = below.graph.pluck_node(n);
            assert(below.graph.has_node(n));
            assert(plucked.untouched_outside(below.graph, s));
            lemma_untouched_chain(g, below.graph, plucked, s);
            match below.graph.nodes[n].content {
                Some(NodeView::Query(query)) => {
                    assert(edges_of(plucked, parents) && end_in(plucked, parents, s)) by {
                        assert forall|i: int| 0 <= i < parents.len() implies plucked.has_edge(
                            #[trigger] parents[i],
                        ) && s.contains(plucked.edges[parents[i]].target) by {
                            let e = parents[i];
                            assert(g.has_edge(e));
                            assert(plucked.shape().links[e] == g.shape().links[e]);
                        }
                    }
                    lemma_apply_dependencies_frame(plucked, query, parents, s);
                    lemma_untouched_chain(
                        g,
                        plucked,
                        apply_dependencies(plucked, query, parents).graph,
                        s,
                    );
                },
                _ => {},
            }
        }
    }
}

/// Translation of the children of a node touches nothing outside a closed set that holds the node.
pub proof fn lemma_process_children_frame(g: GraphView, answers: Answers, n: int, s: Set<int>)
    requires
        g.well_formed(),
        g.has_node(n),
        closed(g.shape(), s),
        s.contains(n),
    ensures
        process_children(g, answers, n).graph.untouched_outside(g, s),
    decreases g.unvisited(), 5int, 0nat,
{
    let pairs = g.child_pairs(n);
    lemma_child_pairs_joined(g, n, g.edges.len() as int);
    lemma_select_joined(g.shape(), pairs, false);
    lemma_select_joined(g.shape(), pairs, true);
    lemma_children_in(g, n, s, false);
    lemma_children_in(g, n, s, true);
    let lone = g.shape().select(pairs, false);
    let bearing = g.shape().select(pairs, true);
    lemma_translate_children_frame(g, answers, lone, s);
    lemma_translate_children_consumes(g, answers, lone);
    let effects = translate_children(g, answers, lone);
    lemma_follows_unvisited(effects.graph, g);
    if effects.result is Ok && bearing.len() > 0 {
        lemma_fold_result_scopes_frame(effects.graph, answers, bearing, s);
        lemma_untouched_chain(
            g,
            effects.graph,
            fold_result_scopes(effects.graph, answers, bearing).graph,
            s,
        );
    }
}

/// Folding children touches nothing outside a closed set that holds them.
pub proof fn lemma_fold_result_scopes_frame(
    g: GraphView,
    answers: Answers,
    pairs: Seq<(int, int)>,
    s: Set<int>,
)
    requires
        g.well_formed(),
        joined(g.shape(), pairs),
        targets_in(pairs, s),
        closed(g.shape(), s),
    ensures
        fold_result_scopes(g, answers, pairs).graph.untouched_outside(g, s),
    decreases g.unvisited(), 4int, 0nat,
{
    lemma_translate_children_frame(g, answers, pairs, s);
}

/// Translation of a list of children touches nothing outside a closed set that holds them.
pub proof fn lemma_translate_children_frame(
    g: GraphView,
    answers: Answers,
    pairs: Seq<(int, int)>,
    s: Set<int>,
)
    requires
        g.well_formed(),
        joined(g.shape(), pairs),
        targets_in(pairs, s),
        closed(g.shape(), s),
    ensures
        translate_children(g, answers, pairs).graph.untouched_outside(g, s),
    decreases g.unvisited(), 3int, pairs.len(),
{
    if pairs.len() > 0 {
        assert(g.shape().has_edge(pairs[0].0));
        assert(s.contains(pairs[0].1));
        lemma_process_child_consumes(g, answers, pairs[0].0, pairs[0].1);
        lemma_process_child_frame(g, answers, pairs[0].0, pairs[0].1, s);
        let first = process_child_with_dependency(g, answers, pairs[0].0, pairs[0].1);
        lemma_follows_unvisited(first.graph, g);
        if first.result is Ok {
            let rest = pairs.skip(1);
            assert(joined(first.graph.shape(), rest) && targets_in(rest, s)) by {
                assert forall|i: int| 0 <= i < rest.len() implies g.shape().has_edge(
                    (#[trigger] rest[i]).0,
                ) && g.shape().links[rest[i].0].1 == rest[i].1 && g.shape().has_node(rest[i].1)
                    && s.contains(rest[i].1) by {
                    assert(rest[i] == pairs[i + 1]);
                }
            }
            lemma_translate_children_frame(first.graph, answers, rest, s);
            lemma_untouched_chain(
                g,
                first.graph,
                translate_children(first.graph, answers, rest).graph,
                s,
            );
        }
    }
}

/// Translation of a child touches nothing outside a closed set that holds it.
pub proof fn lemma_process_child_frame(
    g: GraphView,
    answers: Answers,
    edge: int,
    child: int,
    s: Set<int>,
)
    requires
        g.well_formed(),
        g.has_edge(edge),
        g.has_node(child),
        closed(g.shape(), s),
        s.contains(child),
    ensures
        process_child_with_dependency(g, answers, edge, child).graph.untouched_outside(g, s),
    decreases g.unvisited(), 2int, 0nat,
{
    lemma_incoming_end_in(g, child, s);
    lemma_translate_node_frame(g, answers, child, g.shape().incoming(child), s);
}

/// Translation of a list of roots touches nothing outside a closed set that holds them.
pub proof fn lemma_translate_roots_frame(
    g: GraphView,
    answers: Answers,
    roots: Seq<int>,
    s: Set<int>,
)
    requires
        g.well_formed(),
        nodes_of(g, roots),
        closed(g.shape(), s),
        forall|i: int| 0 <= i < roots.len() ==> s.contains(#[trigger] roots[i]),
    ensures
        translate_roots(g, answers, roots).graph.untouched_outside(g, s),
    decreases roots.len(),
{
    if roots.len() > 0 {
        assert(g.has_node(roots[0]));
        assert(s.contains(roots[0]));
        lemma_translate_node_frame(g, answers, roots[0], Seq::empty(), s);
        let first = translate_node(g, answers, roots[0], Seq::empty());
        if first.result is Ok {
            let rest = roots.skip(1);
            assert forall|i: int| 0 <= i < rest.len() implies first.graph.has_node(
                #[trigger] rest[i],
            ) && s.contains(rest[i]) by {
                assert(rest[i] == roots[i + 1]);
                assert(g.has_node(roots[i + 1]));
                assert(first.graph.shape().node_count == g.shape().node_count);
            }
            lemma_translate_roots_frame(first.graph, answers, rest, s);
            lemma_untouched_chain(
                g,
                first.graph,
                translate_roots(first.graph, answers, rest).graph,
                s,
            );
        }
    }
}

} // verus!
