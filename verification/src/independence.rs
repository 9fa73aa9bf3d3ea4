use vstd::prelude::*;
use crate::expression::ExpressionView;
use crate::frame::{
    closed, end_in, lemma_children_in, lemma_incoming_end_in, lemma_translate_roots_frame,
    targets_in,
};
use crate::graph::{GraphView, NodeView, Shape};
use crate::consumption::{
    edges_of, lemma_process_child_consumes, lemma_translate_children_consumes,
    nodes_of,
};
use crate::plan::{
    apply_dependencies, apply_dependency, fold_result_scopes, lemma_follows_unvisited,
    lemma_mark_visited, process_child_with_dependency, process_children, translate_children,
    translate_node, translate_query, translate_roots, Answers, Outcome,
};
use crate::reach::{joined, lemma_child_pairs_joined, lemma_reaches_itself, lemma_select_joined};

verus! {

/// Whether two states of one graph have every node of `s`, and every edge
/// into a node of `s`, alike.
pub open spec fn alike(a: GraphView, b: GraphView, s: Set<int>) -> bool {
    &&& a.shape() == b.shape()
    &&& a.edges.len() == b.edges.len()
    &&& forall|m: int| a.has_node(m) && s.contains(m) ==> #[trigger] a.nodes[m] == b.nodes[m]
    &&& forall|e: int|
        a.has_edge(e) && s.contains(a.edges[e].target) ==> #[trigger] a.edges[e] == b.edges[e]
    &&& parents_alike(a, b, s)
}

/// Whether two states of one graph have each parent of a node of `s`
/// marked as visited alike.
pub open spec fn parents_alike(a: GraphView, b: GraphView, s: Set<int>) -> bool {
    forall|e: int|
        a.has_edge(e) && s.contains(a.edges[e].target) ==> a.nodes[(#[trigger] a.edges[e]).source].visited
            == b.nodes[a.edges[e].source].visited
}

/// In two states that are alike on a closed set, a node of the set has the
/// same direct children.
proof fn lemma_child_pairs_alike(a: GraphView, b: GraphView, n: int, s: Set<int>, upto: int)
    requires
        a.well_formed(),
        closed(a.shape(), s),
        s.contains(n),
        alike(a, b, s),
        0 <= upto <= a.edges.len(),
    ensures
        a.child_pairs_below(n, upto) == b.child_pairs_below(n, upto),
    decreases upto,
{
    if upto > 0 {
        lemma_child_pairs_alike(a, b, n, s, upto - 1);
        let e = upto - 1;
        assert(a.shape().has_edge(e));
        assert(a.shape().links[e] == b.shape().links[e]);
        assert(a.edges[e].source == b.edges[e].source && a.edges[e].target == b.edges[e].target);
        if a.edges[e].source == n {
            let c = a.edges[e].target;
            assert(a.shape().links[e].0 == n);
            assert(s.contains(c));
            assert(a.has_node(c));
            assert(a.nodes[c] == b.nodes[c]);
            assert(a.is_ready(c) == b.is_ready(c)) by {
                assert forall|x: int| 0 <= x < a.edges.len() implies a.from_visited(
                    #[trigger] a.edges[x],
                    c,
                ) == b.from_visited(b.edges[x], c) by {
                    assert(a.shape().has_edge(x));
                    assert(a.shape().links[x] == b.shape().links[x]);
                }
                if a.is_ready(c) {
                    assert forall|x: int| 0 <= x < b.edges.len() implies b.from_visited(
                        #[trigger] b.edges[x],
                        c,
                    ) by {
                        assert(a.from_visited(a.edges[x], c));
                    }
                }
                if b.is_ready(c) {
                    assert forall|x: int| 0 <= x < a.edges.len() implies a.from_visited(
                        #[trigger] a.edges[x],
                        c,
                    ) by {
                        assert(b.from_visited(b.edges[x], c));
                    }
                }
            }
        }
    }
}

proof fn lemma_apply_dependencies_alike(
    a: GraphView,
    b: GraphView,
    query: crate::query::QueryView,
    edges: Seq<int>,
    s: Set<int>,
)
    requires
        alike(a, b, s),
        edges_of(a, edges),
        end_in(a, edges, s),
    ensures
        apply_dependencies(a, query, edges).result == apply_dependencies(b, query, edges).result,
        alike(apply_dependencies(a, query, edges).graph, apply_dependencies(b, query, edges).graph, s),
    decreases edges.len(),
{
    if edges.len() > 0 {
        let e = edges[0];
        assert(a.has_edge(e));
        assert(a.edges[e] == b.edges[e]);
        let next_a = a.pluck_edge(e);
        let next_b = b.pluck_edge(e);
        assert(next_a.shape().links =~= a.shape().links);
        assert(next_b.shape().links =~= b.shape().links);
        assert(alike(next_a, next_b, s)) by {
            assert forall|x: int|
                next_a.has_edge(x) && s.contains(next_a.edges[x].target) implies #[trigger] next_a.edges[x]
                == next_b.edges[x] by {
                assert(a.has_edge(x));
                assert(a.edges[x] == b.edges[x]);
            }
            assert forall|x: int|
                next_a.has_edge(x) && s.contains(next_a.edges[x].target) implies next_a.nodes[(
                #[trigger] next_a.edges[x]).source].visited
                == next_b.nodes[next_a.edges[x].source].visited by {
                assert(a.has_edge(x));
                let slot = a.edges[x];
            }
        }
        let rest = edges.skip(1);
        assert forall|i: int| 0 <= i < rest.len() implies next_a.has_edge(#[trigger] rest[i])
            && s.contains(next_a.edges[rest[i]].target) by {
            assert(rest[i] == edges[i + 1]);
            assert(a.has_edge(edges[i + 1]));
        }
        match apply_dependency(query, a.edges[e].content, a.edges[e].source, a.edges[e].target) {
            Err(_) => {},
            Ok(q) => {
                lemma_apply_dependencies_alike(next_a, next_b, q, rest, s);
            },
        }
    }
}

/// What a node gives depends on nothing but what can be reached from it:
/// in two states that are alike on `s`, which holds the node and whatever
/// an edge leads to from `s`, translation gives the same, and leaves
/// states that are alike on `s`.
pub proof fn lemma_translate_node_alike(
    a: GraphView,
    b: GraphView,
    answers: Answers,
    n: int,
    parents: Seq<int>,
    s: Set<int>,
)
    requires
        a.well_formed(),
        a.has_node(n),
        edges_of(a, parents),
        end_in(a, parents, s),
        closed(a.shape(), s),
        s.contains(n),
        alike(a, b, s),
    ensures
        translate_node(a, answers, n, parents).result == translate_node(
            b,
            answers,
            n,
            parents,
        ).result,
        alike(
            translate_node(a, answers, n, parents).graph,
            translate_node(b, answers, n, parents).graph,
            s,
        ),
    decreases a.unvisited(), 1int, 0nat,
{
    assert(a.nodes[n] == b.nodes[n]);
    match a.nodes[n].content {
        Some(NodeView::Query(_)) => {
            lemma_translate_query_alike(a, b, answers, n, parents, s);
        },
        _ => {},
    }
}

/// An operation gives the same in two states that are alike where it looks.
pub proof fn lemma_translate_query_alike(
    a: GraphView,
    b: GraphView,
    answers: Answers,
    n: int,
    parents: Seq<int>,
    s: Set<int>,
)
    requires
        a.well_formed(),
        a.has_node(n),
        edges_of(a, parents),
        end_in(a, parents, s),
        closed(a.shape(), s),
        s.contains(n),
        alike(a, b, s),
    ensures
        translate_query(a, answers, n, parents).result == translate_query(
            b,
            answers,
            n,
            parents,
        ).result,
        alike(
            translate_query(a, answers, n, parents).graph,
            translate_query(b, answers, n, parents).graph,
            s,
        ),
    decreases a.unvisited(), 0int, 0nat,
{
    assert(a.nodes[n] == b.nodes[n]);
    assert(b.has_node(n)) by {
        assert(a.shape().node_count == b.shape().node_count);
    }
    if !a.nodes[n].visited {
        let marked_a = a.mark_visited(n);
        let marked_b = b.mark_visited(n);
        lemma_mark_visited(a, n);
        assert(alike(marked_a, marked_b, s)) by {
            assert forall|m: int|
                marked_a.has_node(m) && s.contains(m) implies #[trigger] marked_a.nodes[m]
                == marked_b.nodes[m] by {
                assert(a.has_node(m));
                assert(a.nodes[m] == b.nodes[m]);
            }
            assert forall|e: int|
                marked_a.has_edge(e) && s.contains(marked_a.edges[e].target) implies #[trigger] marked_a.edges[e]
                == marked_b.edges[e] by {
                assert(a.edges[e] == b.edges[e]);
            }
            assert forall|e: int|
                marked_a.has_edge(e) && s.contains(marked_a.edges[e].target) implies marked_a.nodes[(
                #[trigger] marked_a.edges[e]).source].visited
                == marked_b.nodes[marked_a.edges[e].source].visited by {
                let slot = a.edges[e];
                assert(a.shape().has_edge(e));
                assert(a.shape().has_node(a.shape().links[e].0));
                assert(b.has_node(slot.source));
            }
        }
        if !marked_a.is_result(n) {
            lemma_process_children_alike(marked_a, marked_b, answers, n, s);
            crate::consumption::lemma_process_children_consumes(marked_a, answers, n);
        }
        let below_a = if marked_a.is_result(n) {
            Outcome::<Seq<ExpressionView>> { graph: marked_a, result: Ok(Seq::empty()) }
        } else {
            process_children(marked_a, answers, n)
        };
        let below_b = if marked_b.is_result(n) {
            Outcome::<Seq<ExpressionView>> { graph: marked_b, result: Ok(Seq::empty()) }
        } else {
            process_children(marked_b, answers, n)
        };
        assert(below_a.result == below_b.result);
        assert(alike(below_a.graph, below_b.graph, s));
        if below_a.result is Ok {
            let plucked_a = below_a.graph.pluck_node(n);
            let plucked_b = below_b.graph.pluck_node(n);
            assert(below_a.graph.shape() == a.shape());
            assert(plucked_a.shape() == a.shape());
            assert(below_a.graph.has_node(n));
            assert(below_a.graph.nodes[n] == below_b.graph.nodes[n]);
            assert(alike(plucked_a, plucked_b, s)) by {
                assert forall|m: int|
                    plucked_a.has_node(m) && s.contains(m) implies #[trigger] plucked_a.nodes[m]
                    == plucked_b.nodes[m] by {
                    assert(below_a.graph.has_node(m));
                    assert(below_a.graph.nodes[m] == below_b.graph.nodes[m]);
                }
                assert forall|e: int|
                    plucked_a.has_edge(e) && s.contains(plucked_a.edges[e].target) implies #[trigger] plucked_a.edges[e]
                    == plucked_b.edges[e] by {
                    assert(below_a.graph.edges[e] == below_b.graph.edges[e]);
                }
                assert forall|e: int|
                    plucked_a.has_edge(e) && s.contains(plucked_a.edges[e].target) implies plucked_a.nodes[(
                    #[trigger] plucked_a.edges[e]).source].visited
                    == plucked_b.nodes[plucked_a.edges[e].source].visited by {
                    let slot = below_a.graph.edges[e];
                    assert(a.shape().has_edge(e));
                    assert(a.shape().has_node(a.shape().links[e].0));
                    assert(below_b.graph.has_node(slot.source));
                }
            }
            match below_a.graph.nodes[n].content {
                Some(NodeView::Query(query)) => {
                    assert(edges_of(plucked_a, parents) && end_in(plucked_a, parents, s)) by {
                        assert forall|i: int| 0 <= i < parents.len() implies plucked_a.has_edge(
                            #[trigger] parents[i],
                        ) && s.contains(plucked_a.edges[parents[i]].target) by {
                            let e = parents[i];
                            assert(a.has_edge(e));
                            assert(plucked_a.shape().links[e] == a.shape().links[e]);
                        }
                    }
                    lemma_apply_dependencies_alike(plucked_a, plucked_b, query, parents, s);
                },
                _ => {},
            }
        }
    }
}

/// The children of a node give the same in two states that are alike where they look.
pub proof fn lemma_process_children_alike(
    a: GraphView,
    b: GraphView,
    answers: Answers,
    n: int,
    s: Set<int>,
)
    requires
        a.well_formed(),
        a.has_node(n),
        closed(a.shape(), s),
        s.contains(n),
        alike(a, b, s),
    ensures
        process_children(a, answers, n).result == process_children(b, answers, n).result,
        alike(process_children(a, answers, n).graph, process_children(b, answers, n).graph, s),
    decreases a.unvisited(), 5int, 0nat,
{
    let pairs = a.child_pairs(n);
    lemma_child_pairs_alike(a, b, n, s, a.edges.len() as int);
    assert(b.child_pairs(n) == pairs);
    lemma_child_pairs_joined(a, n, a.edges.len() as int);
    lemma_select_joined(a.shape(), pairs, false);
    lemma_select_joined(a.shape(), pairs, true);
    lemma_children_in(a, n, s, false);
    lemma_children_in(a, n, s, true);
    let lone = a.shape().select(pairs, false);
    let bearing = a.shape().select(pairs, true);
    lemma_translate_children_alike(a, b, answers, lone, s);
    lemma_translate_children_consumes(a, answers, lone);
    lemma_translate_children_consumes(b, answers, lone);
    let effects_a = translate_children(a, answers, lone);
    let effects_b = translate_children(b, answers, lone);
    lemma_follows_unvisited(effects_a.graph, a);
    lemma_follows_unvisited(effects_b.graph, b);
    if effects_a.result is Ok && bearing.len() > 0 {
        lemma_fold_result_scopes_alike(effects_a.graph, effects_b.graph, answers, bearing, s);
    }
}

/// A fold gives the same in two states that are alike where it looks.
pub proof fn lemma_fold_result_scopes_alike(
    a: GraphView,
    b: GraphView,
    answers: Answers,
    pairs: Seq<(int, int)>,
    s: Set<int>,
)
    requires
        a.well_formed(),
        joined(a.shape(), pairs),
        targets_in(pairs, s),
        closed(a.shape(), s),
        alike(a, b, s),
    ensures
        fold_result_scopes(a, answers, pairs).result == fold_result_scopes(
            b,
            answers,
            pairs,
        ).result,
        alike(
            fold_result_scopes(a, answers, pairs).graph,
            fold_result_scopes(b, answers, pairs).graph,
            s,
        ),
    decreases a.unvisited(), 4int, 0nat,
{
    lemma_translate_children_alike(a, b, answers, pairs, s);
    assert(a.shape().results == b.shape().results);
}

/// A list of children gives the same in two states that are alike where they look.
pub proof fn lemma_translate_children_alike(
    a: GraphView,
    b: GraphView,
    answers: Answers,
    pairs: Seq<(int, int)>,
    s: Set<int>,
)
    requires
        a.well_formed(),
        joined(a.shape(), pairs),
        targets_in(pairs, s),
        closed(a.shape(), s),
        alike(a, b, s),
    ensures
        translate_children(a, answers, pairs).result == translate_children(
            b,
            answers,
            pairs,
        ).result,
        alike(
            translate_children(a, answers, pairs).graph,
            translate_children(b, answers, pairs).graph,
            s,
        ),
    decreases a.unvisited(), 3int, pairs.len(),
{
    if pairs.len() > 0 {
        assert(a.shape().has_edge(pairs[0].0));
        assert(s.contains(pairs[0].1));
        assert(b.has_edge(pairs[0].0) && b.has_node(pairs[0].1)) by {
            assert(a.shape().node_count == b.shape().node_count);
        }
        lemma_process_child_consumes(a, answers, pairs[0].0, pairs[0].1);
        lemma_process_child_consumes(b, answers, pairs[0].0, pairs[0].1);
        lemma_process_child_alike(a, b, answers, pairs[0].0, pairs[0].1, s);
        let first_a = process_child_with_dependency(a, answers, pairs[0].0, pairs[0].1);
        let first_b = process_child_with_dependency(b, answers, pairs[0].0, pairs[0].1);
        lemma_follows_unvisited(first_a.graph, a);
        lemma_follows_unvisited(first_b.graph, b);
        if first_a.result is Ok {
            let rest = pairs.skip(1);
            assert(joined(first_a.graph.shape(), rest) && targets_in(rest, s)) by {
                assert forall|i: int| 0 <= i < rest.len() implies a.shape().has_edge(
                    (#[trigger] rest[i]).0,
                ) && a.shape().links[rest[i].0].1 == rest[i].1 && a.shape().has_node(rest[i].1)
                    && s.contains(rest[i].1) by {
                    assert(rest[i] == pairs[i + 1]);
                }
            }
            lemma_translate_children_alike(first_a.graph, first_b.graph, answers, rest, s);
        }
    }
}

/// A child gives the same in two states that are alike where it looks.
pub proof fn lemma_process_child_alike(
    a: GraphView,
    b: GraphView,
    answers: Answers,
    edge: int,
    child: int,
    s: Set<int>,
)
    requires
        a.well_formed(),
        a.has_edge(edge),
        a.has_node(child),
        a.edges[edge].target == child,
        closed(a.shape(), s),
        s.contains(child),
        alike(a, b, s),
    ensures
        process_child_with_dependency(a, answers, edge, child).result
            == process_child_with_dependency(b, answers, edge, child).result,
        alike(
            process_child_with_dependency(a, answers, edge, child).graph,
            process_child_with_dependency(b, answers, edge, child).graph,
            s,
        ),
    decreases a.unvisited(), 2int, 0nat,
{
    assert(a.edges[edge] == b.edges[edge]);
    lemma_incoming_end_in(a, child, s);
    lemma_translate_node_alike(a, b, answers, child, a.shape().incoming(child), s);
}

/// The nodes that can be reached from `n`.
pub open spec fn cone(g: Shape, n: int) -> Set<int> {
    Set::new(|m: int| g.reaches(n, m))
}

/// The nodes that can be reached from one of the first `k` of `roots`.
pub open spec fn cones(g: Shape, roots: Seq<int>, k: int) -> Set<int> {
    Set::new(|m: int| exists|j: int| 0 <= j < k && g.reaches(#[trigger] roots[j], m))
}

/// Whether no node can be reached from two of `roots`.
pub open spec fn independent(g: Shape, roots: Seq<int>) -> bool {
    forall|i: int, j: int, m: int|
        0 <= i < j < roots.len() ==> !(#[trigger] g.reaches(roots[i], m) && #[trigger] g.reaches(
            roots[j],
            m,
        ))
}

/// What can be reached from `a` leads on, over any edge, to what can be
/// reached from `a`.
pub proof fn lemma_reaches_on(g: Shape, a: int, e: int)
    requires
        g.has_edge(e),
        g.reaches(a, g.links[e].0),
    ensures
        g.reaches(a, g.links[e].1),
{
    let b = g.links[e].0;
    let c = g.links[e].1;
    let p = choose|p: Seq<int>| #[trigger] g.is_path(p) && p[0] == a && p.last() == b;
    let q = p.push(c);
    assert forall|i: int| 0 <= i < q.len() - 1 implies #[trigger] g.step(q, i) by {
        if i < p.len() - 1 {
            assert(g.step(p, i));
            assert(q[i] == p[i] && q[i + 1] == p[i + 1]);
        } else {
            assert(q[i] == b && q[i + 1] == c);
            assert(g.linked(b, c));
        }
    }
    assert(g.is_path(q));
    assert(q[0] == a && q.last() == c);
}

/// Root sequencing, for independent roots: a root gives, after the roots
/// before it, what it gives in the graph as it was at first.
pub proof fn lemma_independent_root(g: GraphView, answers: Answers, roots: Seq<int>, k: int)
    requires
        g.well_formed(),
        nodes_of(g, roots),
        independent(g.shape(), roots),
        0 <= k < roots.len(),
    ensures
        translate_node(
            translate_roots(g, answers, roots.take(k)).graph,
            answers,
            roots[k],
            Seq::empty(),
        ).result == translate_node(g, answers, roots[k], Seq::empty()).result,
{
    let shape = g.shape();
    let before = cones(shape, roots, k);
    let own = cone(shape, roots[k]);
    let head = roots.take(k);
    assert(closed(shape, before)) by {
        assert forall|e: int| #[trigger] shape.has_edge(e) && before.contains(
            shape.links[e].0,
        ) implies before.contains(shape.links[e].1) by {
            let j = choose|j: int| 0 <= j < k && shape.reaches(#[trigger] roots[j], shape.links[e].0);
            lemma_reaches_on(shape, roots[j], e);
        }
    }
    assert(closed(shape, own)) by {
        assert forall|e: int| #[trigger] shape.has_edge(e) && own.contains(
            shape.links[e].0,
        ) implies own.contains(shape.links[e].1) by {
            lemma_reaches_on(shape, roots[k], e);
        }
    }
    assert forall|i: int| 0 <= i < head.len() implies g.has_node(#[trigger] head[i])
        && before.contains(head[i]) by {
        assert(head[i] == roots[i]);
        assert(g.has_node(roots[i]));
        lemma_reaches_itself(shape, roots[i]);
    }
    lemma_translate_roots_frame(g, answers, head, before);
    let later = translate_roots(g, answers, head).graph;
    lemma_reaches_itself(shape, roots[k]);
    assert(g.has_node(roots[k]));
    assert(alike(g, later, own)) by {
        assert forall|m: int| g.has_node(m) && own.contains(m) implies #[trigger] g.nodes[m]
            == later.nodes[m] by {
            if before.contains(m) {
                let j = choose|j: int| 0 <= j < k && shape.reaches(#[trigger] roots[j], m);
                assert(shape.reaches(roots[j], m) && shape.reaches(roots[k], m));
            }
        }
        assert forall|e: int|
            g.has_edge(e) && own.contains(g.edges[e].target) implies #[trigger] g.edges[e]
            == later.edges[e] by {
            let m = g.edges[e].target;
            if before.contains(m) {
                let j = choose|j: int| 0 <= j < k && shape.reaches(#[trigger] roots[j], m);
                assert(shape.reaches(roots[j], m) && shape.reaches(roots[k], m));
            }
        }
        assert forall|e: int| g.has_edge(e) && own.contains(g.edges[e].target) implies g.nodes[(
        #[trigger] g.edges[e]).source].visited == later.nodes[g.edges[e].source].visited by {
            let m = g.edges[e].target;
            let q = g.edges[e].source;
            assert(shape.has_edge(e));
            assert(shape.links[e] == (q, m));
            assert(g.has_node(q));
            if before.contains(q) {
                assert(before.contains(m));
                let j = choose|j: int| 0 <= j < k && shape.reaches(#[trigger] roots[j], m);
                assert(shape.reaches(roots[j], m) && shape.reaches(roots[k], m));
            }
        }
    }
    assert(end_in(g, Seq::<int>::empty(), own));
    lemma_translate_node_alike(g, later, answers, roots[k], Seq::empty(), own);
}

} // verus!
