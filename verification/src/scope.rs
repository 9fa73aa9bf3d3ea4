use vstd::prelude::*;
use crate::expression::{bound_names, BindingView, ExpressionView};
use crate::graph::{node_name, GraphView, NodeView};
use crate::consumption::{
    edges_of, lemma_process_child_consumes, lemma_translate_children_consumes, lemma_translate_node_consumes, nodes_of,
};
use crate::plan::{
    bind_targets, finish_query, fold_bindings, fold_result_scopes, lemma_follows_unvisited,
    lemma_mark_visited, plan, process_child_with_dependency, process_children, target_names,
    translate_children, translate_node, translate_query, translate_roots, with_projection,
    Answers, Outcome,
};
use crate::reach::{
    joined, lemma_child_pairs_joined, lemma_incoming_edges, lemma_roots_are_nodes,
    lemma_select_joined,
};

verus! {

/// The names in scope.
pub type Env = Set<Seq<char>>;

/// Whether each of `exprs` is scoped in `env`.
pub open spec fn all_scoped(exprs: Seq<ExpressionView>, env: Env) -> bool {
    forall|i: int| 0 <= i < exprs.len() ==> (#[trigger] exprs[i]).scoped(env)
}

/// Whether the source of each of `pairs` has its name in `env`.
pub open spec fn sources_in(g: GraphView, pairs: Seq<(int, int)>, env: Env) -> bool {
    forall|i: int|
        0 <= i < pairs.len() ==> env.contains(node_name(g.edges[(#[trigger] pairs[i]).0].source))
}

/// What a node gives is scoped in whatever is around it: it looks up no
/// name but those it binds itself.
pub proof fn lemma_translate_node_scoped(
    g: GraphView,
    answers: Answers,
    n: int,
    parents: Seq<int>,
    env: Env,
)
    requires
        g.well_formed(),
        g.has_node(n),
        edges_of(g, parents),
    ensures
        translate_node(g, answers, n, parents).result matches Ok(e) ==> e.scoped(env),
    decreases g.unvisited(), 1int, 0nat,
{
    match g.nodes[n].content {
        Some(NodeView::Query(_)) => {
            lemma_translate_query_scoped(g, answers, n, parents, env);
        },
        _ => {},
    }
}

/// Scoping, for a node that holds an operation.
pub proof fn lemma_translate_query_scoped(
    g: GraphView,
    answers: Answers,
    n: int,
    parents: Seq<int>,
    env: Env,
)
    requires
        g.well_formed(),
        g.has_node(n),
        edges_of(g, parents),
    ensures
        translate_query(g, answers, n, parents).result matches Ok(e) ==> e.scoped(env),
    decreases g.unvisited(), 0int, 0nat,
{
    if !g.nodes[n].visited {
        let marked = g.mark_visited(n);
        lemma_mark_visited(g, n);
        assert(marked.follows(g));
        let name = node_name(n);
        let below = if marked.is_result(n) {
            Outcome::<Seq<ExpressionView>> { graph: marked, result: Ok(Seq::empty()) }
        } else {
            process_children(marked, answers, n)
        };
        if let Ok(children) = below.result {
            if let Ok(e) = translate_query(g, answers, n, parents).result {
                let operation = below.graph.nodes[n].content->Some_0->Query_0;
                let applied = crate::plan::apply_dependencies(
                    below.graph.pluck_node(n),
                    operation,
                    parents,
                );
                let answer = answers(n, applied.result->Ok_0);
                assert(finish_query(name, answer, children) == Ok::<
                    ExpressionView,
                    crate::error::TranslateErrorView,
                >(e));
                if children.len() > 0 {
                    let query = answer->Ok_0;
                    let bindings = seq![BindingView { name, expr: ExpressionView::Query(query) }];
                    let inner = env.union(bound_names(bindings));
                    assert(bindings[0].name == name);
                    assert(inner.contains(name));
                    lemma_process_children_scoped(marked, answers, n, inner);
                    assert(ExpressionView::Sequence(children).scoped(inner));
                    assert(e == ExpressionView::Let {
                        bindings,
                        expr: Box::new(ExpressionView::Sequence(children)),
                    });
                    assert forall|i: int| 0 <= i < bindings.len() implies (#[trigger] bindings[i]).expr.scoped(
                        env.union(bound_names(bindings.take(i))),
                    ) by {}
                }
            }
        }
    }
}

/// Scoping, for the children of a node: they look up no name but that of the node and those they bind themselves.
pub proof fn lemma_process_children_scoped(g: GraphView, answers: Answers, n: int, env: Env)
    requires
        g.well_formed(),
        g.has_node(n),
        env.contains(node_name(n)),
    ensures
        process_children(g, answers, n).result matches Ok(exprs) ==> all_scoped(exprs, env),
    decreases g.unvisited(), 5int, 0nat,
{
    let pairs = g.child_pairs(n);
    lemma_child_pairs_joined(g, n, g.edges.len() as int);
    lemma_select_joined(g.shape(), pairs, false);
    lemma_select_joined(g.shape(), pairs, true);
    lemma_select_sources(g, pairs, n, false);
    lemma_select_sources(g, pairs, n, true);
    let lone = g.shape().select(pairs, false);
    let bearing = g.shape().select(pairs, true);
    assert(sources_in(g, lone, env));
    assert(sources_in(g, bearing, env));
    lemma_translate_children_scoped(g, answers, lone, env);
    lemma_translate_children_consumes(g, answers, lone);
    let effects = translate_children(g, answers, lone);
    lemma_follows_unvisited(effects.graph, g);
    if let Ok(exprs) = effects.result {
        if bearing.len() > 0 {
            assert(sources_in(effects.graph, bearing, env)) by {
                assert forall|i: int| 0 <= i < bearing.len() implies env.contains(
                    node_name(effects.graph.edges[(#[trigger] bearing[i]).0].source),
                ) by {
                    let e = bearing[i].0;
                    assert(g.shape().has_edge(e));
                    assert(effects.graph.shape().links[e] == g.shape().links[e]);
                }
            }
            lemma_fold_result_scopes_scoped(effects.graph, answers, bearing, env);
        }
    }
}

/// Each of the selected children of `n` leaves `n`.
pub proof fn lemma_select_sources(g: GraphView, pairs: Seq<(int, int)>, n: int, bearing: bool)
    requires
        g.well_formed(),
        pairs == g.child_pairs(n),
    ensures
        forall|i: int|
            0 <= i < g.shape().select(pairs, bearing).len() ==> g.edges[(#[trigger] g.shape().select(
                pairs,
                bearing,
            )[i]).0].source == n,
{
    lemma_child_pairs_joined(g, n, g.edges.len() as int);
    lemma_select_within(g, pairs, bearing);
    let chosen = g.shape().select(pairs, bearing);
    assert forall|i: int| 0 <= i < chosen.len() implies g.edges[(#[trigger] chosen[i]).0].source
        == n by {
        let j = choose|j: int| 0 <= j < pairs.len() && pairs[j] == chosen[i];
        assert(g.shape().has_edge(pairs[j].0));
        assert(g.shape().links[pairs[j].0].0 == n);
    }
}

/// Each selected pair is one of `pairs`.
proof fn lemma_select_within(g: GraphView, pairs: Seq<(int, int)>, bearing: bool)
    ensures
        forall|i: int|
            0 <= i < g.shape().select(pairs, bearing).len() ==> exists|j: int|
                0 <= j < pairs.len() && pairs[j] == #[trigger] g.shape().select(pairs, bearing)[i],
    decreases pairs.len(),
{
    if pairs.len() > 0 {
        let front = pairs.drop_last();
        lemma_select_within(g, front, bearing);
        let chosen = g.shape().select(pairs, bearing);
        let before = g.shape().select(front, bearing);
        assert forall|i: int| 0 <= i < chosen.len() implies exists|j: int|
            0 <= j < pairs.len() && pairs[j] == #[trigger] chosen[i] by {
            if i < before.len() {
                assert(chosen[i] == before[i]);
                let j = choose|j: int| 0 <= j < front.len() && front[j] == before[i];
                assert(pairs[j] == chosen[i]);
            } else {
                assert(pairs[pairs.len() - 1] == chosen[i]);
            }
        }
    }
}

/// Scoping, for a fold.
pub proof fn lemma_fold_result_scopes_scoped(
    g: GraphView,
    answers: Answers,
    pairs: Seq<(int, int)>,
    env: Env,
)
    requires
        g.well_formed(),
        joined(g.shape(), pairs),
        sources_in(g, pairs, env),
        pairs.len() > 0,
    ensures
        fold_result_scopes(g, answers, pairs).result matches Ok(e) ==> e.scoped(env),
    decreases g.unvisited(), 4int, 0nat,
{
    lemma_translate_children_consumes(g, answers, pairs);
    if let Ok(exprs) = translate_children(g, answers, pairs).result {
        let bindings = bind_targets(pairs, exprs);
        let names = target_names(pairs);
        let e = fold_bindings(pairs, exprs, g.results.len());
        assert forall|i: int| 0 <= i < bindings.len() implies (#[trigger] bindings[i]).expr.scoped(
            env.union(bound_names(bindings.take(i))),
        ) by {
            let wider = env.union(bound_names(bindings.take(i)));
            assert(sources_in(g, pairs, wider));
            lemma_translate_children_scoped(g, answers, pairs, wider);
            assert(exprs[i].scoped(wider));
        }
        let inner = env.union(bound_names(bindings));
        assert forall|i: int| 0 <= i < names.len() implies inner.contains(#[trigger] names[i]) by {
            assert(bindings[i].name == names[i]);
        }
        assert(inner.contains(names.last()));
        let body = if g.results.len() == 1 {
            ExpressionView::Get { name: names.last() }
        } else {
            ExpressionView::GetFirstNonEmpty { names }
        };
        assert(body.scoped(inner));
        assert(e == ExpressionView::Let { bindings, expr: Box::new(body) });
        assert(e.scoped(env));
    }
}

/// Scoping, for a list of children.
pub proof fn lemma_translate_children_scoped(
    g: GraphView,
    answers: Answers,
    pairs: Seq<(int, int)>,
    env: Env,
)
    requires
        g.well_formed(),
        joined(g.shape(), pairs),
        sources_in(g, pairs, env),
    ensures
        translate_children(g, answers, pairs).result matches Ok(exprs) ==> all_scoped(exprs, env),
    decreases g.unvisited(), 3int, pairs.len(),
{
    if pairs.len() > 0 {
        assert(g.shape().has_edge(pairs[0].0));
        lemma_process_child_consumes(g, answers, pairs[0].0, pairs[0].1);
        lemma_process_child_scoped(g, answers, pairs[0].0, pairs[0].1, env);
        let first = process_child_with_dependency(g, answers, pairs[0].0, pairs[0].1);
        lemma_follows_unvisited(first.graph, g);
        if let Ok(expr) = first.result {
            let rest = pairs.skip(1);
            assert(joined(first.graph.shape(), rest)) by {
                assert forall|i: int| 0 <= i < rest.len() implies g.shape().has_edge(
                    (#[trigger] rest[i]).0,
                ) && g.shape().links[rest[i].0].1 == rest[i].1 && g.shape().has_node(rest[i].1) by {
                    assert(rest[i] == pairs[i + 1]);
                }
            }
            assert(sources_in(first.graph, rest, env)) by {
                assert forall|i: int| 0 <= i < rest.len() implies env.contains(
                    node_name(first.graph.edges[(#[trigger] rest[i]).0].source),
                ) by {
                    assert(rest[i] == pairs[i + 1]);
                    let e = pairs[i + 1].0;
                    assert(g.shape().has_edge(e));
                    assert(first.graph.shape().links[e] == g.shape().links[e]);
                }
            }
            lemma_translate_children_scoped(first.graph, answers, rest, env);
            if let Ok(exprs) = translate_children(first.graph, answers, rest).result {
                let all = seq![expr] + exprs;
                assert forall|i: int| 0 <= i < all.len() implies (#[trigger] all[i]).scoped(env) by {
                    if i > 0 {
                        assert(all[i] == exprs[i - 1]);
                    }
                }
            }
        }
    }
}

/// Scoping, for one child: it looks up no name but that of the source of its edge and those it binds itself.
pub proof fn lemma_process_child_scoped(
    g: GraphView,
    answers: Answers,
    edge: int,
    child: int,
    env: Env,
)
    requires
        g.well_formed(),
        g.has_edge(edge),
        g.has_node(child),
        env.contains(node_name(g.edges[edge].source)),
    ensures
        process_child_with_dependency(g, answers, edge, child).result matches Ok(e) ==> e.scoped(
            env,
        ),
    decreases g.unvisited(), 2int, 0nat,
{
    let incoming = g.shape().incoming(child);
    lemma_incoming_edges(g.shape(), child, g.shape().links.len() as int);
    assert(edges_of(g, incoming)) by {
        assert forall|i: int| 0 <= i < incoming.len() implies g.has_edge(
            #[trigger] incoming[i],
        ) by {
            assert(g.shape().has_edge(incoming[i]));
        }
    }
    let source = node_name(g.edges[edge].source);
    if let Ok(field) = crate::plan::projected_field(g.edges[edge].content) {
        if let Ok(expr) = translate_node(g, answers, child, incoming).result {
            match field {
                None => {
                    lemma_translate_node_scoped(g, answers, child, incoming, env);
                },
                Some(f) => {
                    let bindings = seq![
                        BindingView {
                            name: source,
                            expr: ExpressionView::MapField {
                                field: f,
                                records: Box::new(ExpressionView::Get { name: source }),
                            },
                        },
                    ];
                    let inner = env.union(bound_names(bindings));
                    lemma_translate_node_scoped(g, answers, child, incoming, inner);
                    assert(with_projection(field, source, expr) == ExpressionView::Let {
                        bindings,
                        expr: Box::new(expr),
                    });
                    assert forall|i: int| 0 <= i < bindings.len() implies (#[trigger] bindings[i]).expr.scoped(
                        env.union(bound_names(bindings.take(i))),
                    ) by {
                        let around = env.union(bound_names(bindings.take(i)));
                        assert(around.contains(source));
                        let looked_up = ExpressionView::Get { name: source };
                        assert(looked_up.scoped(around));
                        let mapped = ExpressionView::MapField {
                            field: f,
                            records: Box::new(looked_up),
                        };
                        assert(mapped.scoped(around));
                        assert(bindings[i].expr == mapped);
                    }
                },
            }
        }
    }
}

/// Scoping, for a list of roots.
pub proof fn lemma_translate_roots_scoped(
    g: GraphView,
    answers: Answers,
    roots: Seq<int>,
    env: Env,
)
    requires
        g.well_formed(),
        nodes_of(g, roots),
    ensures
        translate_roots(g, answers, roots).result matches Ok(exprs) ==> all_scoped(exprs, env),
    decreases roots.len(),
{
    if roots.len() > 0 {
        assert(g.has_node(roots[0]));
        lemma_translate_node_consumes(g, answers, roots[0], Seq::empty());
        lemma_translate_node_scoped(g, answers, roots[0], Seq::empty(), env);
        let first = translate_node(g, answers, roots[0], Seq::empty());
        if let Ok(expr) = first.result {
            let rest = roots.skip(1);
            assert forall|i: int| 0 <= i < rest.len() implies first.graph.has_node(
                #[trigger] rest[i],
            ) by {
                assert(rest[i] == roots[i + 1]);
                assert(g.has_node(roots[i + 1]));
                assert(first.graph.shape().node_count == g.shape().node_count);
            }
            lemma_translate_roots_scoped(first.graph, answers, rest, env);
            if let Ok(exprs) = translate_roots(first.graph, answers, rest).result {
                let all = seq![expr] + exprs;
                assert forall|i: int| 0 <= i < all.len() implies (#[trigger] all[i]).scoped(env) by {
                    if i > 0 {
                        assert(all[i] == exprs[i - 1]);
                    }
                }
            }
        }
    }
}

/// Scoping: in the plan of a graph, every name that is looked up was bound
/// by a `Let` around the place, or by an earlier binding of the same `Let`.
pub proof fn lemma_plan_scoped(g: GraphView, answers: Answers)
    requires
        g.well_formed(),
    ensures
        plan(g, answers) matches Ok(e) ==> e.scoped(Set::empty()),
{
    lemma_roots_are_nodes(g.shape(), g.shape().node_count as int);
    assert(nodes_of(g, g.shape().roots())) by {
        assert forall|i: int| 0 <= i < g.shape().roots().len() implies g.has_node(
            #[trigger] g.shape().roots()[i],
        ) by {
            assert(g.shape().has_node(g.shape().roots()[i]));
        }
    }
    lemma_translate_roots_scoped(g, answers, g.shape().roots(), Set::empty());
}

} // verus!
