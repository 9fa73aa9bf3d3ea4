use vstd::prelude::*;
use crate::error::{TranslateErrorView, UnsupportedShape};
use crate::expression::{BindingView, DbQueryView, ExpressionView};
use crate::graph::{node_name, DependencyView, GraphView, NodeView};
use crate::query::{placeholder_record, QueryView};

verus! {

/// What a query builder answered for one operation.
pub type Answer = Result<DbQueryView, Seq<char>>;

/// What the query builder answers at each node, for each operation that
/// it may be handed there.
pub type Answers = spec_fn(int, QueryView) -> Answer;

/// An operation that the query builder was handed, and what it answered.
pub struct Exchange {
    pub query: QueryView,
    pub answer: Answer,
}

/// The exchanges with the query builder, by the node whose operation was
/// handed over.
pub type Log = Map<int, Exchange>;

/// A graph after a step of translation, and what the step produced.
pub struct Outcome<T> {
    pub graph: GraphView,
    pub result: Result<T, TranslateErrorView>,
}

impl GraphView {
    /// How many of the nodes below `upto` are not marked as visited.
    pub open spec fn unvisited_below(self, upto: int) -> nat
        decreases upto,
    {
        if upto <= 0 {
            0
        } else {
            self.unvisited_below(upto - 1) + if self.nodes[upto - 1].visited {
                0nat
            } else {
                1nat
            }
        }
    }

    /// How many nodes are not marked as visited.
    pub open spec fn unvisited(self) -> nat {
        self.unvisited_below(self.nodes.len() as int)
    }
}

proof fn lemma_mark_visited_below(g: GraphView, n: int, upto: int)
    requires
        g.has_node(n),
        !g.nodes[n].visited,
        0 <= upto <= g.nodes.len(),
    ensures
        g.mark_visited(n).unvisited_below(upto) == g.unvisited_below(upto) - if n < upto {
            1int
        } else {
            0int
        },
    decreases upto,
{
    if upto > 0 {
        lemma_mark_visited_below(g, n, upto - 1);
    }
}

/// Marking a node that was not visited leaves one unvisited node less.
pub proof fn lemma_mark_visited(g: GraphView, n: int)
    requires
        g.has_node(n),
        !g.nodes[n].visited,
    ensures
        g.mark_visited(n).unvisited() == g.unvisited() - 1,
{
    lemma_mark_visited_below(g, n, g.nodes.len() as int);
}

/// The storage name of the field that the edge projects for its target:
/// none where the edge carries no projection, an error where it selects no
/// field or more than one.
pub open spec fn projected_field(dependency: Option<DependencyView>) -> Result<
    Option<Seq<char>>,
    TranslateErrorView,
> {
    match dependency {
        Some(DependencyView::ProjectedDataDependency(selection, _)) => {
            if selection.len() == 1 {
                Ok(Some(selection[0].db_name))
            } else {
                Err(TranslateErrorView::Unsupported(UnsupportedShape::MultiFieldProjection))
            }
        },
        _ => Ok(None),
    }
}

/// The operation of `target` after it took up what the edge from `source`
/// carried.
pub open spec fn apply_dependency(
    query: QueryView,
    dependency: Option<DependencyView>,
    source: int,
    target: int,
) -> Result<QueryView, TranslateErrorView> {
    match dependency {
        None => Err(
            TranslateErrorView::EdgeContentEmpty {
                source: node_name(source),
                target: node_name(target),
            },
        ),
        Some(DependencyView::ExecutionOrder) => Ok(query),
        Some(DependencyView::ProjectedDataDependency(selection, rewrite)) => Ok(
            query.rewritten(rewrite, placeholder_record(selection, node_name(source))),
        ),
        Some(DependencyView::DataDependency) => Err(
            TranslateErrorView::Unsupported(UnsupportedShape::DataDependency),
        ),
        Some(DependencyView::Then) => Err(
            TranslateErrorView::Unsupported(UnsupportedShape::ThenBranch),
        ),
        Some(DependencyView::Else) => Err(
            TranslateErrorView::Unsupported(UnsupportedShape::ElseBranch),
        ),
    }
}

/// Plucks each of `edges` in turn and lets `query` take up what it carried.
/// Stops at the first edge that cannot be applied; that edge is plucked
/// too.
pub open spec fn apply_dependencies(g: GraphView, query: QueryView, edges: Seq<int>) -> Outcome<
    QueryView,
>
    decreases edges.len(),
{
    if edges.len() == 0 {
        Outcome { graph: g, result: Ok(query) }
    } else {
        let e = edges[0];
        match apply_dependency(query, g.edges[e].content, g.edges[e].source, g.edges[e].target) {
            Err(err) => Outcome { graph: g.pluck_edge(e), result: Err(err) },
            Ok(next) => apply_dependencies(g.pluck_edge(e), next, edges.skip(1)),
        }
    }
}

/// The expression for a node whose operation the query builder answered
/// with `answer`, and whose children gave `children`.
pub open spec fn finish_query(
    name: Seq<char>,
    answer: Answer,
    children: Seq<ExpressionView>,
) -> Result<ExpressionView, TranslateErrorView> {
    match answer {
        Err(message) => Err(TranslateErrorView::QueryBuildFailure(message)),
        Ok(query) => if children.len() == 0 {
            Ok(ExpressionView::Query(query))
        } else {
            Ok(
                ExpressionView::Let {
                    bindings: seq![BindingView { name, expr: ExpressionView::Query(query) }],
                    expr: Box::new(ExpressionView::Sequence(children)),
                },
            )
        },
    }
}

/// `expr`, after the value bound to `source` was replaced by the values of
/// `field` in its records, where there is a field.
pub open spec fn with_projection(
    field: Option<Seq<char>>,
    source: Seq<char>,
    expr: ExpressionView,
) -> ExpressionView {
    match field {
        None => expr,
        Some(field) => ExpressionView::Let {
            bindings: seq![
                BindingView {
                    name: source,
                    expr: ExpressionView::MapField {
                        field,
                        records: Box::new(ExpressionView::Get { name: source }),
                    },
                },
            ],
            expr: Box::new(expr),
        },
    }
}

/// The names of the targets of `pairs`.
pub open spec fn target_names(pairs: Seq<(int, int)>) -> Seq<Seq<char>> {
    Seq::new(pairs.len(), |i: int| node_name(pairs[i].1))
}

/// Each expression under the name of the target that gave it.
pub open spec fn bind_targets(pairs: Seq<(int, int)>, exprs: Seq<ExpressionView>) -> Seq<
    BindingView,
> {
    Seq::new(pairs.len(), |i: int| BindingView { name: node_name(pairs[i].1), expr: exprs[i] })
}

/// The one expression for the result-bearing children `pairs` of a node,
/// translated to `exprs`, in a graph with `result_count` result nodes.
pub open spec fn fold_bindings(
    pairs: Seq<(int, int)>,
    exprs: Seq<ExpressionView>,
    result_count: nat,
) -> ExpressionView {
    ExpressionView::Let {
        bindings: bind_targets(pairs, exprs),
        expr: Box::new(
            if result_count == 1 {
                ExpressionView::Get { name: target_names(pairs).last() }
            } else {
                ExpressionView::GetFirstNonEmpty { names: target_names(pairs) }
            },
        ),
    }
}

/// Translation of the node `n`, reached over the edges `parents`.
pub open spec fn translate_node(g: GraphView, answers: Answers, n: int, parents: Seq<int>) -> Outcome<
    ExpressionView,
>
    decreases g.unvisited(), 1int, 0nat,
{
    match g.nodes[n].content {
        None => Outcome {
            graph: g,
            result: Err(TranslateErrorView::NodeContentEmpty(node_name(n))),
        },
        Some(NodeView::Empty) => Outcome {
            graph: g,
            result: Ok(ExpressionView::Sequence(Seq::empty())),
        },
        Some(NodeView::Flow) => Outcome {
            graph: g,
            result: Err(TranslateErrorView::Unsupported(UnsupportedShape::FlowNode)),
        },
        Some(NodeView::Computation) => Outcome {
            graph: g,
            result: Err(TranslateErrorView::Unsupported(UnsupportedShape::ComputationNode)),
        },
        Some(NodeView::Query(_)) => translate_query(g, answers, n, parents),
    }
}

/// Translation of the node `n`, which holds an operation.
pub open spec fn translate_query(g: GraphView, answers: Answers, n: int, parents: Seq<int>) -> Outcome<
    ExpressionView,
>
    decreases g.unvisited(), 0int, 0nat,
{
    if !g.has_node(n) || g.nodes[n].visited {
        Outcome { graph: g, result: Err(TranslateErrorView::NodeRevisited(node_name(n))) }
    } else {
        let marked = g.mark_visited(n);
        let below = if marked.is_result(n) {
            Outcome { graph: marked, result: Ok(Seq::empty()) }
        } else {
            proof {
                lemma_mark_visited(g, n);
            }
            process_children(marked, answers, n)
        };
        match below.result {
            Err(e) => Outcome { graph: below.graph, result: Err(e) },
            Ok(children) => {
                let plucked = below.graph.pluck_node(n);
                match below.graph.nodes[n].content {
                    Some(NodeView::Query(query)) => {
                        let applied = apply_dependencies(plucked, query, parents);
                        match applied.result {
                            Err(e) => Outcome { graph: applied.graph, result: Err(e) },
                            Ok(finished) => Outcome {
                                graph: applied.graph,
                                result: finish_query(
                                    node_name(n),
                                    answers(n, finished),
                                    children,
                                ),
                            },
                        }
                    },
                    _ => Outcome {
                        graph: plucked,
                        result: Err(TranslateErrorView::NodeContentEmpty(node_name(n))),
                    },
                }
            },
        }
    }
}

/// Translation of the children of `n`: first those from which no result
/// can be reached, each an expression of its own, then one expression for
/// all the others.
///
/// The count of unvisited nodes is compared only to make the definition
/// well founded: no step of translation raises it, so in a well-formed
/// graph the others are always folded.
pub open spec fn process_children(g: GraphView, answers: Answers, n: int) -> Outcome<
    Seq<ExpressionView>,
>
    decreases g.unvisited(), 5int, 0nat,
{
    let pairs = g.child_pairs(n);
    let effects = translate_children(g, answers, g.shape().select(pairs, false));
    let results = g.shape().select(pairs, true);
    match effects.result {
        Err(e) => effects,
        Ok(exprs) => if results.len() == 0 || effects.graph.unvisited() > g.unvisited() {
            effects
        } else {
            let folded = fold_result_scopes(effects.graph, answers, results);
            match folded.result {
                Err(e) => Outcome { graph: folded.graph, result: Err(e) },
                Ok(expr) => Outcome { graph: folded.graph, result: Ok(exprs.push(expr)) },
            }
        },
    }
}

/// The one expression for the result-bearing children `pairs` of a node.
pub open spec fn fold_result_scopes(g: GraphView, answers: Answers, pairs: Seq<(int, int)>) -> Outcome<
    ExpressionView,
>
    decreases g.unvisited(), 4int, 0nat,
{
    let translated = translate_children(g, answers, pairs);
    match translated.result {
        Err(e) => Outcome { graph: translated.graph, result: Err(e) },
        Ok(exprs) => Outcome {
            graph: translated.graph,
            result: Ok(fold_bindings(pairs, exprs, g.results.len())),
        },
    }
}

/// Translation of each of `pairs` in turn, up to the first that fails.
///
/// The count of unvisited nodes is compared only to make the definition
/// well founded: no step of translation raises it, so in a well-formed
/// graph the list is walked to its end.
pub open spec fn translate_children(g: GraphView, answers: Answers, pairs: Seq<(int, int)>) -> Outcome<
    Seq<ExpressionView>,
>
    decreases g.unvisited(), 3int, pairs.len(),
{
    if pairs.len() == 0 {
        Outcome { graph: g, result: Ok(Seq::empty()) }
    } else {
        let first = process_child_with_dependency(g, answers, pairs[0].0, pairs[0].1);
        match first.result {
            Err(e) => Outcome { graph: first.graph, result: Err(e) },
            Ok(expr) => if first.graph.unvisited() > g.unvisited() {
                Outcome { graph: first.graph, result: Ok(seq![expr]) }
            } else {
                let rest = translate_children(first.graph, answers, pairs.skip(1));
                match rest.result {
                    Err(e) => rest,
                    Ok(exprs) => Outcome { graph: rest.graph, result: Ok(seq![expr] + exprs) },
                }
            },
        }
    }
}

/// Translation of `child`, reached over `edge`.
pub open spec fn process_child_with_dependency(
    g: GraphView,
    answers: Answers,
    edge: int,
    child: int,
) -> Outcome<ExpressionView>
    decreases g.unvisited(), 2int, 0nat,
{
    match projected_field(g.edges[edge].content) {
        Err(e) => Outcome { graph: g, result: Err(e) },
        Ok(field) => {
            let translated = translate_node(g, answers, child, g.shape().incoming(child));
            match translated.result {
                Err(e) => translated,
                Ok(expr) => Outcome {
                    graph: translated.graph,
                    result: Ok(with_projection(field, node_name(g.edges[edge].source), expr)),
                },
            }
        },
    }
}

/// Translation of each of `roots` in turn, up to the first that fails.
pub open spec fn translate_roots(g: GraphView, answers: Answers, roots: Seq<int>) -> Outcome<
    Seq<ExpressionView>,
>
    decreases roots.len(),
{
    if roots.len() == 0 {
        Outcome { graph: g, result: Ok(Seq::empty()) }
    } else {
        let first = translate_node(g, answers, roots[0], Seq::empty());
        match first.result {
            Err(e) => Outcome { graph: first.graph, result: Err(e) },
            Ok(expr) => {
                let rest = translate_roots(first.graph, answers, roots.skip(1));
                match rest.result {
                    Err(e) => rest,
                    Ok(exprs) => Outcome { graph: rest.graph, result: Ok(seq![expr] + exprs) },
                }
            },
        }
    }
}

/// The plan for a graph: the translations of its roots, in sequence.
pub open spec fn plan(g: GraphView, answers: Answers) -> Result<ExpressionView, TranslateErrorView> {
    match translate_roots(g, answers, g.shape().roots()).result {
        Err(e) => Err(e),
        Ok(exprs) => Ok(ExpressionView::Sequence(exprs)),
    }
}

impl GraphView {
    /// Whether `self` is a later state of the graph `before`: the same
    /// shape, and every node that was visited still is.
    pub open spec fn follows(self, before: GraphView) -> bool {
        &&& self.shape() == before.shape()
        &&& self.edges.len() == before.edges.len()
        &&& forall|n: int|
            before.has_node(n) && before.nodes[n].visited ==> #[trigger] self.nodes[n].visited
    }
}

proof fn lemma_follows_below(after: GraphView, before: GraphView, upto: int)
    requires
        after.follows(before),
        0 <= upto <= before.nodes.len(),
    ensures
        after.unvisited_below(upto) <= before.unvisited_below(upto),
    decreases upto,
{
    if upto > 0 {
        lemma_follows_below(after, before, upto - 1);
        assert(before.has_node(upto - 1));
    }
}

/// A later state has no more unvisited nodes than an earlier one.
pub proof fn lemma_follows_unvisited(after: GraphView, before: GraphView)
    requires
        after.follows(before),
    ensures
        after.unvisited() <= before.unvisited(),
{
    assert(after.shape().node_count == before.shape().node_count);
    lemma_follows_below(after, before, before.nodes.len() as int);
}

/// Marking a node and plucking it give later states of the same graph.
pub proof fn lemma_node_steps_follow(g: GraphView, n: int)
    requires
        g.has_node(n),
    ensures
        g.mark_visited(n).follows(g),
        g.pluck_node(n).follows(g),
{
}

/// Plucking an edge gives a later state of the same graph.
pub proof fn lemma_pluck_edge_follows(g: GraphView, e: int)
    requires
        g.has_edge(e),
    ensures
        g.pluck_edge(e).follows(g),
{
    assert(g.pluck_edge(e).shape().links =~= g.shape().links);
}

/// Whether `answers` holds, for each node that `log` names, the answer
/// that `log` has for it.
pub open spec fn agrees(answers: Answers, log: Log) -> bool {
    forall|n: int| #[trigger] log.dom().contains(n) ==> answers(n, log[n].query) == log[n].answer
}

/// Whether each node that `log` names was visited between `before` and
/// `after`.
pub open spec fn fresh(log: Log, before: GraphView, after: GraphView) -> bool {
    forall|n: int| #[trigger]
        log.dom().contains(n) ==> before.has_node(n) && !before.nodes[n].visited
            && after.nodes[n].visited
}

/// The answers of two steps, one after the other, can be read as one log.
pub proof fn lemma_merge_logs(
    first: Log,
    second: Log,
    g0: GraphView,
    g1: GraphView,
    g2: GraphView,
)
    requires
        g1.follows(g0),
        g2.follows(g1),
        fresh(first, g0, g1),
        fresh(second, g1, g2),
    ensures
        g2.follows(g0),
        fresh(first.union_prefer_right(second), g0, g2),
        forall|answers: Answers| #[trigger]
            agrees(answers, first.union_prefer_right(second)) ==> agrees(answers, first)
                && agrees(answers, second),
{
    let both = first.union_prefer_right(second);
    assert(g2.shape().node_count == g0.shape().node_count);
    assert(g1.shape().node_count == g0.shape().node_count);
    assert forall|n: int| #[trigger] both.dom().contains(n) implies g0.has_node(n)
        && !g0.nodes[n].visited && g2.nodes[n].visited by {
        if second.dom().contains(n) {
            assert(!g1.nodes[n].visited);
            assert(g0.has_node(n));
            if g0.nodes[n].visited {
                assert(g1.nodes[n].visited);
            }
        } else {
            assert(first.dom().contains(n));
            assert(g1.has_node(n));
            assert(g2.nodes[n].visited);
        }
    }
    assert forall|answers: Answers| #[trigger] agrees(answers, both) implies agrees(answers, first)
        && agrees(answers, second) by {
        assert forall|n: int| #[trigger] first.dom().contains(n) implies answers(n, first[n].query)
            == first[n].answer by {
            assert(both.dom().contains(n));
            if second.dom().contains(n) {
                assert(g1.nodes[n].visited);
                assert(false);
            }
        }
        assert forall|n: int| #[trigger] second.dom().contains(n) implies answers(
            n,
            second[n].query,
        ) == second[n].answer by {
            assert(both.dom().contains(n));
        }
    }
}

/// An outcome whose list of expressions has `prefix` in front.
pub open spec fn after_prefix(
    prefix: Seq<ExpressionView>,
    outcome: Outcome<Seq<ExpressionView>>,
) -> Outcome<Seq<ExpressionView>> {
    Outcome {
        graph: outcome.graph,
        result: match outcome.result {
            Ok(exprs) => Ok(prefix + exprs),
            Err(e) => Err(e),
        },
    }
}

} // verus!
