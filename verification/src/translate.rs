use vstd::prelude::*;
use crate::coverage::{acyclic, lemma_plan_holds_each_node_once, plain, untouched};
use crate::failure::{fit, lemma_failure_names_empty_node, named, willing};
use crate::error::{TranslateError, TranslateErrorView, UnsupportedShape};
use crate::expression::{
    bindings_view, exprs_view, names_view, Binding, DbQuery, DbQueryView, Expression,
    ExpressionView,
};
use crate::graph::{
    edge_indices, node_indices, pair_indices, DependencyView, EdgeRef, GraphView, Node, NodeRef,
    QueryGraph, QueryGraphDependency,
};
use crate::plan::{
    after_prefix, agrees, apply_dependencies, apply_dependency, bind_targets, finish_query,
    fold_bindings, fresh, lemma_follows_unvisited, lemma_mark_visited, lemma_merge_logs,
    lemma_node_steps_follow, lemma_pluck_edge_follows, plan, process_child_with_dependency,
    process_children, projected_field, target_names, translate_children, translate_node, translate_query, translate_roots,
    with_projection, Answer, Answers, Exchange, Log, Outcome,
};
use crate::reach::{
    joined, lemma_child_pairs_joined, lemma_incoming_edges, lemma_incoming_targets,
    lemma_roots_are_nodes, lemma_select_joined,
};
use crate::consumption::{
    lemma_apply_dependencies_empties, lemma_consumed_chain, lemma_touched_chain,
    lemma_translate_node_consumes, lemma_translate_node_plucks_at_target, touched_only,
};
use crate::plan::fold_result_scopes as fold_scopes;
use crate::query::{placeholder_fields, Query, QueryView};
use crate::scope::{lemma_plan_scoped, lemma_translate_node_scoped};

verus! {

/// Turns one finished operation into a statement for the data store.
pub trait QueryBuilder {
    /// Whether the builder may give `answer` when it is handed `query`.  A
    /// builder that promises nothing may give any answer.
    open spec fn may_answer(&self, query: QueryView, answer: Answer) -> bool {
        true
    }

    fn build(&self, query: Query) -> (built: Result<DbQuery, String>)
        ensures
            self.may_answer(query@, answer_view(built)),
    ;
}

/// The view of what a query builder answered.
pub open spec fn answer_view(built: Result<DbQuery, String>) -> Answer {
    match built {
        Ok(query) => Ok(query@),
        Err(message) => Err(message@),
    }
}

/// Whether each answer in `log` is one that `builder` may give for the
/// operation it was handed.
pub open spec fn answered_by<B: QueryBuilder + ?Sized>(builder: &B, log: Log) -> bool {
    forall|n: int| #[trigger]
        log.dom().contains(n) ==> builder.may_answer(log[n].query, log[n].answer)
}

/// Whether the builder accepted every operation that `log` holds.
pub open spec fn accepted(log: Log) -> bool {
    forall|n: int| #[trigger] log.dom().contains(n) ==> log[n].answer is Ok
}

/// The view of a field's name, where there is one.
pub open spec fn field_view(field: Option<String>) -> Option<Seq<char>> {
    match field {
        Some(f) => Some(f@),
        None => None,
    }
}

/// The view of what an edge carried, where it carried anything.
pub open spec fn carried_view(dependency: Option<QueryGraphDependency>) -> Option<
    DependencyView,
> {
    match dependency {
        Some(d) => Some(d@),
        None => None,
    }
}

/// The view of what applying dependencies returned.
pub open spec fn query_result_view(r: Result<Query, TranslateError>) -> Result<
    QueryView,
    TranslateErrorView,
> {
    match r {
        Ok(q) => Ok(q@),
        Err(e) => Err(e@),
    }
}

/// The view of what a step of translation returned.
pub open spec fn result_view(r: Result<Expression, TranslateError>) -> Result<
    ExpressionView,
    TranslateErrorView,
> {
    match r {
        Ok(e) => Ok(e@),
        Err(e) => Err(e@),
    }
}

/// The view of what a step that returns a list of expressions returned.
pub open spec fn results_view(r: Result<Vec<Expression>, TranslateError>) -> Result<
    Seq<ExpressionView>,
    TranslateErrorView,
> {
    match r {
        Ok(items) => Ok(exprs_view(items@)),
        Err(e) => Err(e@),
    }
}

/// Lets `query`, the operation of `target`, take up what the edge from
/// `source` carried.
pub fn apply_edge(
    query: Query,
    dependency: Option<QueryGraphDependency>,
    source: &NodeRef,
    target: &NodeRef,
) -> (r: Result<Query, TranslateError>)
    ensures
        query_result_view(r) == apply_dependency(
            query@,
            carried_view(dependency),
            source.ix as int,
            target.ix as int,
        ),
{
    match dependency {
        None => Err(TranslateError::EdgeContentEmpty { source: source.id(), target: target.id() }),
        Some(QueryGraphDependency::ExecutionOrder) => Ok(query),
        Some(QueryGraphDependency::ProjectedDataDependency(selection, rewrite)) => {
            let name = source.id();
            let record = placeholder_fields(&selection, &name);
            Ok(query.rewrite(rewrite, record))
        },
        Some(QueryGraphDependency::DataDependency) => Err(
            TranslateError::Unsupported(UnsupportedShape::DataDependency),
        ),
        Some(QueryGraphDependency::Then) => Err(
            TranslateError::Unsupported(UnsupportedShape::ThenBranch),
        ),
        Some(QueryGraphDependency::Else) => Err(
            TranslateError::Unsupported(UnsupportedShape::ElseBranch),
        ),
    }
}

/// Plucks each of `edges` in turn and lets `query` take up what it carried.
pub fn apply_edges(graph: &mut QueryGraph, query: Query, edges: &[EdgeRef]) -> (r: Result<
    Query,
    TranslateError,
>)
    requires
        forall|i: int| 0 <= i < edges@.len() ==> old(graph)@.has_edge(#[trigger] edges@[i].ix as int),
    ensures
        final(graph)@.follows(old(graph)@),
        final(graph)@.nodes == old(graph)@.nodes,
        apply_dependencies(old(graph)@, query@, edge_indices(edges@)) == (Outcome {
            graph: final(graph)@,
            result: query_result_view(r),
        }),
{
    let ghost start = query@;
    let mut current = query;
    let mut i: usize = 0;
    let ghost all = edge_indices(edges@);
    proof {
        assert(all.skip(0) =~= all);
    }
    while i < edges.len()
        invariant
            i <= edges@.len(),
            all == edge_indices(edges@),
            forall|j: int| 0 <= j < edges@.len() ==> old(graph)@.has_edge(#[trigger] edges@[j].ix as int),
            graph@.follows(old(graph)@),
            graph@.nodes == old(graph)@.nodes,
            start == query@,
            apply_dependencies(old(graph)@, start, all) == apply_dependencies(
                graph@,
                current@,
                all.skip(i as int),
            ),
        decreases edges@.len() - i,
    {
        let edge = edges[i];
        let ghost before = graph@;
        let ghost rest = all.skip(i as int);
        assert(rest[0] == edge.ix as int);
        assert(rest.skip(1) =~= all.skip(i + 1));
        assert(old(graph)@.has_edge(edges@[i as int].ix as int));
        let source = graph.edge_source(&edge);
        let target = graph.edge_target(&edge);
        let dependency = graph.pluck_edge(&edge);
        proof {
            lemma_pluck_edge_follows(before, edge.ix as int);
        }
        let ghost taken = current@;
        let ghost carried = before.edges[edge.ix as int].content;
        assert(carried == carried_view(dependency));
        let applied = apply_edge(current, dependency, &source, &target);
        assert(apply_dependencies(before, taken, rest) == match apply_dependency(
            taken,
            carried,
            source.ix as int,
            target.ix as int,
        ) {
            Err(err) => Outcome { graph: graph@, result: Err(err) },
            Ok(next) => apply_dependencies(graph@, next, rest.skip(1)),
        });
        match applied {
            Err(e) => {
                return Err(e);
            },
            Ok(next) => {
                current = next;
            },
        }
        i += 1;
    }
    Ok(current)
}

/// The expression for the node named `name`, given what the query builder
/// answered for its operation and what its children gave.
pub fn finish(name: String, built: Result<DbQuery, String>, children: Vec<Expression>) -> (r:
    Result<Expression, TranslateError>)
    ensures
        result_view(r) == finish_query(name@, answer_view(built), exprs_view(children@)),
{
    match built {
        Err(message) => Err(TranslateError::QueryBuildFailure(message)),
        Ok(query) => {
            let leaf = Expression::query(query);
            if children.len() == 0 {
                Ok(leaf)
            } else {
                let mut bindings: Vec<Binding> = Vec::new();
                bindings.push(Binding::new(name, leaf));
                let body = Expression::sequence(children);
                let e = Expression::let_in(bindings, body);
                assert(bindings_view(bindings@) =~= seq![bindings@[0]@]);
                Ok(e)
            }
        },
    }
}

/// Wraps `expr` so that, where there is a `field`, the name `source` stands
/// for the values of that field in the records it was bound to.
pub fn project(field: Option<String>, source: String, expr: Expression) -> (r: Expression)
    ensures
        r@ == with_projection(field_view(field), source@, expr@),
{
    match field {
        None => expr,
        Some(field) => {
            let records = Expression::get(source.clone());
            let mapped = Expression::map_field(field, records);
            let mut bindings: Vec<Binding> = Vec::new();
            bindings.push(Binding::new(source, mapped));
            let e = Expression::let_in(bindings, expr);
            assert(bindings_view(bindings@) =~= seq![bindings@[0]@]);
            e
        },
    }
}

/// The one expression for the result-bearing children `pairs` of a node,
/// translated to `exprs`, in a graph with `result_count` result nodes.
pub fn fold(pairs: &Vec<(EdgeRef, NodeRef)>, exprs: Vec<Expression>, result_count: usize) -> (e:
    Expression)
    requires
        pairs@.len() > 0,
        exprs@.len() == pairs@.len(),
    ensures
        e@ == fold_bindings(pair_indices(pairs@), exprs_view(exprs@), result_count as nat),
{
    let ghost given = exprs_view(exprs@);
    let ghost targets = pair_indices(pairs@);
    let n = pairs.len();
    let mut exprs = exprs;
    let mut reversed: Vec<Expression> = Vec::new();
    while exprs.len() > 0
        invariant
            exprs@.len() + reversed@.len() == n,
            n == given.len(),
            forall|k: int| 0 <= k < exprs@.len() ==> exprs@[k]@ == given[k],
            forall|k: int| 0 <= k < reversed@.len() ==> reversed@[k]@ == given[n - 1 - k],
        decreases exprs@.len(),
    {
        let e = exprs.pop().unwrap();
        reversed.push(e);
    }
    let mut bindings: Vec<Binding> = Vec::new();
    let mut names: Vec<String> = Vec::new();
    while reversed.len() > 0
        invariant
            n == pairs@.len(),
            n == given.len(),
            targets == pair_indices(pairs@),
            bindings@.len() + reversed@.len() == n,
            names@.len() == bindings@.len(),
            forall|k: int| 0 <= k < reversed@.len() ==> reversed@[k]@ == given[n - 1 - k],
            forall|k: int|
                0 <= k < bindings@.len() ==> bindings@[k]@ == bind_targets(targets, given)[k],
            forall|k: int| 0 <= k < names@.len() ==> names@[k]@ == target_names(targets)[k],
        decreases reversed@.len(),
    {
        let i = bindings.len();
        let e = reversed.pop().unwrap();
        let name = pairs[i].1.id();
        names.push(name.clone());
        bindings.push(Binding::new(name, e));
    }
    assert(bindings_view(bindings@) =~= bind_targets(targets, given));
    assert(names_view(names@) =~= target_names(targets));
    let body = if result_count == 1 {
        let last = names.pop().unwrap();
        Expression::get(last)
    } else {
        Expression::get_first_non_empty(names)
    };
    Expression::let_in(bindings, body)
}

/// Translates one node of a graph.
pub struct NodeTranslator<'b, B: QueryBuilder + ?Sized> {
    /// The node to translate.
    pub node: NodeRef,
    /// The edges over which the node was reached; none for a root.
    pub parent_edges: &'b [EdgeRef],
    pub query_builder: &'b B,
}

impl<'b, B: QueryBuilder + ?Sized> NodeTranslator<'b, B> {
    /// A translator for `node`, reached over `parent_edges`.
    pub fn new(node: NodeRef, parent_edges: &'b [EdgeRef], query_builder: &'b B) -> (t: Self)
        ensures
            t.node == node,
            t.parent_edges@ == parent_edges@,
            t.query_builder == query_builder,
    {
        NodeTranslator { node, parent_edges, query_builder }
    }

    /// Whether the node is one of `g`, and the edges are edges of `g` that
    /// end in the node.
    pub open spec fn fits(&self, g: GraphView) -> bool {
        &&& g.has_node(self.node.ix as int)
        &&& forall|i: int|
            0 <= i < self.parent_edges@.len() ==> g.has_edge(
                #[trigger] self.parent_edges@[i].ix as int,
            ) && g.edges[self.parent_edges@[i].ix as int].target == self.node.ix
    }

    /// Translates the node.  Returned with the expression is what the
    /// query builder answered for each node it was asked about.
    pub fn translate(&self, graph: &mut QueryGraph) -> (out: (
        Result<Expression, TranslateError>,
        Ghost<Log>,
    ))
        requires
            old(graph)@.well_formed(),
            self.fits(old(graph)@),
        ensures
            final(graph)@.follows(old(graph)@),
            fresh(out.1@, old(graph)@, final(graph)@),
            answered_by(self.query_builder, out.1@),
            accepted(out.1@) || out.0 matches Err(TranslateError::QueryBuildFailure(_)),
            forall|answers: Answers|
                agrees(answers, out.1@) ==> #[trigger] translate_node(
                    old(graph)@,
                    answers,
                    self.node.ix as int,
                    edge_indices(self.parent_edges@),
                ) == (Outcome { graph: final(graph)@, result: result_view(out.0) }),
            final(graph)@.consumed_from(old(graph)@),
            touched_only(old(graph)@, final(graph)@),
            out.0 matches Ok(e) ==> e@.scoped(Set::empty()),
        decreases old(graph)@.unvisited(), 1int, 0nat,
    {
        let ghost g0 = graph@;
        let ghost n = self.node.ix as int;
        let ghost parents = edge_indices(self.parent_edges@);
        let settled = match graph.node_content(&self.node) {
            None => Some(Err(TranslateError::NodeContentEmpty(self.node.id()))),
            Some(Node::Empty) => {
                let items: Vec<Expression> = Vec::new();
                assert(exprs_view(items@) =~= Seq::empty());
                Some(Ok(Expression::sequence(items)))
            },
            Some(Node::Flow) => Some(
                Err(TranslateError::Unsupported(UnsupportedShape::FlowNode)),
            ),
            Some(Node::Computation) => Some(
                Err(TranslateError::Unsupported(UnsupportedShape::ComputationNode)),
            ),
            Some(Node::Query(_)) => None,
        };
        let out = match settled {
            Some(r) => {
                proof {
                    assert forall|answers: Answers| true implies #[trigger] translate_node(
                        g0,
                        answers,
                        n,
                        parents,
                    ) == (Outcome { graph: g0, result: result_view(r) }) by {}
                }
                (r, Ghost(Map::empty()))
            },
            None => {
                let out = self.translate_query(graph);
                proof {
                    assert forall|answers: Answers| agrees(answers, out.1@) implies #[trigger] translate_node(
                        g0,
                        answers,
                        n,
                        parents,
                    ) == (Outcome { graph: graph@, result: result_view(out.0) }) by {
                        let inner = translate_query(g0, answers, n, parents);
                        assert(inner == Outcome { graph: graph@, result: result_view(out.0) });
                    }
                }
                out
            },
        };
        proof {
            let answers = answers_of(out.1@);
            assert(agrees(answers, out.1@));
            assert(translate_node(g0, answers, n, parents).graph == graph@);
            assert forall|i: int| 0 <= i < parents.len() implies g0.has_edge(
                #[trigger] parents[i],
            ) && g0.edges[parents[i]].target == n by {
                assert(parents[i] == self.parent_edges@[i].ix as int);
            }
            lemma_translate_node_consumes(g0, answers, n, parents);
            lemma_translate_node_plucks_at_target(g0, answers, n, parents);
            lemma_translate_node_scoped(g0, answers, n, parents, Set::empty());
        }
        out
    }


    /// Translates the node, which holds an operation: its children first,
    /// then the operation itself, after it took up what the parent edges
    /// carried.
    pub fn translate_query(&self, graph: &mut QueryGraph) -> (out: (
        Result<Expression, TranslateError>,
        Ghost<Log>,
    ))
        requires
            old(graph)@.well_formed(),
            self.fits(old(graph)@),
        ensures
            final(graph)@.follows(old(graph)@),
            fresh(out.1@, old(graph)@, final(graph)@),
            answered_by(self.query_builder, out.1@),
            accepted(out.1@) || out.0 matches Err(TranslateError::QueryBuildFailure(_)),
            forall|answers: Answers|
                agrees(answers, out.1@) ==> #[trigger] translate_query(
                    old(graph)@,
                    answers,
                    self.node.ix as int,
                    edge_indices(self.parent_edges@),
                ) == (Outcome { graph: final(graph)@, result: result_view(out.0) }),
            final(graph)@.nodes[self.node.ix as int].visited,
            out.0 is Ok ==> final(graph)@.nodes[self.node.ix as int].content is None
                && forall|i: int|
                0 <= i < self.parent_edges@.len() ==> final(graph)@.edges[
                #[trigger] self.parent_edges@[i].ix as int].content is None,
        decreases old(graph)@.unvisited(), 0int, 0nat,
    {
        let ghost g0 = graph@;
        let ghost n = self.node.ix as int;
        let ghost parents = edge_indices(self.parent_edges@);
        proof {
            lemma_node_steps_follow(g0, n);
        }
        if graph.is_visited(&self.node) {
            let r = Err(TranslateError::NodeRevisited(self.node.id()));
            proof {
                assert forall|answers: Answers| true implies #[trigger] translate_query(
                    g0,
                    answers,
                    n,
                    parents,
                ) == (Outcome { graph: g0, result: result_view(r) }) by {}
            }
            return (r, Ghost(Map::empty()));
        }
        graph.mark_visited(&self.node);
        let ghost g1 = graph@;
        proof {
            lemma_mark_visited(g0, n);
        }
        let mut children: Vec<Expression> = Vec::new();
        let ghost mut log: Log = Map::empty();
        let is_result = graph.is_result_node(&self.node);
        if !is_result {
            let (r, Ghost(l)) = self.process_children(graph);
            proof {
                log = l;
                assert(graph@.follows(g0));
                assert(fresh(log, g0, graph@)) by {
                    assert forall|m: int| #[trigger] log.dom().contains(m) implies g0.has_node(m)
                        && !g0.nodes[m].visited && graph@.nodes[m].visited by {
                        assert(!g1.nodes[m].visited);
                    }
                }
            }
            match r {
                Err(e) => {
                    proof {
                        assert forall|answers: Answers| agrees(answers, log) implies #[trigger] translate_query(
                            g0,
                            answers,
                            n,
                            parents,
                        ) == (Outcome { graph: graph@, result: Err::<ExpressionView, _>(e@) }) by {
                            let below = process_children(g1, answers, n);
                            assert(below == Outcome { graph: graph@, result: results_view(r) });
                        }
                    }
                    return (Err(e), Ghost(log));
                },
                Ok(c) => {
                    children = c;
                },
            }
        } else {
            assert(exprs_view(children@) =~= Seq::empty());
        }
        let ghost g2 = graph@;
        let ghost kids = exprs_view(children@);
        assert(g2.follows(g0));
        assert(g2.nodes[n].visited);
        assert(!log.dom().contains(n));
        proof {
            assert forall|answers: Answers| agrees(answers, log) implies (if g1.is_result(n) {
                Outcome { graph: g1, result: Ok::<_, TranslateErrorView>(Seq::<ExpressionView>::empty()) }
            } else {
                process_children(g1, answers, n)
            }) == (Outcome { graph: g2, result: Ok::<_, TranslateErrorView>(kids) }) by {
                if !g1.is_result(n) {
                    let below = process_children(g1, answers, n);
                    assert(below == Outcome { graph: g2, result: Ok::<_, TranslateErrorView>(kids) });
                }
            }
        }
        let content = graph.pluck_node(&self.node);
        let ghost g3 = graph@;
        proof {
            lemma_node_steps_follow(g2, n);
        }
        let query = match content {
            Some(Node::Query(q)) => q,
            _ => {
                let r = Err(TranslateError::NodeContentEmpty(self.node.id()));
                proof {
                    assert forall|answers: Answers| agrees(answers, log) implies #[trigger] translate_query(
                        g0,
                        answers,
                        n,
                        parents,
                    ) == (Outcome { graph: g3, result: result_view(r) }) by {
                        let below = if g1.is_result(n) {
                            Outcome {
                                graph: g1,
                                result: Ok::<_, TranslateErrorView>(Seq::<ExpressionView>::empty()),
                            }
                        } else {
                            process_children(g1, answers, n)
                        };
                        assert(below == Outcome { graph: g2, result: Ok::<_, TranslateErrorView>(kids) });
                    }
                }
                return (r, Ghost(log));
            },
        };
        let ghost taken = query@;
        let applied = apply_edges(graph, query, self.parent_edges);
        let ghost g4 = graph@;
        assert(g4.follows(g0));
        assert(fresh(log, g0, g4));
        match applied {
            Err(e) => {
                proof {
                    assert forall|answers: Answers| agrees(answers, log) implies #[trigger] translate_query(
                        g0,
                        answers,
                        n,
                        parents,
                    ) == (Outcome { graph: g4, result: Err::<ExpressionView, _>(e@) }) by {
                        let below = if g1.is_result(n) {
                            Outcome {
                                graph: g1,
                                result: Ok::<_, TranslateErrorView>(Seq::<ExpressionView>::empty()),
                            }
                        } else {
                            process_children(g1, answers, n)
                        };
                        assert(below == Outcome { graph: g2, result: Ok::<_, TranslateErrorView>(kids) });
                        assert(apply_dependencies(g3, taken, parents).graph == g4);
                    }
                }
                (Err(e), Ghost(log))
            },
            Ok(query) => {
                let ghost handed = query@;
                let built = self.query_builder.build(query);
                let ghost answer = answer_view(built);
                let r = finish(self.node.id(), built, children);
                let ghost full = log.insert(n, Exchange { query: handed, answer });
                proof {
                    assert forall|i: int| 0 <= i < parents.len() implies g3.has_edge(
                        #[trigger] parents[i],
                    ) by {
                        assert(parents[i] == self.parent_edges@[i].ix as int);
                    }
                    lemma_apply_dependencies_empties(g3, taken, parents);
                    assert forall|i: int| 0 <= i < self.parent_edges@.len() implies g4.edges[
                    #[trigger] self.parent_edges@[i].ix as int].content is None by {
                        assert(parents[i] == self.parent_edges@[i].ix as int);
                    }
                    assert forall|answers: Answers| agrees(answers, full) implies #[trigger] translate_query(
                        g0,
                        answers,
                        n,
                        parents,
                    ) == (Outcome { graph: g4, result: result_view(r) }) by {
                        assert(full.dom().contains(n));
                        assert(answers(n, handed) == answer);
                        assert forall|m: int| #[trigger] log.dom().contains(m) implies answers(
                            m,
                            log[m].query,
                        ) == log[m].answer by {
                            assert(full.dom().contains(m));
                        }
                        assert(agrees(answers, log));
                        let below = if g1.is_result(n) {
                            Outcome {
                                graph: g1,
                                result: Ok::<_, TranslateErrorView>(Seq::<ExpressionView>::empty()),
                            }
                        } else {
                            process_children(g1, answers, n)
                        };
                        assert(below == Outcome { graph: g2, result: Ok::<_, TranslateErrorView>(kids) });
                        assert(apply_dependencies(g3, taken, parents).graph == g4);
                    }
                    assert(fresh(full, g0, g4)) by {
                        assert forall|m: int| #[trigger] full.dom().contains(m) implies g0.has_node(m)
                            && !g0.nodes[m].visited && g4.nodes[m].visited by {
                            if m != n {
                                assert(log.dom().contains(m));
                            } else {
                                assert(g1.nodes[n].visited);
                            }
                        }
                    }
                }
                (r, Ghost(full))
            },
        }
    }

    /// Translates the children of the node: first those from which no
    /// result can be reached, in their order, then one expression for all
    /// the others.
    pub fn process_children(&self, graph: &mut QueryGraph) -> (out: (
        Result<Vec<Expression>, TranslateError>,
        Ghost<Log>,
    ))
        requires
            old(graph)@.well_formed(),
            old(graph)@.has_node(self.node.ix as int),
        ensures
            final(graph)@.follows(old(graph)@),
            fresh(out.1@, old(graph)@, final(graph)@),
            answered_by(self.query_builder, out.1@),
            accepted(out.1@) || out.0 matches Err(TranslateError::QueryBuildFailure(_)),
            forall|answers: Answers|
                agrees(answers, out.1@) ==> #[trigger] process_children(
                    old(graph)@,
                    answers,
                    self.node.ix as int,
                ) == (Outcome { graph: final(graph)@, result: results_view(out.0) }),
        decreases old(graph)@.unvisited(), 5int, 0nat,
    {
        let ghost g0 = graph@;
        let ghost n = self.node.ix as int;
        let child_pairs = graph.direct_child_pairs(&self.node);
        proof {
            lemma_child_pairs_joined(g0, n, g0.edges.len() as int);
            lemma_select_joined(g0.shape(), pair_indices(child_pairs@), false);
            lemma_select_joined(g0.shape(), pair_indices(child_pairs@), true);
            assert forall|i: int| 0 <= i < child_pairs@.len() implies g0.has_node(
                #[trigger] child_pairs@[i].1.ix as int,
            ) by {
                assert(pair_indices(child_pairs@)[i].1 == child_pairs@[i].1.ix as int);
            }
        }
        let (effects, result_subgraphs) = graph.partition_children(&child_pairs);
        let (r, Ghost(log1)) = self.translate_children(graph, &effects);
        let ghost g1 = graph@;
        proof {
            lemma_follows_unvisited(g1, g0);
        }
        let ghost pairs = g0.child_pairs(n);
        let ghost lone = g0.shape().select(pairs, false);
        let ghost bearing = g0.shape().select(pairs, true);
        match r {
            Err(e) => {
                proof {
                    assert forall|answers: Answers| agrees(answers, log1) implies #[trigger] process_children(
                        g0,
                        answers,
                        n,
                    ) == (Outcome { graph: g1, result: Err::<Seq<ExpressionView>, _>(e@) }) by {
                        let first = translate_children(g0, answers, lone);
                        assert(first == Outcome { graph: g1, result: results_view(r) });
                    }
                }
                (Err(e), Ghost(log1))
            },
            Ok(expressions) => {
                let ghost before = exprs_view(expressions@);
                if result_subgraphs.len() > 0 {
                    let mut expressions = expressions;
                    let (folded, Ghost(log2)) = self.fold_result_scopes(graph, result_subgraphs);
                    let ghost g2 = graph@;
                    let ghost both = log1.union_prefer_right(log2);
                    proof {
                        lemma_merge_logs(log1, log2, g0, g1, g2);
                    }
                    match folded {
                        Err(e) => {
                            proof {
                                assert forall|answers: Answers| agrees(answers, both) implies #[trigger] process_children(
                                    g0,
                                    answers,
                                    n,
                                ) == (Outcome {
                                    graph: g2,
                                    result: Err::<Seq<ExpressionView>, _>(e@),
                                }) by {
                                    assert(agrees(answers, log1) && agrees(answers, log2));
                                    let first = translate_children(g0, answers, lone);
                                    assert(first == Outcome {
                                        graph: g1,
                                        result: Ok::<_, TranslateErrorView>(before),
                                    });
                                    let second = fold_scopes(g1, answers, bearing);
                                    assert(second == Outcome { graph: g2, result: result_view(folded) });
                                }
                            }
                            (Err(e), Ghost(both))
                        },
                        Ok(expr) => {
                            expressions.push(expr);
                            proof {
                                assert(exprs_view(expressions@) =~= before.push(expr@));
                                assert forall|answers: Answers| agrees(answers, both) implies #[trigger] process_children(
                                    g0,
                                    answers,
                                    n,
                                ) == (Outcome {
                                    graph: g2,
                                    result: Ok::<_, TranslateErrorView>(before.push(expr@)),
                                }) by {
                                    assert(agrees(answers, log1) && agrees(answers, log2));
                                    let first = translate_children(g0, answers, lone);
                                    assert(first == Outcome {
                                        graph: g1,
                                        result: Ok::<_, TranslateErrorView>(before),
                                    });
                                    let second = fold_scopes(g1, answers, bearing);
                                    assert(second == Outcome { graph: g2, result: result_view(folded) });
                                }
                            }
                            (Ok(expressions), Ghost(both))
                        },
                    }
                } else {
                    proof {
                        assert forall|answers: Answers| agrees(answers, log1) implies #[trigger] process_children(
                            g0,
                            answers,
                            n,
                        ) == (Outcome { graph: g1, result: Ok::<_, TranslateErrorView>(before) }) by {
                            let first = translate_children(g0, answers, lone);
                            assert(first == Outcome {
                                graph: g1,
                                result: Ok::<_, TranslateErrorView>(before),
                            });
                        }
                    }
                    (Ok(expressions), Ghost(log1))
                }
            },
        }
    }

    /// Translates the result-bearing children `result_subgraphs` of the
    /// node into one expression: each under the name of its node, then the
    /// last of them where the graph has one result node, else the first
    /// that is not empty.
    pub fn fold_result_scopes(
        &self,
        graph: &mut QueryGraph,
        result_subgraphs: Vec<(EdgeRef, NodeRef)>,
    ) -> (out: (Result<Expression, TranslateError>, Ghost<Log>))
        requires
            old(graph)@.well_formed(),
            joined(old(graph)@.shape(), pair_indices(result_subgraphs@)),
            result_subgraphs@.len() > 0,
        ensures
            final(graph)@.follows(old(graph)@),
            fresh(out.1@, old(graph)@, final(graph)@),
            answered_by(self.query_builder, out.1@),
            accepted(out.1@) || out.0 matches Err(TranslateError::QueryBuildFailure(_)),
            forall|answers: Answers|
                agrees(answers, out.1@) ==> #[trigger] fold_scopes(
                    old(graph)@,
                    answers,
                    pair_indices(result_subgraphs@),
                ) == (Outcome { graph: final(graph)@, result: result_view(out.0) }),
        decreases old(graph)@.unvisited(), 4int, 0nat,
    {
        let ghost g0 = graph@;
        let ghost pairs = pair_indices(result_subgraphs@);
        let (r, Ghost(log)) = self.translate_children(graph, &result_subgraphs);
        let ghost g1 = graph@;
        match r {
            Err(e) => {
                proof {
                    assert forall|answers: Answers| agrees(answers, log) implies #[trigger] fold_scopes(
                        g0,
                        answers,
                        pairs,
                    ) == (Outcome { graph: g1, result: Err::<ExpressionView, _>(e@) }) by {
                        let t = translate_children(g0, answers, pairs);
                        assert(t == Outcome { graph: g1, result: results_view(r) });
                    }
                }
                (Err(e), Ghost(log))
            },
            Ok(exprs) => {
                let ghost items = exprs_view(exprs@);
                let result_nodes = graph.result_nodes();
                assert(result_nodes@.len() == g0.results.len()) by {
                    assert(node_indices(result_nodes@).len() == result_nodes@.len());
                    assert(g1.shape().results == g0.shape().results);
                }
                let e = fold(&result_subgraphs, exprs, result_nodes.len());
                proof {
                    assert forall|answers: Answers| agrees(answers, log) implies #[trigger] fold_scopes(
                        g0,
                        answers,
                        pairs,
                    ) == (Outcome { graph: g1, result: Ok::<_, TranslateErrorView>(e@) }) by {
                        let t = translate_children(g0, answers, pairs);
                        assert(t == Outcome { graph: g1, result: Ok::<_, TranslateErrorView>(items) });
                    }
                }
                (Ok(e), Ghost(log))
            },
        }
    }

    /// Translates each of `pairs` in turn, up to the first that fails.
    pub fn translate_children(&self, graph: &mut QueryGraph, pairs: &Vec<(EdgeRef, NodeRef)>) -> (out:
        (Result<Vec<Expression>, TranslateError>, Ghost<Log>))
        requires
            old(graph)@.well_formed(),
            joined(old(graph)@.shape(), pair_indices(pairs@)),
        ensures
            final(graph)@.follows(old(graph)@),
            fresh(out.1@, old(graph)@, final(graph)@),
            answered_by(self.query_builder, out.1@),
            accepted(out.1@) || out.0 matches Err(TranslateError::QueryBuildFailure(_)),
            out.0 matches Ok(items) ==> items@.len() == pairs@.len(),
            forall|answers: Answers|
                agrees(answers, out.1@) ==> #[trigger] translate_children(
                    old(graph)@,
                    answers,
                    pair_indices(pairs@),
                ) == (Outcome { graph: final(graph)@, result: results_view(out.0) }),
        decreases old(graph)@.unvisited(), 3int, pairs@.len(),
    {
        let ghost g0 = graph@;
        let ghost all = pair_indices(pairs@);
        let mut exprs: Vec<Expression> = Vec::new();
        let ghost mut log: Log = Map::empty();
        let mut i: usize = 0;
        proof {
            assert(all.skip(0) =~= all);
            assert forall|answers: Answers| agrees(answers, log) implies #[trigger] translate_children(
                g0,
                answers,
                all,
            ) == after_prefix(exprs_view(exprs@), translate_children(graph@, answers, all.skip(0))) by {
                let t = translate_children(g0, answers, all);
                match t.result {
                    Ok(items) => {
                        assert(exprs_view(exprs@) + items =~= items);
                    },
                    Err(_) => {},
                }
            }
        }
        while i < pairs.len()
            invariant
                i <= pairs@.len(),
                exprs@.len() == i,
                all == pair_indices(pairs@),
                g0 == old(graph)@,
                g0.well_formed(),
                joined(g0.shape(), all),
                graph@.follows(g0),
                fresh(log, g0, graph@),
                answered_by(self.query_builder, log),
                accepted(log),
                forall|answers: Answers|
                    agrees(answers, log) ==> #[trigger] translate_children(g0, answers, all)
                        == after_prefix(
                        exprs_view(exprs@),
                        translate_children(graph@, answers, all.skip(i as int)),
                    ),
            decreases pairs@.len() - i,
        {
            let pair = pairs[i];
            let ghost before = graph@;
            let ghost done = exprs_view(exprs@);
            let ghost rest = all.skip(i as int);
            proof {
                assert(all[i as int] == (pair.0.ix as int, pair.1.ix as int));
                assert(rest[0] == all[i as int]);
                assert(rest.skip(1) =~= all.skip(i + 1));
                lemma_follows_unvisited(before, g0);
            }
            let (r, Ghost(l)) = self.process_child_with_dependency(graph, pair.0, pair.1);
            let ghost old_log = log;
            proof {
                lemma_merge_logs(old_log, l, g0, before, graph@);
                lemma_follows_unvisited(graph@, before);
                log = old_log.union_prefer_right(l);
            }
            match r {
                Err(e) => {
                    proof {
                        assert forall|answers: Answers| agrees(answers, log) implies #[trigger] translate_children(
                            g0,
                            answers,
                            all,
                        ) == (Outcome { graph: graph@, result: Err::<Seq<ExpressionView>, _>(e@) }) by {
                            assert(agrees(answers, old_log) && agrees(answers, l));
                            let first = process_child_with_dependency(
                                before,
                                answers,
                                rest[0].0,
                                rest[0].1,
                            );
                            assert(first == Outcome { graph: graph@, result: result_view(r) });
                            assert(translate_children(before, answers, rest) == Outcome {
                                graph: graph@,
                                result: Err::<Seq<ExpressionView>, _>(e@),
                            });
                        }
                    }
                    return (Err(e), Ghost(log));
                },
                Ok(expr) => {
                    exprs.push(expr);
                    proof {
                        assert(exprs_view(exprs@) =~= done.push(expr@));
                        assert forall|answers: Answers| agrees(answers, log) implies #[trigger] translate_children(
                            g0,
                            answers,
                            all,
                        ) == after_prefix(
                            exprs_view(exprs@),
                            translate_children(graph@, answers, all.skip(i + 1)),
                        ) by {
                            assert(agrees(answers, old_log) && agrees(answers, l));
                            let first = process_child_with_dependency(
                                before,
                                answers,
                                rest[0].0,
                                rest[0].1,
                            );
                            assert(first == Outcome { graph: graph@, result: result_view(r) });
                            let tail = translate_children(graph@, answers, rest.skip(1));
                            assert(translate_children(before, answers, rest) == match tail.result {
                                Err(e) => tail,
                                Ok(items) => Outcome {
                                    graph: tail.graph,
                                    result: Ok(seq![expr@] + items),
                                },
                            });
                            match tail.result {
                                Ok(items) => {
                                    assert(done + (seq![expr@] + items) =~= done.push(expr@)
                                        + items);
                                },
                                Err(_) => {},
                            }
                        }
                    }
                },
            }
            i += 1;
        }
        proof {
            assert(all.skip(i as int) =~= Seq::empty());
            assert forall|answers: Answers| agrees(answers, log) implies #[trigger] translate_children(
                g0,
                answers,
                all,
            ) == (Outcome { graph: graph@, result: Ok::<_, TranslateErrorView>(exprs_view(exprs@)) }) by {
                assert(exprs_view(exprs@) + Seq::<ExpressionView>::empty() =~= exprs_view(exprs@));
            }
        }
        (Ok(exprs), Ghost(log))
    }

    /// Translates `node`, a child reached over `edge`.  Where the edge
    /// projects one field of its source, the child's expression is wrapped
    /// so that the source's name stands for the values of that field.
    pub fn process_child_with_dependency(
        &self,
        graph: &mut QueryGraph,
        edge: EdgeRef,
        node: NodeRef,
    ) -> (out: (Result<Expression, TranslateError>, Ghost<Log>))
        requires
            old(graph)@.well_formed(),
            old(graph)@.has_edge(edge.ix as int),
            old(graph)@.has_node(node.ix as int),
        ensures
            final(graph)@.follows(old(graph)@),
            fresh(out.1@, old(graph)@, final(graph)@),
            answered_by(self.query_builder, out.1@),
            accepted(out.1@) || out.0 matches Err(TranslateError::QueryBuildFailure(_)),
            forall|answers: Answers|
                agrees(answers, out.1@) ==> #[trigger] process_child_with_dependency(
                    old(graph)@,
                    answers,
                    edge.ix as int,
                    node.ix as int,
                ) == (Outcome { graph: final(graph)@, result: result_view(out.0) }),
        decreases old(graph)@.unvisited(), 2int, 0nat,
    {
        let ghost g0 = graph@;
        let ghost carried = g0.edges[edge.ix as int].content;
        let mut field: Option<String> = None;
        match graph.edge_content(&edge) {
            Some(QueryGraphDependency::ProjectedDataDependency(selection, _)) => {
                if selection.len() == 1 {
                    field = Some(selection.field(0).db_name().clone());
                } else {
                    let r = Err(
                        TranslateError::Unsupported(UnsupportedShape::MultiFieldProjection),
                    );
                    proof {
                        assert forall|answers: Answers| true implies #[trigger] process_child_with_dependency(
                            g0,
                            answers,
                            edge.ix as int,
                            node.ix as int,
                        ) == (Outcome { graph: g0, result: result_view(r) }) by {
                            assert(projected_field(carried) is Err);
                        }
                    }
                    return (r, Ghost(Map::empty()));
                }
            },
            _ => {},
        }
        let ghost wanted = field_view(field);
        assert(projected_field(carried) == Ok::<_, TranslateErrorView>(wanted));
        let edges = graph.incoming_edges(&node);
        let source = graph.edge_source(&edge);
        proof {
            lemma_incoming_edges(g0.shape(), node.ix as int, g0.shape().links.len() as int);
            lemma_incoming_targets(g0.shape(), node.ix as int, g0.shape().links.len() as int);
            assert forall|i: int| 0 <= i < edges@.len() implies g0.has_edge(
                #[trigger] edges@[i].ix as int,
            ) && g0.edges[edges@[i].ix as int].target == node.ix by {
                assert(edge_indices(edges@)[i] == edges@[i].ix as int);
                let e = g0.shape().incoming(node.ix as int)[i];
                assert(g0.shape().has_edge(e));
                assert(g0.shape().links[e].1 == node.ix);
            }
        }
        let translator = NodeTranslator::new(node, edges.as_slice(), self.query_builder);
        let (r, Ghost(log)) = translator.translate(graph);
        let ghost g1 = graph@;
        let ghost incoming = g0.shape().incoming(node.ix as int);
        match r {
            Err(e) => {
                proof {
                    assert forall|answers: Answers| agrees(answers, log) implies #[trigger] process_child_with_dependency(
                        g0,
                        answers,
                        edge.ix as int,
                        node.ix as int,
                    ) == (Outcome { graph: g1, result: Err::<ExpressionView, _>(e@) }) by {
                        let t = translate_node(g0, answers, node.ix as int, incoming);
                        assert(t == Outcome { graph: g1, result: result_view(r) });
                    }
                }
                (Err(e), Ghost(log))
            },
            Ok(expr) => {
                let ghost inner = expr@;
                let wrapped = project(field, source.id(), expr);
                proof {
                    assert forall|answers: Answers| agrees(answers, log) implies #[trigger] process_child_with_dependency(
                        g0,
                        answers,
                        edge.ix as int,
                        node.ix as int,
                    ) == (Outcome { graph: g1, result: Ok::<_, TranslateErrorView>(wrapped@) }) by {
                        let t = translate_node(g0, answers, node.ix as int, incoming);
                        assert(t == Outcome { graph: g1, result: Ok::<_, TranslateErrorView>(inner) });
                    }
                }
                (Ok(wrapped), Ghost(log))
            },
        }
    }
}

/// Translates each of `roots` in turn, up to the first that fails.
/// Returned with the expressions is what the query builder answered for
/// each node it was asked about.
pub fn translate_all<B: QueryBuilder + ?Sized>(graph: &mut QueryGraph, roots: &Vec<NodeRef>, builder: &B) -> (out:
    (Result<Vec<Expression>, TranslateError>, Ghost<Log>))
    requires
        old(graph)@.well_formed(),
        forall|i: int| 0 <= i < roots@.len() ==> old(graph)@.has_node(#[trigger] roots@[i].ix as int),
    ensures
        final(graph)@.follows(old(graph)@),
        fresh(out.1@, old(graph)@, final(graph)@),
        answered_by(builder, out.1@),
        accepted(out.1@) || out.0 matches Err(TranslateError::QueryBuildFailure(_)),
        forall|answers: Answers|
            agrees(answers, out.1@) ==> #[trigger] translate_roots(
                old(graph)@,
                answers,
                node_indices(roots@),
            ) == (Outcome { graph: final(graph)@, result: results_view(out.0) }),
        final(graph)@.consumed_from(old(graph)@),
        touched_only(old(graph)@, final(graph)@),
{
    let ghost g0 = graph@;
    let ghost all = node_indices(roots@);
    let none: Vec<EdgeRef> = Vec::new();
    let mut exprs: Vec<Expression> = Vec::new();
    let ghost mut log: Log = Map::empty();
    let mut i: usize = 0;
    proof {
        assert(all.skip(0) =~= all);
        assert(edge_indices(none@) =~= Seq::empty());
        assert forall|answers: Answers| agrees(answers, log) implies #[trigger] translate_roots(
            g0,
            answers,
            all,
        ) == after_prefix(exprs_view(exprs@), translate_roots(graph@, answers, all.skip(0))) by {
            let t = translate_roots(g0, answers, all);
            match t.result {
                Ok(items) => {
                    assert(exprs_view(exprs@) + items =~= items);
                },
                Err(_) => {},
            }
        }
    }
    while i < roots.len()
        invariant
            i <= roots@.len(),
            all == node_indices(roots@),
            edge_indices(none@) == Seq::<int>::empty(),
            none@.len() == 0,
            g0 == old(graph)@,
            g0.well_formed(),
            forall|j: int| 0 <= j < roots@.len() ==> g0.has_node(#[trigger] roots@[j].ix as int),
            graph@.follows(g0),
            graph@.consumed_from(g0),
            touched_only(g0, graph@),
            fresh(log, g0, graph@),
            answered_by(builder, log),
            accepted(log),
            forall|answers: Answers|
                agrees(answers, log) ==> #[trigger] translate_roots(g0, answers, all)
                    == after_prefix(
                    exprs_view(exprs@),
                    translate_roots(graph@, answers, all.skip(i as int)),
                ),
        decreases roots@.len() - i,
    {
        let root = roots[i];
        let ghost before = graph@;
        let ghost done = exprs_view(exprs@);
        let ghost rest = all.skip(i as int);
        proof {
            assert(all[i as int] == root.ix as int);
            assert(rest[0] == all[i as int]);
            assert(rest.skip(1) =~= all.skip(i + 1));
            assert(g0.has_node(roots@[i as int].ix as int));
            assert(before.shape().node_count == g0.shape().node_count);
        }
        let translator = NodeTranslator::new(root, none.as_slice(), builder);
        let (r, Ghost(l)) = translator.translate(graph);
        let ghost old_log = log;
        proof {
            lemma_merge_logs(old_log, l, g0, before, graph@);
            lemma_touched_chain(g0, before, graph@);
            lemma_consumed_chain(g0, before, graph@);
            log = old_log.union_prefer_right(l);
        }
        match r {
            Err(e) => {
                proof {
                    assert forall|answers: Answers| agrees(answers, log) implies #[trigger] translate_roots(
                        g0,
                        answers,
                        all,
                    ) == (Outcome { graph: graph@, result: Err::<Seq<ExpressionView>, _>(e@) }) by {
                        assert(agrees(answers, old_log) && agrees(answers, l));
                        let first = translate_node(before, answers, rest[0], Seq::empty());
                        assert(first == Outcome { graph: graph@, result: result_view(r) });
                        assert(translate_roots(before, answers, rest) == Outcome {
                            graph: graph@,
                            result: Err::<Seq<ExpressionView>, _>(e@),
                        });
                    }
                }
                return (Err(e), Ghost(log));
            },
            Ok(expr) => {
                exprs.push(expr);
                proof {
                    assert(exprs_view(exprs@) =~= done.push(expr@));
                    assert forall|answers: Answers| agrees(answers, log) implies #[trigger] translate_roots(
                        g0,
                        answers,
                        all,
                    ) == after_prefix(
                        exprs_view(exprs@),
                        translate_roots(graph@, answers, all.skip(i + 1)),
                    ) by {
                        assert(agrees(answers, old_log) && agrees(answers, l));
                        let first = translate_node(before, answers, rest[0], Seq::empty());
                        assert(first == Outcome { graph: graph@, result: result_view(r) });
                        let tail = translate_roots(graph@, answers, rest.skip(1));
                        assert(translate_roots(before, answers, rest) == match tail.result {
                            Err(e) => tail,
                            Ok(items) => Outcome {
                                graph: tail.graph,
                                result: Ok(seq![expr@] + items),
                            },
                        });
                        match tail.result {
                            Ok(items) => {
                                assert(done + (seq![expr@] + items) =~= done.push(expr@) + items);
                            },
                            Err(_) => {},
                        }
                    }
                }
            },
        }
        i += 1;
    }
    proof {
        assert(all.skip(i as int) =~= Seq::empty());
        assert forall|answers: Answers| agrees(answers, log) implies #[trigger] translate_roots(
            g0,
            answers,
            all,
        ) == (Outcome { graph: graph@, result: Ok::<_, TranslateErrorView>(exprs_view(exprs@)) }) by {
            assert(exprs_view(exprs@) + Seq::<ExpressionView>::empty() =~= exprs_view(exprs@));
        }
    }
    (Ok(exprs), Ghost(log))
}

/// The answers that `log` holds, and a refusal wherever the builder was
/// not asked.
pub open spec fn answers_of(log: Log) -> Answers {
    |n: int, query: QueryView|
        if log.dom().contains(n) && log[n].query == query {
            log[n].answer
        } else {
            Err(Seq::empty())
        }
}

/// The answers that `log` holds, and an empty statement wherever the
/// builder was not asked.
pub open spec fn eager_answers_of(log: Log) -> Answers {
    |n: int, query: QueryView|
        if log.dom().contains(n) && log[n].query == query {
            log[n].answer
        } else {
            Ok(DbQueryView { query: Seq::empty(), params: Seq::empty() })
        }
}

/// Compiles a graph into a plan: the translations of its roots, in the
/// order of the roots.  The plan is the one that the graph has under the
/// answers that `builder` gave; the first step that fails ends the
/// compilation with its error.
pub fn translate<B: QueryBuilder + ?Sized>(graph: QueryGraph, builder: &B) -> (r: Result<
    Expression,
    TranslateError,
>)
    requires
        graph@.well_formed(),
    ensures
        exists|log: Log| #[trigger]
            answered_by(builder, log) && forall|answers: Answers|
                agrees(answers, log) ==> result_view(r) == #[trigger] plan(graph@, answers),
        exists|answers: Answers| result_view(r) == #[trigger] plan(graph@, answers),
        r matches Ok(e) ==> e@.scoped(Set::empty()),
        plain(graph@) && acyclic(graph@) && untouched(graph@) ==> (r matches Ok(e)
            ==> e@.leaf_count() == graph@.nodes.len() && forall|n: int|
            graph@.has_node(n) ==> (#[trigger] graph@.nodes[n]).content is Some),
        fit(graph@) && untouched(graph@) ==> (r matches Err(e) ==> e is QueryBuildFailure || named(
            graph@,
            e@,
        )),
{
    let mut graph = graph;
    let ghost g0 = graph@;
    let roots = graph.root_nodes();
    proof {
        lemma_roots_are_nodes(g0.shape(), g0.shape().node_count as int);
        assert forall|i: int| 0 <= i < roots@.len() implies g0.has_node(
            #[trigger] roots@[i].ix as int,
        ) by {
            assert(node_indices(roots@)[i] == roots@[i].ix as int);
            assert(g0.shape().has_node(g0.shape().roots()[i]));
        }
    }
    let (translated, Ghost(log)) = translate_all(&mut graph, &roots, builder);
    let r = match translated {
        Err(e) => Err(e),
        Ok(items) => Ok(Expression::sequence(items)),
    };
    proof {
        let answers = answers_of(log);
        assert(agrees(answers, log));
        let t = translate_roots(g0, answers, g0.shape().roots());
        assert(t.result == results_view(translated));
        assert(result_view(r) == plan(g0, answers));
        lemma_plan_scoped(g0, answers);
        if plain(g0) && acyclic(g0) && untouched(g0) && r is Ok {
            lemma_plan_holds_each_node_once(g0, answers);
        }
        if fit(g0) && untouched(g0) {
            if r is Err {
                if !(r->Err_0 is QueryBuildFailure) {
                    let eager = eager_answers_of(log);
                    assert(accepted(log));
                    assert(agrees(eager, log));
                    assert(willing(eager));
                    assert(result_view(r) == plan(g0, eager));
                    lemma_failure_names_empty_node(g0, eager);
                }
            }
        }
        assert forall|others: Answers| agrees(others, log) implies result_view(r) == #[trigger] plan(
            g0,
            others,
        ) by {
            let t = translate_roots(g0, others, g0.shape().roots());
            assert(t.result == results_view(translated));
        }
        assert(answered_by(builder, log));
    }
    r
}

/// Where a builder promises one answer for each operation, its answers
/// decide the plan: what compilation returns is the plan under the
/// answers `answer_for`.
pub proof fn lemma_determined_builder<B: QueryBuilder + ?Sized>(
    builder: &B,
    answer_for: spec_fn(QueryView) -> Answer,
    log: Log,
    graph: GraphView,
    returned: Result<ExpressionView, TranslateErrorView>,
)
    requires
        forall|query: QueryView, answer: Answer| #[trigger]
            builder.may_answer(query, answer) ==> answer == answer_for(query),
        answered_by(builder, log),
        accepted(log),
        forall|answers: Answers| agrees(answers, log) ==> returned == #[trigger] plan(graph, answers),
    ensures
        returned == plan(graph, |n: int, query: QueryView| answer_for(query)),
{
    let answers = |n: int, query: QueryView| answer_for(query);
    assert(agrees(answers, log));
}

} // verus!
