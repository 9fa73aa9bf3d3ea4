use vstd::prelude::*;
use crate::error::TranslateErrorView;
use crate::expression::ExpressionView;
use crate::graph::{node_name, GraphView, NodeView, Shape};
use crate::consumption::{
    lemma_process_child_consumes, lemma_translate_children_consumes,
    };
use crate::plan::{
    fold_bindings, fold_result_scopes, lemma_follows_unvisited, plan,
    process_child_with_dependency, process_children, translate_children, translate_node,
    translate_roots, Answers, Outcome,
};
use crate::reach::{joined, lemma_child_pairs_joined, lemma_select_joined};

verus! {

/// Whether `part` holds the items of `whole` at the positions `at`, which
/// ascend: `part` lists some items of `whole` in the order they have there.
pub open spec fn in_order_of<T>(part: Seq<T>, whole: Seq<T>, at: Seq<int>) -> bool {
    &&& at.len() == part.len()
    &&& forall|i: int| 0 <= i < at.len() ==> 0 <= #[trigger] at[i] < whole.len() && whole[at[i]] == part[i]
    &&& forall|i: int, j: int| 0 <= i < j < at.len() ==> #[trigger] at[i] < #[trigger] at[j]
}

/// Order preservation, for the split of a node's children: each group
/// holds exactly the children of its kind, in the order they have among all
/// the children.  Returns the positions of the group's children in `pairs`.
pub proof fn lemma_select_keeps_order(g: Shape, pairs: Seq<(int, int)>, bearing: bool) -> (at: Seq<
    int,
>)
    ensures
        in_order_of(g.select(pairs, bearing), pairs, at),
        forall|i: int|
            0 <= i < at.len() ==> g.contains_result(pairs[#[trigger] at[i]].1) == bearing,
        forall|k: int|
            0 <= k < pairs.len() && g.contains_result(pairs[k].1) == bearing
                ==> #[trigger] at.contains(k),
    decreases pairs.len(),
{
    if pairs.len() == 0 {
        Seq::empty()
    } else {
        let front = pairs.drop_last();
        let before = lemma_select_keeps_order(g, front, bearing);
        let last = pairs.len() - 1;
        if g.contains_result(pairs[last].1) == bearing {
            let at = before.push(last);
            assert forall|k: int|
                0 <= k < pairs.len() && g.contains_result(pairs[k].1) == bearing implies at.contains(
                k,
            ) by {
                if k < last {
                    assert(front[k] == pairs[k]);
                    assert(before.contains(k));
                    let i = choose|i: int| 0 <= i < before.len() && before[i] == k;
                    assert(at[i] == k);
                } else {
                    assert(at[before.len() as int] == k);
                }
            }
            at
        } else {
            assert forall|k: int|
                0 <= k < pairs.len() && g.contains_result(pairs[k].1) == bearing implies before.contains(
                k,
            ) by {
                assert(front[k] == pairs[k]);
                assert(before.contains(k));
            }
            before
        }
    }
}

/// The edges to the direct children of a node ascend: the children stand
/// in the order in which their edges were created.
pub proof fn lemma_child_pairs_ascend(g: GraphView, n: int, upto: int)
    requires
        0 <= upto <= g.edges.len(),
    ensures
        forall|i: int|
            0 <= i < g.child_pairs_below(n, upto).len() ==> 0 <= (#[trigger] g.child_pairs_below(
                n,
                upto,
            )[i]).0 < upto,
        forall|i: int, j: int|
            0 <= i < j < g.child_pairs_below(n, upto).len() ==> (#[trigger] g.child_pairs_below(
                n,
                upto,
            )[i]).0 < (#[trigger] g.child_pairs_below(n, upto)[j]).0,
    decreases upto,
{
    if upto > 0 {
        lemma_child_pairs_ascend(g, n, upto - 1);
        let prev = g.child_pairs_below(n, upto - 1);
        let cur = g.child_pairs_below(n, upto);
        assert forall|i: int| 0 <= i < cur.len() implies 0 <= (#[trigger] cur[i]).0 < upto by {
            if i < prev.len() {
                assert(cur[i] == prev[i]);
            }
        }
        assert forall|i: int, j: int| 0 <= i < j < cur.len() implies (#[trigger] cur[i]).0 < (
        #[trigger] cur[j]).0 by {
            assert(cur[i] == prev[i]);
            if j < prev.len() {
                assert(cur[j] == prev[j]);
            }
        }
    }
}

/// In a graph as translation finds it, a list of children is translated
/// front to back: the first child in the given state, the others in the
/// state that the first left.
pub proof fn lemma_translate_children_unfold(g: GraphView, answers: Answers, pairs: Seq<(int, int)>)
    requires
        g.well_formed(),
        joined(g.shape(), pairs),
        pairs.len() > 0,
    ensures
        translate_children(g, answers, pairs) == ({
            let first = process_child_with_dependency(g, answers, pairs[0].0, pairs[0].1);
            match first.result {
                Err(e) => Outcome { graph: first.graph, result: Err(e) },
                Ok(expr) => {
                    let rest = translate_children(first.graph, answers, pairs.skip(1));
                    match rest.result {
                        Err(e) => rest,
                        Ok(exprs) => Outcome { graph: rest.graph, result: Ok(seq![expr] + exprs) },
                    }
                },
            }
        }),
{
    assert(g.shape().has_edge(pairs[0].0));
    lemma_process_child_consumes(g, answers, pairs[0].0, pairs[0].1);
    lemma_follows_unvisited(
        process_child_with_dependency(g, answers, pairs[0].0, pairs[0].1).graph,
        g,
    );
}

/// Order preservation, for the translation of a list of children: the
/// first `k` expressions are what the first `k` children alone give.
pub proof fn lemma_translate_children_prefix(
    g: GraphView,
    answers: Answers,
    pairs: Seq<(int, int)>,
    k: int,
)
    requires
        g.well_formed(),
        joined(g.shape(), pairs),
        0 <= k <= pairs.len(),
        translate_children(g, answers, pairs).result is Ok,
    ensures
        translate_children(g, answers, pairs.take(k)).result == Ok::<_, TranslateErrorView>(
            translate_children(g, answers, pairs).result->Ok_0.take(k),
        ),
    decreases pairs.len(),
{
    let exprs = translate_children(g, answers, pairs).result->Ok_0;
    lemma_translate_children_consumes(g, answers, pairs);
    if k == 0 {
        assert(pairs.take(0) =~= Seq::empty());
        assert(exprs.take(0) =~= Seq::empty());
    } else {
        let head = pairs.take(k);
        lemma_translate_children_unfold(g, answers, pairs);
        assert(joined(g.shape(), head));
        lemma_translate_children_unfold(g, answers, head);
        assert(head[0] == pairs[0]);
        let first = process_child_with_dependency(g, answers, pairs[0].0, pairs[0].1);
        lemma_process_child_consumes(g, answers, pairs[0].0, pairs[0].1);
        let rest = pairs.skip(1);
        assert(joined(first.graph.shape(), rest)) by {
            assert forall|i: int| 0 <= i < rest.len() implies g.shape().has_edge(
                (#[trigger] rest[i]).0,
            ) && g.shape().links[rest[i].0].1 == rest[i].1 && g.shape().has_node(rest[i].1) by {
                assert(rest[i] == pairs[i + 1]);
            }
        }
        lemma_translate_children_prefix(first.graph, answers, rest, k - 1);
        assert(head.skip(1) =~= rest.take(k - 1));
        let tail = translate_children(first.graph, answers, rest).result->Ok_0;
        let expr = first.result->Ok_0;
        assert(seq![expr] + tail.take(k - 1) =~= (seq![expr] + tail).take(k));
    }
}

/// Order preservation, for the children of a node: the expressions are
/// those of the children from which no result can be reached, in their
/// order, and then, where there are others, one expression that binds
/// those in their order.
pub proof fn lemma_process_children_order(g: GraphView, answers: Answers, n: int)
    requires
        g.well_formed(),
        g.has_node(n),
        process_children(g, answers, n).result is Ok,
    ensures
        ({
            let pairs = g.child_pairs(n);
            let lone = g.shape().select(pairs, false);
            let bearing = g.shape().select(pairs, true);
            let exprs = process_children(g, answers, n).result->Ok_0;
            let effects = translate_children(g, answers, lone);
            &&& effects.result == Ok::<_, TranslateErrorView>(exprs.take(lone.len() as int))
            &&& bearing.len() == 0 ==> exprs.len() == lone.len()
            &&& bearing.len() > 0 ==> exprs.len() == lone.len() + 1 && fold_result_scopes(
                effects.graph,
                answers,
                bearing,
            ).result == Ok::<_, TranslateErrorView>(exprs.last())
        }),
{
    let pairs = g.child_pairs(n);
    lemma_child_pairs_joined(g, n, g.edges.len() as int);
    lemma_select_joined(g.shape(), pairs, false);
    let lone = g.shape().select(pairs, false);
    let bearing = g.shape().select(pairs, true);
    lemma_translate_children_consumes(g, answers, lone);
    let effects = translate_children(g, answers, lone);
    lemma_follows_unvisited(effects.graph, g);
    let exprs = process_children(g, answers, n).result->Ok_0;
    let first = effects.result->Ok_0;
    if bearing.len() == 0 {
        assert(exprs.take(lone.len() as int) =~= exprs);
    } else {
        let folded = fold_result_scopes(effects.graph, answers, bearing).result->Ok_0;
        assert(first.push(folded).take(lone.len() as int) =~= first);
    }
}

/// The result-bearing children are bound in their order, each under the
/// name of its node.
pub proof fn lemma_fold_binds_in_order(
    pairs: Seq<(int, int)>,
    exprs: Seq<ExpressionView>,
    result_count: nat,
    i: int,
)
    requires
        0 <= i < pairs.len(),
    ensures
        fold_bindings(pairs, exprs, result_count) matches ExpressionView::Let { bindings, .. }
            && bindings.len() == pairs.len() && bindings[i].name == node_name(pairs[i].1)
            && bindings[i].expr == exprs[i],
{
}

/// Single-result fold: in a graph with one result node, the fold binds
/// the children in their order and gives the value of the last.
pub proof fn lemma_single_result_fold(pairs: Seq<(int, int)>, exprs: Seq<ExpressionView>)
    requires
        pairs.len() > 0,
    ensures
        fold_bindings(pairs, exprs, 1) == (ExpressionView::Let {
            bindings: crate::plan::bind_targets(pairs, exprs),
            expr: Box::new(ExpressionView::Get { name: node_name(pairs.last().1) }),
        }),
{
}

/// Multi-result fold: in a graph with several result nodes, the fold binds
/// the children in their order and gives the first value that is not
/// empty, looking at them in that order.
pub proof fn lemma_multi_result_fold(
    pairs: Seq<(int, int)>,
    exprs: Seq<ExpressionView>,
    result_count: nat,
)
    requires
        result_count != 1,
    ensures
        fold_bindings(pairs, exprs, result_count) == (ExpressionView::Let {
            bindings: crate::plan::bind_targets(pairs, exprs),
            expr: Box::new(
                ExpressionView::GetFirstNonEmpty { names: crate::plan::target_names(pairs) },
            ),
        }),
        crate::plan::target_names(pairs).len() == pairs.len(),
        forall|i: int|
            0 <= i < pairs.len() ==> #[trigger] crate::plan::target_names(pairs)[i] == node_name(
                pairs[i].1,
            ),
{
}

/// Projection pre-pass: a child reached over an edge that projects one
/// field is wrapped in a `Let` that binds the name of the edge's source to
/// the values of that field in what the name stood for, and has the
/// child's own expression as its body.
pub proof fn lemma_projection_wraps_child(
    g: GraphView,
    answers: Answers,
    edge: int,
    child: int,
    selection: Seq<crate::query::SelectedFieldView>,
    rewrite: crate::query::Rewrite,
)
    requires
        g.edges[edge].content == Some(
            crate::graph::DependencyView::ProjectedDataDependency(selection, rewrite),
        ),
        selection.len() == 1,
        translate_node(g, answers, child, g.shape().incoming(child)).result is Ok,
    ensures
        process_child_with_dependency(g, answers, edge, child).result == Ok::<
            _,
            TranslateErrorView,
        >(
            ExpressionView::Let {
                bindings: seq![
                    crate::expression::BindingView {
                        name: node_name(g.edges[edge].source),
                        expr: ExpressionView::MapField {
                            field: selection[0].db_name,
                            records: Box::new(
                                ExpressionView::Get { name: node_name(g.edges[edge].source) },
                            ),
                        },
                    },
                ],
                expr: Box::new(
                    translate_node(g, answers, child, g.shape().incoming(child)).result->Ok_0,
                ),
            },
        ),
{
}

/// A node that holds the empty marker gives the empty sequence, wherever
/// it stands, and the graph stays as it is.
pub proof fn lemma_empty_node(g: GraphView, answers: Answers, n: int, parents: Seq<int>)
    requires
        g.nodes[n].content == Some(NodeView::Empty),
    ensures
        translate_node(g, answers, n, parents) == (Outcome {
            graph: g,
            result: Ok::<_, TranslateErrorView>(ExpressionView::Sequence(Seq::empty())),
        }),
{
}

/// A node that holds nothing fails with the error that names it.
pub proof fn lemma_missing_content(g: GraphView, answers: Answers, n: int, parents: Seq<int>)
    requires
        g.nodes[n].content is None,
    ensures
        translate_node(g, answers, n, parents) == (Outcome {
            graph: g,
            result: Err::<ExpressionView, _>(TranslateErrorView::NodeContentEmpty(node_name(n))),
        }),
{
}

/// A node that is marked as visited and still holds its operation is not
/// translated a second time.
pub proof fn lemma_visited_node_refused(g: GraphView, answers: Answers, n: int, parents: Seq<int>)
    requires
        g.has_node(n),
        g.nodes[n].visited,
        g.nodes[n].content matches Some(NodeView::Query(_)),
    ensures
        translate_node(g, answers, n, parents) == (Outcome {
            graph: g,
            result: Err::<ExpressionView, _>(TranslateErrorView::NodeRevisited(node_name(n))),
        }),
{
    assert(translate_node(g, answers, n, parents) == crate::plan::translate_query(
        g,
        answers,
        n,
        parents,
    ));
}

/// Failure propagation: the first root that fails ends the plan with its
/// error, whatever roots come after it.
pub proof fn lemma_first_failure_decides(
    g: GraphView,
    answers: Answers,
    roots: Seq<int>,
    k: int,
)
    requires
        0 <= k < roots.len(),
        translate_roots(g, answers, roots.take(k)).result is Ok,
        translate_node(
            translate_roots(g, answers, roots.take(k)).graph,
            answers,
            roots[k],
            Seq::empty(),
        ).result is Err,
    ensures
        translate_roots(g, answers, roots).result == Err::<Seq<ExpressionView>, _>(
            translate_node(
                translate_roots(g, answers, roots.take(k)).graph,
                answers,
                roots[k],
                Seq::empty(),
            ).result->Err_0,
        ),
    decreases k,
{
    if k == 0 {
        assert(roots.take(0) =~= Seq::empty());
    } else {
        let head = roots.take(k);
        assert(head[0] == roots[0]);
        let first = translate_node(g, answers, roots[0], Seq::empty());
        assert(head.skip(1) =~= roots.skip(1).take(k - 1));
        lemma_first_failure_decides(first.graph, answers, roots.skip(1), k - 1);
    }
}

/// Root sequencing: the plan is the sequence of one expression for each
/// root, and the first `k` of them are what the first `k` roots alone give.
pub proof fn lemma_roots_in_sequence(g: GraphView, answers: Answers, roots: Seq<int>, k: int)
    requires
        0 <= k <= roots.len(),
        translate_roots(g, answers, roots).result is Ok,
    ensures
        translate_roots(g, answers, roots).result->Ok_0.len() == roots.len(),
        translate_roots(g, answers, roots.take(k)).result == Ok::<_, TranslateErrorView>(
            translate_roots(g, answers, roots).result->Ok_0.take(k),
        ),
    decreases roots.len(),
{
    let exprs = translate_roots(g, answers, roots).result->Ok_0;
    if roots.len() == 0 {
        assert(roots.take(k) =~= roots);
        assert(exprs.take(k) =~= exprs);
    } else {
        let first = translate_node(g, answers, roots[0], Seq::empty());
        let rest = roots.skip(1);
        lemma_roots_in_sequence(first.graph, answers, rest, if k == 0 {
            0
        } else {
            k - 1
        });
        let tail = translate_roots(first.graph, answers, rest).result->Ok_0;
        let expr = first.result->Ok_0;
        if k == 0 {
            assert(roots.take(0) =~= Seq::empty());
            assert(exprs.take(0) =~= Seq::empty());
        } else {
            let head = roots.take(k);
            assert(head[0] == roots[0]);
            assert(head.skip(1) =~= rest.take(k - 1));
            assert(seq![expr] + tail.take(k - 1) =~= (seq![expr] + tail).take(k));
        }
    }
}

/// The roots ascend: they are translated in the order of their creation.
pub proof fn lemma_roots_ascend(g: Shape, upto: int)
    requires
        0 <= upto,
    ensures
        forall|i: int|
            0 <= i < g.roots_below(upto).len() ==> 0 <= #[trigger] g.roots_below(upto)[i] < upto,
        forall|i: int, j: int|
            0 <= i < j < g.roots_below(upto).len() ==> #[trigger] g.roots_below(upto)[i]
                < #[trigger] g.roots_below(upto)[j],
    decreases upto,
{
    if upto > 0 {
        lemma_roots_ascend(g, upto - 1);
        let prev = g.roots_below(upto - 1);
        let cur = g.roots_below(upto);
        assert forall|i: int| 0 <= i < cur.len() implies 0 <= #[trigger] cur[i] < upto by {
            if i < prev.len() {
                assert(cur[i] == prev[i]);
            }
        }
        assert forall|i: int, j: int| 0 <= i < j < cur.len() implies #[trigger] cur[i]
            < #[trigger] cur[j] by {
            assert(cur[i] == prev[i]);
            if j < prev.len() {
                assert(cur[j] == prev[j]);
            }
        }
    }
}

proof fn lemma_push_contains<T>(s: Seq<T>, x: T, y: T)
    ensures
        s.push(x).contains(y) <==> s.contains(y) || x == y,
{
    let t = s.push(x);
    if s.contains(y) {
        let i = choose|i: int| 0 <= i < s.len() && s[i] == y;
        assert(t[i] == y);
    }
    if x == y {
        assert(t[s.len() as int] == y);
    }
    if t.contains(y) {
        let i = choose|i: int| 0 <= i < t.len() && t[i] == y;
        if i < s.len() {
            assert(s[i] == y);
        }
    }
}

/// The roots below `upto` are exactly the nodes below `upto` in which no
/// edge ends.
pub proof fn lemma_roots_exact(g: Shape, upto: int, n: int)
    ensures
        g.roots_below(upto).contains(n) <==> 0 <= n < upto && !g.has_incoming(n),
    decreases upto,
{
    if upto > 0 {
        lemma_roots_exact(g, upto - 1, n);
        if !g.has_incoming(upto - 1) {
            lemma_push_contains(g.roots_below(upto - 1), upto - 1, n);
        }
    }
}

/// The edges below `upto` that end in `n` are exactly that.
pub proof fn lemma_incoming_exact(g: Shape, n: int, upto: int, e: int)
    ensures
        g.incoming_below(n, upto).contains(e) <==> 0 <= e < upto && g.links[e].1 == n,
    decreases upto,
{
    if upto > 0 {
        lemma_incoming_exact(g, n, upto - 1, e);
        if g.links[upto - 1].1 == n {
            lemma_push_contains(g.incoming_below(n, upto - 1), upto - 1, e);
        }
    }
}

/// The direct children of `n` are exactly the nodes that are ready and to
/// which an edge leads from `n`, each with that edge.
pub proof fn lemma_child_pairs_exact(g: GraphView, n: int, upto: int, e: int, child: int)
    ensures
        g.child_pairs_below(n, upto).contains((e, child)) <==> 0 <= e < upto && g.edges[e].source
            == n && g.edges[e].target == child && g.is_ready(child),
    decreases upto,
{
    if upto > 0 {
        lemma_child_pairs_exact(g, n, upto - 1, e, child);
        let last = g.edges[upto - 1];
        if last.source == n && g.is_ready(last.target) {
            lemma_push_contains(
                g.child_pairs_below(n, upto - 1),
                (upto - 1, last.target),
                (e, child),
            );
        }
    }
}

} // verus!
