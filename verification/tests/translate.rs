use query_compiler::error::{TranslateError, UnsupportedShape};
use query_compiler::expression::{Binding, DbQuery, Expression};
use query_compiler::graph::{Node, NodeRef, QueryGraph, QueryGraphDependency};
use query_compiler::query::{
    FieldSelection, PlaceholderType, Value, Query, Rewrite, SelectedField,
};
use query_compiler::translate::{finish, fold, project, translate, NodeTranslator, QueryBuilder};

/// Answers each operation with its name and the values it was given, filters
/// first; refuses the operation named "broken".
struct Echo;

impl QueryBuilder for Echo {
    fn build(&self, query: Query) -> Result<DbQuery, String> {
        if query.name == "broken" {
            return Err(format!("cannot build {}", query.name));
        }
        let mut params = Vec::new();
        for record in query.filters.iter() {
            for pair in record.pairs.iter() {
                params.push(pair.1.clone());
            }
        }
        for record in query.arguments.iter() {
            for pair in record.pairs.iter() {
                params.push(pair.1.clone());
            }
        }
        Ok(DbQuery::new(query.name, params))
    }
}

fn op(name: &str) -> Node {
    Node::Query(Query::new(name.to_string()))
}

fn leaf(name: &str) -> Expression {
    Expression::Query(DbQuery::new(name.to_string(), Vec::new()))
}

fn leaf_with(name: &str, params: Vec<Value>) -> Expression {
    Expression::Query(DbQuery::new(name.to_string(), params))
}

fn placeholder(name: &str) -> Value {
    Value::Placeholder { name: name.to_string(), kind: PlaceholderType::Any }
}

fn bind(name: &str, expr: Expression) -> Binding {
    Binding::new(name.to_string(), expr)
}

fn get(name: &str) -> Expression {
    Expression::Get { name: name.to_string() }
}

fn let_in(bindings: Vec<Binding>, body: Expression) -> Expression {
    Expression::Let { bindings, expr: Box::new(body) }
}

fn field(name: &str, db_name: &str) -> SelectedField {
    SelectedField::new(name.to_string(), db_name.to_string())
}

fn order(graph: &mut QueryGraph, from: &NodeRef, to: &NodeRef) {
    graph.create_edge(from, to, QueryGraphDependency::ExecutionOrder).unwrap();
}

#[test]
fn empty_graph_gives_empty_sequence() {
    let graph = QueryGraph::new();
    assert_eq!(translate(graph, &Echo), Ok(Expression::Sequence(vec![])));
}

#[test]
fn single_root_is_lowered_without_binding() {
    let mut graph = QueryGraph::new();
    graph.create_node(op("find users"));
    assert_eq!(translate(graph, &Echo), Ok(Expression::Sequence(vec![leaf("find users")])));
}

#[test]
fn empty_node_yields_empty_sequence() {
    let mut graph = QueryGraph::new();
    graph.create_node(Node::Empty);
    assert_eq!(
        translate(graph, &Echo),
        Ok(Expression::Sequence(vec![Expression::Sequence(vec![])]))
    );
}

#[test]
fn empty_node_below_a_query_yields_empty_sequence() {
    let mut graph = QueryGraph::new();
    let parent = graph.create_node(op("create user"));
    let child = graph.create_node(Node::Empty);
    order(&mut graph, &parent, &child);
    let expected = let_in(
        vec![bind("0", leaf("create user"))],
        Expression::Sequence(vec![Expression::Sequence(vec![])]),
    );
    assert_eq!(translate(graph, &Echo), Ok(Expression::Sequence(vec![expected])));
}

#[test]
fn roots_are_sequenced_in_order() {
    let mut graph = QueryGraph::new();
    graph.create_node(op("first"));
    graph.create_node(op("second"));
    graph.create_node(op("third"));
    assert_eq!(
        translate(graph, &Echo),
        Ok(Expression::Sequence(vec![leaf("first"), leaf("second"), leaf("third")]))
    );
}

#[test]
fn roots_with_children_are_translated_independently() {
    let mut graph = QueryGraph::new();
    let a = graph.create_node(op("a"));
    let b = graph.create_node(op("b"));
    let a1 = graph.create_node(op("a1"));
    let b1 = graph.create_node(op("b1"));
    order(&mut graph, &b, &b1);
    order(&mut graph, &a, &a1);
    let expected = Expression::Sequence(vec![
        let_in(vec![bind("0", leaf("a"))], Expression::Sequence(vec![leaf("a1")])),
        let_in(vec![bind("1", leaf("b"))], Expression::Sequence(vec![leaf("b1")])),
    ]);
    assert_eq!(translate(graph, &Echo), Ok(expected));
}

#[test]
fn node_without_content_fails_the_translation() {
    let mut graph = QueryGraph::new();
    let parent = graph.create_node(op("create user"));
    let child = graph.create_node(op("create post"));
    order(&mut graph, &parent, &child);
    assert!(graph.pluck_node(&child).is_some());
    assert_eq!(translate(graph, &Echo), Err(TranslateError::NodeContentEmpty("1".to_string())));
}

#[test]
fn root_without_content_fails_the_translation() {
    let mut graph = QueryGraph::new();
    graph.create_node(op("first"));
    let second = graph.create_node(op("second"));
    graph.pluck_node(&second);
    assert_eq!(translate(graph, &Echo), Err(TranslateError::NodeContentEmpty("1".to_string())));
}

#[test]
fn effect_children_keep_their_order() {
    let mut graph = QueryGraph::new();
    let parent = graph.create_node(op("parent"));
    let x = graph.create_node(op("x"));
    let y = graph.create_node(op("y"));
    let z = graph.create_node(op("z"));
    order(&mut graph, &parent, &y);
    order(&mut graph, &parent, &z);
    order(&mut graph, &parent, &x);
    let expected = let_in(
        vec![bind("0", leaf("parent"))],
        Expression::Sequence(vec![leaf("y"), leaf("z"), leaf("x")]),
    );
    assert_eq!(translate(graph, &Echo), Ok(Expression::Sequence(vec![expected])));
}

#[test]
fn result_children_follow_effect_children_in_their_own_order() {
    let mut graph = QueryGraph::new();
    let parent = graph.create_node(op("parent"));
    let r1 = graph.create_node(op("r1"));
    let e1 = graph.create_node(op("e1"));
    let e2 = graph.create_node(op("e2"));
    let r2 = graph.create_node(op("r2"));
    order(&mut graph, &parent, &r1);
    order(&mut graph, &parent, &e1);
    order(&mut graph, &parent, &e2);
    order(&mut graph, &parent, &r2);
    graph.add_result_node(&r1).unwrap();
    graph.add_result_node(&r2).unwrap();
    let folded = let_in(
        vec![bind("1", leaf("r1")), bind("4", leaf("r2"))],
        Expression::GetFirstNonEmpty { names: vec!["1".to_string(), "4".to_string()] },
    );
    let expected = let_in(
        vec![bind("0", leaf("parent"))],
        Expression::Sequence(vec![leaf("e1"), leaf("e2"), folded]),
    );
    assert_eq!(translate(graph, &Echo), Ok(Expression::Sequence(vec![expected])));
}

#[test]
fn single_result_fold_gets_the_last_binding() {
    let mut graph = QueryGraph::new();
    let parent = graph.create_node(op("upsert"));
    let update = graph.create_node(op("update"));
    let create = graph.create_node(op("create"));
    let read = graph.create_node(op("read"));
    order(&mut graph, &parent, &update);
    order(&mut graph, &parent, &create);
    order(&mut graph, &update, &read);
    order(&mut graph, &create, &read);
    graph.add_result_node(&read).unwrap();
    // `read` is translated below `create`, the parent that is visited last.
    let below_create = let_in(
        vec![bind("2", leaf("create"))],
        Expression::Sequence(vec![let_in(vec![bind("3", leaf("read"))], get("3"))]),
    );
    let folded = let_in(vec![bind("1", leaf("update")), bind("2", below_create)], get("2"));
    let expected =
        let_in(vec![bind("0", leaf("upsert"))], Expression::Sequence(vec![folded]));
    assert_eq!(translate(graph, &Echo), Ok(Expression::Sequence(vec![expected])));
}

#[test]
fn node_below_two_roots_is_translated_once_below_the_second() {
    let mut graph = QueryGraph::new();
    let a = graph.create_node(op("a"));
    let b = graph.create_node(op("b"));
    let shared = graph.create_node(op("shared"));
    order(&mut graph, &a, &shared);
    order(&mut graph, &b, &shared);
    let expected = Expression::Sequence(vec![
        leaf("a"),
        let_in(vec![bind("1", leaf("b"))], Expression::Sequence(vec![leaf("shared")])),
    ]);
    assert_eq!(translate(graph, &Echo), Ok(expected));
}

#[test]
fn node_without_content_below_two_roots_fails_the_translation() {
    let mut graph = QueryGraph::new();
    let a = graph.create_node(op("a"));
    let b = graph.create_node(op("b"));
    let shared = graph.create_node(op("shared"));
    order(&mut graph, &a, &shared);
    order(&mut graph, &b, &shared);
    graph.pluck_node(&shared);
    assert_eq!(translate(graph, &Echo), Err(TranslateError::NodeContentEmpty("2".to_string())));
}

#[test]
fn node_without_content_below_the_second_of_three_roots_fails_the_translation() {
    let mut graph = QueryGraph::new();
    let first = graph.create_node(op("first"));
    let second = graph.create_node(op("second"));
    let third = graph.create_node(op("third"));
    let hollow = graph.create_node(op("hollow"));
    order(&mut graph, &second, &hollow);
    order(&mut graph, &first, &hollow);
    graph.pluck_node(&hollow);
    let _ = third;
    assert_eq!(translate(graph, &Echo), Err(TranslateError::NodeContentEmpty("3".to_string())));
}

#[test]
fn diamond_is_translated_with_each_node_once() {
    let mut graph = QueryGraph::new();
    let top = graph.create_node(op("top"));
    let left = graph.create_node(op("left"));
    let right = graph.create_node(op("right"));
    let bottom = graph.create_node(op("bottom"));
    order(&mut graph, &top, &left);
    order(&mut graph, &top, &right);
    order(&mut graph, &left, &bottom);
    order(&mut graph, &right, &bottom);
    let below_right =
        let_in(vec![bind("2", leaf("right"))], Expression::Sequence(vec![leaf("bottom")]));
    let expected = let_in(
        vec![bind("0", leaf("top"))],
        Expression::Sequence(vec![leaf("left"), below_right]),
    );
    assert_eq!(translate(graph, &Echo), Ok(Expression::Sequence(vec![expected])));
}

#[test]
fn fold_with_one_result_node_gets_the_second_name() {
    let pairs = vec![
        (query_compiler::graph::EdgeRef { ix: 0 }, NodeRef { ix: 1 }),
        (query_compiler::graph::EdgeRef { ix: 1 }, NodeRef { ix: 2 }),
    ];
    let folded = fold(&pairs, vec![leaf("a"), leaf("b")], 1);
    assert_eq!(folded, let_in(vec![bind("1", leaf("a")), bind("2", leaf("b"))], get("2")));
}

#[test]
fn fold_with_two_result_nodes_gets_the_first_non_empty() {
    let pairs = vec![
        (query_compiler::graph::EdgeRef { ix: 0 }, NodeRef { ix: 1 }),
        (query_compiler::graph::EdgeRef { ix: 1 }, NodeRef { ix: 2 }),
    ];
    let folded = fold(&pairs, vec![leaf("a"), leaf("b")], 2);
    assert_eq!(
        folded,
        let_in(
            vec![bind("1", leaf("a")), bind("2", leaf("b"))],
            Expression::GetFirstNonEmpty { names: vec!["1".to_string(), "2".to_string()] }
        )
    );
}

#[test]
fn multi_result_fold_gets_the_first_non_empty() {
    let mut graph = QueryGraph::new();
    let parent = graph.create_node(op("upsert"));
    let update = graph.create_node(op("update"));
    let create = graph.create_node(op("create"));
    order(&mut graph, &parent, &update);
    order(&mut graph, &parent, &create);
    graph.add_result_node(&update).unwrap();
    graph.add_result_node(&create).unwrap();
    let folded = let_in(
        vec![bind("1", leaf("update")), bind("2", leaf("create"))],
        Expression::GetFirstNonEmpty { names: vec!["1".to_string(), "2".to_string()] },
    );
    let expected =
        let_in(vec![bind("0", leaf("upsert"))], Expression::Sequence(vec![folded]));
    assert_eq!(translate(graph, &Echo), Ok(Expression::Sequence(vec![expected])));
}

#[test]
fn result_node_does_not_descend() {
    let mut graph = QueryGraph::new();
    let parent = graph.create_node(op("read"));
    let child = graph.create_node(op("after"));
    order(&mut graph, &parent, &child);
    graph.add_result_node(&parent).unwrap();
    assert_eq!(translate(graph, &Echo), Ok(Expression::Sequence(vec![leaf("read")])));
}

#[test]
fn single_field_projection_rebinds_the_source() {
    let mut graph = QueryGraph::new();
    let users = graph.create_node(op("find users"));
    let posts = graph.create_node(op("find posts"));
    let selection = FieldSelection::new(vec![field("id", "user_id")]);
    graph
        .create_edge(
            &users,
            &posts,
            QueryGraphDependency::ProjectedDataDependency(selection, Rewrite::Filter),
        )
        .unwrap();
    let child = let_in(
        vec![bind(
            "0",
            Expression::MapField { field: "user_id".to_string(), records: Box::new(get("0")) },
        )],
        leaf_with("find posts", vec![placeholder("0")]),
    );
    let expected =
        let_in(vec![bind("0", leaf("find users"))], Expression::Sequence(vec![child]));
    assert_eq!(translate(graph, &Echo), Ok(Expression::Sequence(vec![expected])));
}

#[test]
fn projected_fields_are_handed_over_by_the_rewrite() {
    let selection = FieldSelection::new(vec![field("id", "user_id")]);
    let record = query_compiler::query::placeholder_fields(&selection, &"7".to_string());
    assert_eq!(record.pairs, vec![(field("id", "user_id"), placeholder("7"))]);
    let filtered = Query::new("q".to_string()).rewrite(Rewrite::Filter, record);
    assert_eq!(filtered.filters.len(), 1);
    assert_eq!(filtered.arguments.len(), 0);
    let record = query_compiler::query::placeholder_fields(&selection, &"7".to_string());
    let injected = filtered.rewrite(Rewrite::Inject, record);
    assert_eq!(injected.filters.len(), 1);
    assert_eq!(injected.arguments.len(), 1);
    assert_eq!(injected.arguments[0].pairs, vec![(field("id", "user_id"), placeholder("7"))]);
}

#[test]
fn edge_from_an_ancestor_is_applied_with_a_placeholder_for_each_field() {
    let mut graph = QueryGraph::new();
    let top = graph.create_node(op("top"));
    let middle = graph.create_node(op("middle"));
    let bottom = graph.create_node(op("bottom"));
    order(&mut graph, &top, &middle);
    let selection = FieldSelection::new(vec![field("a", "col_a"), field("b", "col_b")]);
    graph
        .create_edge(
            &top,
            &bottom,
            QueryGraphDependency::ProjectedDataDependency(selection, Rewrite::Inject),
        )
        .unwrap();
    order(&mut graph, &middle, &bottom);
    let bottom_leaf = leaf_with("bottom", vec![placeholder("0"), placeholder("0")]);
    let middle_expr =
        let_in(vec![bind("1", leaf("middle"))], Expression::Sequence(vec![bottom_leaf]));
    let expected =
        let_in(vec![bind("0", leaf("top"))], Expression::Sequence(vec![middle_expr]));
    assert_eq!(translate(graph, &Echo), Ok(Expression::Sequence(vec![expected])));
}

#[test]
fn multi_field_projection_to_a_child_is_unsupported() {
    let mut graph = QueryGraph::new();
    let users = graph.create_node(op("find users"));
    let posts = graph.create_node(op("find posts"));
    let selection = FieldSelection::new(vec![field("a", "col_a"), field("b", "col_b")]);
    graph
        .create_edge(
            &users,
            &posts,
            QueryGraphDependency::ProjectedDataDependency(selection, Rewrite::Filter),
        )
        .unwrap();
    assert_eq!(
        translate(graph, &Echo),
        Err(TranslateError::Unsupported(UnsupportedShape::MultiFieldProjection))
    );
}

#[test]
fn data_dependency_is_unsupported() {
    let mut graph = QueryGraph::new();
    let a = graph.create_node(op("a"));
    let b = graph.create_node(op("b"));
    graph.create_edge(&a, &b, QueryGraphDependency::DataDependency).unwrap();
    assert_eq!(
        translate(graph, &Echo),
        Err(TranslateError::Unsupported(UnsupportedShape::DataDependency))
    );
}

#[test]
fn then_branch_is_unsupported() {
    let mut graph = QueryGraph::new();
    let a = graph.create_node(op("a"));
    let b = graph.create_node(op("b"));
    graph.create_edge(&a, &b, QueryGraphDependency::Then).unwrap();
    assert_eq!(
        translate(graph, &Echo),
        Err(TranslateError::Unsupported(UnsupportedShape::ThenBranch))
    );
}

#[test]
fn else_branch_is_unsupported() {
    let mut graph = QueryGraph::new();
    let a = graph.create_node(op("a"));
    let b = graph.create_node(op("b"));
    graph.create_edge(&a, &b, QueryGraphDependency::Else).unwrap();
    assert_eq!(
        translate(graph, &Echo),
        Err(TranslateError::Unsupported(UnsupportedShape::ElseBranch))
    );
}

#[test]
fn flow_node_is_unsupported() {
    let mut graph = QueryGraph::new();
    graph.create_node(Node::Flow);
    assert_eq!(
        translate(graph, &Echo),
        Err(TranslateError::Unsupported(UnsupportedShape::FlowNode))
    );
}

#[test]
fn computation_node_is_unsupported() {
    let mut graph = QueryGraph::new();
    graph.create_node(Node::Computation);
    assert_eq!(
        translate(graph, &Echo),
        Err(TranslateError::Unsupported(UnsupportedShape::ComputationNode))
    );
}

#[test]
fn builder_failure_fails_the_translation() {
    let mut graph = QueryGraph::new();
    let a = graph.create_node(op("fine"));
    let b = graph.create_node(op("broken"));
    order(&mut graph, &a, &b);
    assert_eq!(
        translate(graph, &Echo),
        Err(TranslateError::QueryBuildFailure("cannot build broken".to_string()))
    );
}

#[test]
fn visited_node_is_not_translated_again() {
    let mut graph = QueryGraph::new();
    let a = graph.create_node(op("a"));
    graph.mark_visited(&a);
    assert_eq!(translate(graph, &Echo), Err(TranslateError::NodeRevisited("0".to_string())));
}

#[test]
fn node_on_a_cycle_below_a_root_is_no_direct_child() {
    let mut graph = QueryGraph::new();
    let root = graph.create_node(op("root"));
    let a = graph.create_node(op("a"));
    let b = graph.create_node(op("b"));
    order(&mut graph, &root, &a);
    order(&mut graph, &a, &b);
    order(&mut graph, &b, &a);
    // `a` has a parent on the cycle that is never visited before `a`, so
    // `a` is never ready.
    assert_eq!(translate(graph, &Echo), Ok(Expression::Sequence(vec![leaf("root")])));
}

#[test]
fn plucked_edge_fails_the_translation() {
    let mut graph = QueryGraph::new();
    let a = graph.create_node(op("a"));
    let b = graph.create_node(op("b"));
    let edge = graph.create_edge(&a, &b, QueryGraphDependency::ExecutionOrder).unwrap();
    assert_eq!(graph.pluck_edge(&edge), Some(QueryGraphDependency::ExecutionOrder));
    assert_eq!(
        translate(graph, &Echo),
        Err(TranslateError::EdgeContentEmpty { source: "0".to_string(), target: "1".to_string() })
    );
}

#[test]
fn names_are_decimal_positions() {
    let mut graph = QueryGraph::new();
    let mut last = graph.create_node(Node::Empty);
    for _ in 0..12 {
        last = graph.create_node(Node::Empty);
    }
    assert_eq!(last.id(), "12");
    assert_eq!(NodeRef { ix: 0 }.id(), "0");
    assert_eq!(NodeRef { ix: 907 }.id(), "907");
}

/// Whether every name that `e` looks up is among `env` or bound around the
/// place where it is looked up.
fn scoped(e: &Expression, env: &mut Vec<String>) -> bool {
    match e {
        Expression::Sequence(items) => items.iter().all(|item| scoped(item, env)),
        Expression::Get { name } => env.contains(name),
        Expression::GetFirstNonEmpty { names } => names.iter().all(|name| env.contains(name)),
        Expression::MapField { records, .. } => scoped(records, env),
        Expression::Query(_) => true,
        Expression::Let { bindings, expr } => {
            let depth = env.len();
            let mut fine = true;
            for binding in bindings.iter() {
                fine = fine && scoped(&binding.expr, env);
                env.push(binding.name.clone());
            }
            fine = fine && scoped(expr, env);
            env.truncate(depth);
            fine
        }
    }
}

#[test]
fn every_lookup_in_a_plan_is_in_scope() {
    let mut graph = QueryGraph::new();
    let users = graph.create_node(op("find users"));
    let posts = graph.create_node(op("find posts"));
    let likes = graph.create_node(op("find likes"));
    let tags = graph.create_node(op("find tags"));
    let by_user = FieldSelection::new(vec![field("id", "user_id")]);
    let by_post = FieldSelection::new(vec![field("id", "post_id")]);
    graph
        .create_edge(
            &users,
            &posts,
            QueryGraphDependency::ProjectedDataDependency(by_user, Rewrite::Filter),
        )
        .unwrap();
    graph
        .create_edge(
            &posts,
            &likes,
            QueryGraphDependency::ProjectedDataDependency(by_post, Rewrite::Filter),
        )
        .unwrap();
    order(&mut graph, &posts, &tags);
    graph.add_result_node(&likes).unwrap();
    graph.add_result_node(&tags).unwrap();
    let plan = translate(graph, &Echo).unwrap();
    assert!(scoped(&plan, &mut Vec::new()));
    assert!(!scoped(&get("0"), &mut Vec::new()));
}

#[test]
fn translation_consumes_each_node_and_edge_once() {
    let mut graph = QueryGraph::new();
    let parent = graph.create_node(op("parent"));
    let child = graph.create_node(op("child"));
    let other = graph.create_node(op("other"));
    let edge = graph.create_edge(&parent, &child, QueryGraphDependency::ExecutionOrder).unwrap();
    let none: Vec<query_compiler::graph::EdgeRef> = Vec::new();
    let translator = NodeTranslator::new(parent, &none, &Echo);
    let first = translator.translate(&mut graph).0;
    assert_eq!(
        first,
        Ok(let_in(vec![bind("0", leaf("parent"))], Expression::Sequence(vec![leaf("child")])))
    );
    assert_eq!(graph.node_content(&parent), None);
    assert_eq!(graph.node_content(&child), None);
    assert_eq!(graph.edge_content(&edge), None);
    assert!(graph.is_visited(&parent));
    assert!(graph.is_visited(&child));
    assert_eq!(graph.node_content(&other), Some(&op("other")));
    assert!(!graph.is_visited(&other));
    let second = translator.translate(&mut graph).0;
    assert_eq!(second, Err(TranslateError::NodeContentEmpty("0".to_string())));
}

#[test]
fn node_in_translation_is_not_entered_again() {
    let mut graph = QueryGraph::new();
    let a = graph.create_node(op("a"));
    graph.mark_visited(&a);
    let none: Vec<query_compiler::graph::EdgeRef> = Vec::new();
    let translator = NodeTranslator::new(a, &none, &Echo);
    assert_eq!(
        translator.translate_query(&mut graph).0,
        Err(TranslateError::NodeRevisited("0".to_string()))
    );
    assert_eq!(graph.node_content(&a), Some(&op("a")));
}

#[test]
fn independent_roots_give_what_each_gives_alone() {
    let build = |first: bool, second: bool| {
        let mut graph = QueryGraph::new();
        let a = graph.create_node(if first { op("a") } else { Node::Empty });
        let b = graph.create_node(if second { op("b") } else { Node::Empty });
        let a1 = graph.create_node(op("a1"));
        let b1 = graph.create_node(op("b1"));
        if first {
            order(&mut graph, &a, &a1);
        }
        if second {
            order(&mut graph, &b, &b1);
        }
        graph
    };
    let none: Vec<query_compiler::graph::EdgeRef> = Vec::new();
    let mut whole = build(true, true);
    let a_alone = NodeTranslator::new(NodeRef { ix: 0 }, &none, &Echo).translate(&mut whole).0;
    let mut whole = build(true, true);
    let b_alone = NodeTranslator::new(NodeRef { ix: 1 }, &none, &Echo).translate(&mut whole).0;
    assert_eq!(
        translate(build(true, true), &Echo),
        Ok(Expression::Sequence(vec![a_alone.unwrap(), b_alone.unwrap()]))
    );
}

#[test]
fn finish_binds_the_node_only_where_it_has_children() {
    let built = || Ok(DbQuery::new("q".to_string(), Vec::new()));
    assert_eq!(finish("4".to_string(), built(), vec![]), Ok(leaf("q")));
    assert_eq!(
        finish("4".to_string(), built(), vec![leaf("c")]),
        Ok(let_in(vec![bind("4", leaf("q"))], Expression::Sequence(vec![leaf("c")])))
    );
    assert_eq!(
        finish("4".to_string(), Err("refused".to_string()), vec![leaf("c")]),
        Err(TranslateError::QueryBuildFailure("refused".to_string()))
    );
}

#[test]
fn project_wraps_only_where_there_is_a_field() {
    assert_eq!(project(None, "0".to_string(), leaf("c")), leaf("c"));
    assert_eq!(
        project(Some("user_id".to_string()), "0".to_string(), leaf("c")),
        let_in(
            vec![bind(
                "0",
                Expression::MapField { field: "user_id".to_string(), records: Box::new(get("0")) }
            )],
            leaf("c")
        )
    );
}

#[test]
fn projection_without_fields_is_unsupported() {
    let mut graph = QueryGraph::new();
    let a = graph.create_node(op("a"));
    let b = graph.create_node(op("b"));
    graph
        .create_edge(
            &a,
            &b,
            QueryGraphDependency::ProjectedDataDependency(
                FieldSelection::new(vec![]),
                Rewrite::Filter,
            ),
        )
        .unwrap();
    assert_eq!(
        translate(graph, &Echo),
        Err(TranslateError::Unsupported(UnsupportedShape::MultiFieldProjection))
    );
}

#[test]
fn builder_is_asked_after_the_children() {
    let mut graph = QueryGraph::new();
    let a = graph.create_node(op("broken"));
    let b = graph.create_node(op("child"));
    let c = graph.create_node(Node::Flow);
    order(&mut graph, &a, &b);
    order(&mut graph, &a, &c);
    // The child that cannot be translated is met before the builder sees
    // the parent's operation.
    assert_eq!(
        translate(graph, &Echo),
        Err(TranslateError::Unsupported(UnsupportedShape::FlowNode))
    );
}

#[test]
fn a_builder_can_be_handed_over_as_a_trait_object() {
    let mut graph = QueryGraph::new();
    graph.create_node(op("only"));
    let builder: &dyn QueryBuilder = &Echo;
    assert_eq!(translate(graph, builder), Ok(Expression::Sequence(vec![leaf("only")])));
}

#[test]
fn cycle_is_entered_once() {
    let mut graph = QueryGraph::new();
    let a = graph.create_node(op("a"));
    let b = graph.create_node(op("b"));
    order(&mut graph, &a, &b);
    order(&mut graph, &b, &a);
    let none: Vec<query_compiler::graph::EdgeRef> = Vec::new();
    let translator = NodeTranslator::new(a, &none, &Echo);
    // Below `b` the node `a` is marked as visited, so it is not ready again.
    assert_eq!(
        translator.translate(&mut graph).0,
        Ok(let_in(vec![bind("0", leaf("a"))], Expression::Sequence(vec![leaf("b")])))
    );
    // Neither node is a root, so the plan of the whole graph is empty.
    let mut graph = QueryGraph::new();
    let a = graph.create_node(op("a"));
    let b = graph.create_node(op("b"));
    order(&mut graph, &a, &b);
    order(&mut graph, &b, &a);
    assert_eq!(translate(graph, &Echo), Ok(Expression::Sequence(vec![])));
}
