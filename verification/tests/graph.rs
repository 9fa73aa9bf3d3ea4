use query_compiler::graph::{
    EdgeRef, Node, NodeRef, QueryGraph, QueryGraphBuilderError, QueryGraphDependency,
};
use query_compiler::query::Query;

fn op(name: &str) -> Node {
    Node::Query(Query::new(name.to_string()))
}

fn order(graph: &mut QueryGraph, from: &NodeRef, to: &NodeRef) -> EdgeRef {
    graph.create_edge(from, to, QueryGraphDependency::ExecutionOrder).unwrap()
}

/// top -> middle -> bottom, and top -> bottom.
fn triangle() -> (QueryGraph, [NodeRef; 3], [EdgeRef; 3]) {
    let mut graph = QueryGraph::new();
    let top = graph.create_node(op("top"));
    let middle = graph.create_node(op("middle"));
    let bottom = graph.create_node(op("bottom"));
    let a = order(&mut graph, &top, &middle);
    let b = order(&mut graph, &top, &bottom);
    let c = order(&mut graph, &middle, &bottom);
    (graph, [top, middle, bottom], [a, b, c])
}

#[test]
fn nodes_and_edges_are_numbered_in_order_of_creation() {
    let (graph, nodes, edges) = triangle();
    assert_eq!(nodes, [NodeRef { ix: 0 }, NodeRef { ix: 1 }, NodeRef { ix: 2 }]);
    assert_eq!(edges, [EdgeRef { ix: 0 }, EdgeRef { ix: 1 }, EdgeRef { ix: 2 }]);
    assert_eq!(graph.node_count(), 3);
    assert_eq!(graph.edge_count(), 3);
}

#[test]
fn roots_are_the_nodes_without_incoming_edges() {
    let (mut graph, nodes, _) = triangle();
    assert_eq!(graph.root_nodes(), vec![nodes[0]]);
    let lone = graph.create_node(Node::Empty);
    assert_eq!(graph.root_nodes(), vec![nodes[0], lone]);
    assert_eq!(QueryGraph::new().root_nodes(), vec![]);
}

#[test]
fn incoming_edges_come_in_order_of_creation() {
    let (graph, nodes, edges) = triangle();
    assert_eq!(graph.incoming_edges(&nodes[0]), vec![]);
    assert_eq!(graph.incoming_edges(&nodes[1]), vec![edges[0]]);
    assert_eq!(graph.incoming_edges(&nodes[2]), vec![edges[1], edges[2]]);
}

#[test]
fn edge_ends_are_kept() {
    let (graph, nodes, edges) = triangle();
    assert_eq!(graph.edge_source(&edges[1]), nodes[0]);
    assert_eq!(graph.edge_target(&edges[1]), nodes[2]);
    assert_eq!(graph.edge_source(&edges[2]), nodes[1]);
}

#[test]
fn no_node_is_ready_before_its_parents_are_visited() {
    let (graph, nodes, _) = triangle();
    assert_eq!(graph.direct_child_pairs(&nodes[0]), vec![]);
    assert!(!graph.is_ready(&nodes[1]));
    assert!(graph.is_ready(&nodes[0]));
}

#[test]
fn a_child_of_two_parents_stands_below_the_one_visited_last() {
    let (mut graph, nodes, edges) = triangle();
    graph.mark_visited(&nodes[0]);
    assert_eq!(graph.direct_child_pairs(&nodes[0]), vec![(edges[0], nodes[1])]);
    graph.mark_visited(&nodes[1]);
    assert_eq!(graph.direct_child_pairs(&nodes[1]), vec![(edges[2], nodes[2])]);
    assert_eq!(graph.direct_child_pairs(&nodes[0]), vec![(edges[1], nodes[2])]);
    graph.mark_visited(&nodes[2]);
    assert_eq!(graph.direct_child_pairs(&nodes[1]), vec![]);
    assert_eq!(graph.direct_child_pairs(&nodes[2]), vec![]);
}

#[test]
fn a_child_of_two_unrelated_parents_stands_below_the_second() {
    let mut graph = QueryGraph::new();
    let left = graph.create_node(op("left"));
    let right = graph.create_node(op("right"));
    let child = graph.create_node(op("child"));
    order(&mut graph, &left, &child);
    let from_right = order(&mut graph, &right, &child);
    graph.mark_visited(&left);
    assert_eq!(graph.direct_child_pairs(&left), vec![]);
    graph.mark_visited(&right);
    assert_eq!(graph.direct_child_pairs(&right), vec![(from_right, child)]);
}

#[test]
fn children_come_in_order_of_their_edges() {
    let mut graph = QueryGraph::new();
    let parent = graph.create_node(op("parent"));
    let a = graph.create_node(op("a"));
    let b = graph.create_node(op("b"));
    let second = order(&mut graph, &parent, &b);
    let first = order(&mut graph, &parent, &a);
    graph.mark_visited(&parent);
    assert_eq!(graph.direct_child_pairs(&parent), vec![(second, b), (first, a)]);
}

#[test]
fn well_formed_graphs_are_recognised() {
    let (graph, _, _) = triangle();
    assert!(graph.is_well_formed());
    assert!(QueryGraph::new().is_well_formed());
}

#[test]
fn edge_to_a_missing_node_is_refused() {
    let mut graph = QueryGraph::new();
    let a = graph.create_node(op("a"));
    let nowhere = NodeRef { ix: 7 };
    assert_eq!(
        graph.create_edge(&a, &nowhere, QueryGraphDependency::ExecutionOrder),
        Err(QueryGraphBuilderError::MissingNode { index: 7 })
    );
    assert_eq!(
        graph.create_edge(&NodeRef { ix: 9 }, &nowhere, QueryGraphDependency::ExecutionOrder),
        Err(QueryGraphBuilderError::MissingNode { index: 9 })
    );
    assert_eq!(graph.edge_count(), 0);
}

#[test]
fn result_mark_on_a_missing_node_is_refused() {
    let mut graph = QueryGraph::new();
    assert_eq!(
        graph.add_result_node(&NodeRef { ix: 0 }),
        Err(QueryGraphBuilderError::MissingNode { index: 0 })
    );
    assert_eq!(graph.result_nodes(), vec![]);
}

#[test]
fn result_nodes_are_kept_once_in_order_of_marking() {
    let (mut graph, nodes, _) = triangle();
    graph.add_result_node(&nodes[2]).unwrap();
    graph.add_result_node(&nodes[1]).unwrap();
    graph.add_result_node(&nodes[2]).unwrap();
    assert_eq!(graph.result_nodes(), vec![nodes[2], nodes[1]]);
    assert!(graph.is_result_node(&nodes[1]));
    assert!(!graph.is_result_node(&nodes[0]));
}

#[test]
fn subgraph_contains_result_follows_the_edges() {
    let mut graph = QueryGraph::new();
    let a = graph.create_node(op("a"));
    let b = graph.create_node(op("b"));
    let c = graph.create_node(op("c"));
    let d = graph.create_node(op("d"));
    order(&mut graph, &a, &b);
    order(&mut graph, &b, &c);
    order(&mut graph, &a, &d);
    graph.add_result_node(&c).unwrap();
    assert!(graph.subgraph_contains_result(&a));
    assert!(graph.subgraph_contains_result(&b));
    assert!(graph.subgraph_contains_result(&c));
    assert!(!graph.subgraph_contains_result(&d));
}

#[test]
fn reaching_marks_what_leads_to_a_seed_also_round_a_cycle() {
    let mut graph = QueryGraph::new();
    let a = graph.create_node(op("a"));
    let b = graph.create_node(op("b"));
    let c = graph.create_node(op("c"));
    let d = graph.create_node(op("d"));
    order(&mut graph, &a, &b);
    order(&mut graph, &b, &a);
    order(&mut graph, &b, &c);
    order(&mut graph, &d, &d);
    assert_eq!(
        graph.reaching(vec![false, false, true, false]),
        vec![true, true, true, false]
    );
    assert_eq!(
        graph.reaching(vec![false, false, false, false]),
        vec![false, false, false, false]
    );
    assert_eq!(graph.reaching(vec![true, false, false, true]), vec![true, true, false, true]);
}

#[test]
fn partition_keeps_the_order_within_each_group() {
    let mut graph = QueryGraph::new();
    let parent = graph.create_node(op("parent"));
    let r1 = graph.create_node(op("r1"));
    let e1 = graph.create_node(op("e1"));
    let r2 = graph.create_node(op("r2"));
    let e2 = graph.create_node(op("e2"));
    let to_r1 = order(&mut graph, &parent, &r1);
    let to_e1 = order(&mut graph, &parent, &e1);
    let to_r2 = order(&mut graph, &parent, &r2);
    let to_e2 = order(&mut graph, &parent, &e2);
    graph.add_result_node(&r2).unwrap();
    graph.add_result_node(&r1).unwrap();
    graph.mark_visited(&parent);
    let pairs = graph.direct_child_pairs(&parent);
    let (effects, results) = graph.partition_children(&pairs);
    assert_eq!(effects, vec![(to_e1, e1), (to_e2, e2)]);
    assert_eq!(results, vec![(to_r1, r1), (to_r2, r2)]);
}

#[test]
fn plucking_takes_the_content_once() {
    let (mut graph, nodes, edges) = triangle();
    assert_eq!(graph.node_content(&nodes[1]), Some(&op("middle")));
    assert_eq!(graph.pluck_node(&nodes[1]), Some(op("middle")));
    assert_eq!(graph.pluck_node(&nodes[1]), None);
    assert_eq!(graph.node_content(&nodes[1]), None);
    assert_eq!(graph.node_content(&nodes[0]), Some(&op("top")));
    assert_eq!(graph.edge_content(&edges[0]), Some(&QueryGraphDependency::ExecutionOrder));
    assert_eq!(graph.pluck_edge(&edges[0]), Some(QueryGraphDependency::ExecutionOrder));
    assert_eq!(graph.pluck_edge(&edges[0]), None);
    assert_eq!(graph.edge_content(&edges[0]), None);
    assert_eq!(graph.edge_content(&edges[1]), Some(&QueryGraphDependency::ExecutionOrder));
}

#[test]
fn visited_mark_stays() {
    let (mut graph, nodes, _) = triangle();
    assert!(!graph.is_visited(&nodes[1]));
    graph.mark_visited(&nodes[1]);
    graph.mark_visited(&nodes[1]);
    assert!(graph.is_visited(&nodes[1]));
    assert!(!graph.is_visited(&nodes[0]));
}
