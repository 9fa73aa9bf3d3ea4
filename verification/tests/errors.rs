use query_compiler::error::{describe_builder_error, TranslateError, UnsupportedShape};
use query_compiler::graph::QueryGraphBuilderError;

#[test]
fn messages_name_what_went_wrong() {
    assert_eq!(
        TranslateError::NodeContentEmpty("3".to_string()).message(),
        "node 3 has no content"
    );
    assert_eq!(
        TranslateError::QueryBuildFailure("no such table".to_string()).message(),
        "query builder error: no such table"
    );
    assert_eq!(
        TranslateError::GraphBuildError(QueryGraphBuilderError::MissingNode { index: 12 })
            .message(),
        "query graph build error: the graph has no node 12"
    );
    assert_eq!(
        TranslateError::NodeRevisited("0".to_string()).message(),
        "node 0 was visited before"
    );
    assert_eq!(
        TranslateError::EdgeContentEmpty { source: "1".to_string(), target: "20".to_string() }
            .message(),
        "edge from node 1 to node 20 has no content"
    );
}

#[test]
fn unsupported_shapes_are_described() {
    assert_eq!(
        TranslateError::Unsupported(UnsupportedShape::FlowNode).message(),
        "unsupported: flow node"
    );
    assert_eq!(UnsupportedShape::ComputationNode.describe(), "computation node");
    assert_eq!(UnsupportedShape::DataDependency.describe(), "data dependency");
    assert_eq!(UnsupportedShape::ThenBranch.describe(), "then branch");
    assert_eq!(UnsupportedShape::ElseBranch.describe(), "else branch");
    assert_eq!(
        UnsupportedShape::MultiFieldProjection.describe(),
        "projection of several fields to a child"
    );
}

#[test]
fn builder_errors_become_translate_errors() {
    let e = QueryGraphBuilderError::MissingNode { index: 4 };
    assert_eq!(describe_builder_error(&e), "the graph has no node 4");
    assert_eq!(TranslateError::from(e), TranslateError::GraphBuildError(e));
}
