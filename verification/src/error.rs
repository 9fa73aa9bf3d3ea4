use vstd::prelude::*;
use vstd::string::*;
use crate::graph::{decimal, index_to_string, QueryGraphBuilderError};

verus! {

/// A shape of graph that the compiler does not translate.
#[derive(Debug, Clone, Copy, PartialEq, Eq, Structural)]
pub enum UnsupportedShape {
    /// A node that holds a flow.
    FlowNode,
    /// A node that holds a computation.
    ComputationNode,
    /// An edge that hands over the source's whole result.
    DataDependency,
    /// An edge into the branch taken when the source holds.
    ThenBranch,
    /// An edge into the branch taken when the source does not hold.
    ElseBranch,
    /// An edge to a child that selects no field of its source, or more than
    /// one.
    MultiFieldProjection,
}

/// Why a graph could not be turned into a plan.
#[derive(Debug, PartialEq, Eq)]
pub enum TranslateError {
    /// The node of this name holds nothing.
    NodeContentEmpty(String),
    /// The query builder refused an operation, with this message.
    QueryBuildFailure(String),
    /// The graph could not be built.
    GraphBuildError(QueryGraphBuilderError),
    /// The graph holds a shape that is not translated.
    Unsupported(UnsupportedShape),
    /// Translation came back to the node of this name while it was still at
    /// work on it, or the node was marked as visited beforehand.
    NodeRevisited(String),
    /// The edge between the nodes of these names holds nothing.
    EdgeContentEmpty { source: String, target: String },
}

/// What a step of compilation returns.
pub type TranslateResult<T> = Result<T, TranslateError>;

/// The mathematical content of a [`TranslateError`].
pub enum TranslateErrorView {
    NodeContentEmpty(Seq<char>),
    QueryBuildFailure(Seq<char>),
    GraphBuildError(QueryGraphBuilderError),
    Unsupported(UnsupportedShape),
    NodeRevisited(Seq<char>),
    EdgeContentEmpty { source: Seq<char>, target: Seq<char> },
}

impl View for TranslateError {
    type V = TranslateErrorView;

    open spec fn view(&self) -> TranslateErrorView {
        match self {
            TranslateError::NodeContentEmpty(name) => TranslateErrorView::NodeContentEmpty(name@),
            TranslateError::QueryBuildFailure(message) => TranslateErrorView::QueryBuildFailure(
                message@,
            ),
            TranslateError::GraphBuildError(e) => TranslateErrorView::GraphBuildError(*e),
            TranslateError::Unsupported(shape) => TranslateErrorView::Unsupported(*shape),
            TranslateError::NodeRevisited(name) => TranslateErrorView::NodeRevisited(name@),
            TranslateError::EdgeContentEmpty { source, target } => {
                TranslateErrorView::EdgeContentEmpty { source: source@, target: target@ }
            },
        }
    }
}

impl UnsupportedShape {
    /// The shape in words.
    pub open spec fn description(self) -> Seq<char> {
        match self {
            UnsupportedShape::FlowNode => "flow node"@,
            UnsupportedShape::ComputationNode => "computation node"@,
            UnsupportedShape::DataDependency => "data dependency"@,
            UnsupportedShape::ThenBranch => "then branch"@,
            UnsupportedShape::ElseBranch => "else branch"@,
            UnsupportedShape::MultiFieldProjection => "projection of several fields to a child"@,
        }
    }

    /// The shape in words.
    pub fn describe(&self) -> (s: String)
        ensures
            s@ == self.description(),
    {
        match self {
            UnsupportedShape::FlowNode => String::from_str("flow node"),
            UnsupportedShape::ComputationNode => String::from_str("computation node"),
            UnsupportedShape::DataDependency => String::from_str("data dependency"),
            UnsupportedShape::ThenBranch => String::from_str("then branch"),
            UnsupportedShape::ElseBranch => String::from_str("else branch"),
            UnsupportedShape::MultiFieldProjection => String::from_str(
                "projection of several fields to a child",
            ),
        }
    }
}

/// What a graph builder error says.
pub open spec fn builder_message(e: QueryGraphBuilderError) -> Seq<char> {
    match e {
        QueryGraphBuilderError::MissingNode { index } => "the graph has no node "@ + decimal(
            index as nat,
        ),
    }
}

/// What a graph builder error says.
pub fn describe_builder_error(e: &QueryGraphBuilderError) -> (s: String)
    ensures
        s@ == builder_message(*e),
{
    match e {
        QueryGraphBuilderError::MissingNode { index } => {
            let number = index_to_string(*index);
            String::from_str("the graph has no node ").concat(number.as_str())
        },
    }
}

impl TranslateErrorView {
    /// What the error says.
    pub open spec fn message(self) -> Seq<char> {
        match self {
            TranslateErrorView::NodeContentEmpty(name) => "node "@ + name + " has no content"@,
            TranslateErrorView::QueryBuildFailure(message) => "query builder error: "@ + message,
            TranslateErrorView::GraphBuildError(e) => "query graph build error: "@
                + builder_message(e),
            TranslateErrorView::Unsupported(shape) => "unsupported: "@ + shape.description(),
            TranslateErrorView::NodeRevisited(name) => "node "@ + name + " was visited before"@,
            TranslateErrorView::EdgeContentEmpty { source, target } => "edge from node "@ + source
                + " to node "@ + target + " has no content"@,
        }
    }
}

impl TranslateError {
    /// What the error says.
    pub fn message(&self) -> (s: String)
        ensures
            s@ == self@.message(),
    {
        match self {
            TranslateError::NodeContentEmpty(name) => String::from_str("node ").concat(
                name.as_str(),
            ).concat(" has no content"),
            TranslateError::QueryBuildFailure(message) => String::from_str(
                "query builder error: ",
            ).concat(message.as_str()),
            TranslateError::GraphBuildError(e) => {
                let inner = describe_builder_error(e);
                String::from_str("query graph build error: ").concat(inner.as_str())
            },
            TranslateError::Unsupported(shape) => {
                let inner = shape.describe();
                String::from_str("unsupported: ").concat(inner.as_str())
            },
            TranslateError::NodeRevisited(name) => String::from_str("node ").concat(
                name.as_str(),
            ).concat(" was visited before"),
            TranslateError::EdgeContentEmpty { source, target } => String::from_str(
                "edge from node ",
            ).concat(source.as_str()).concat(" to node ").concat(target.as_str()).concat(
                " has no content",
            ),
        }
    }
}

impl From<QueryGraphBuilderError> for TranslateError {
    fn from(e: QueryGraphBuilderError) -> (r: Self) {
        TranslateError::GraphBuildError(e)
    }
}

impl vstd::std_specs::convert::FromSpecImpl<QueryGraphBuilderError> for TranslateError {
    open spec fn obeys_from_spec() -> bool {
        true
    }

    open spec fn from_spec(e: QueryGraphBuilderError) -> Self {
        TranslateError::GraphBuildError(e)
    }
}

} // verus!
