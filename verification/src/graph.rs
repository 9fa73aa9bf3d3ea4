use vstd::prelude::*;
use crate::query::{FieldSelection, Query, QueryView, Rewrite, SelectedFieldView};

verus! {

/// What a node of the graph holds.
#[derive(Debug, PartialEq, Eq)]
pub enum Node {
    /// A pending operation.
    Query(Query),
    /// Kept for branching constructs.
    Flow,
    /// Kept for computed values.
    Computation,
    /// Nothing to do.
    Empty,
}

/// The mathematical content of a [`Node`].
pub enum NodeView {
    Query(QueryView),
    Flow,
    Computation,
    Empty,
}

impl View for Node {
    type V = NodeView;

    open spec fn view(&self) -> NodeView {
        match self {
            Node::Query(q) => NodeView::Query(q@),
            Node::Flow => NodeView::Flow,
            Node::Computation => NodeView::Computation,
            Node::Empty => NodeView::Empty,
        }
    }
}

/// Why the target of an edge depends on its source.
#[derive(Debug, PartialEq, Eq)]
pub enum QueryGraphDependency {
    /// The source runs first; no data flows.
    ExecutionOrder,
    /// The target takes up the selected fields of the source's result.
    ProjectedDataDependency(FieldSelection, Rewrite),
    /// The target takes up the source's whole result.
    DataDependency,
    /// The target runs if the source holds.
    Then,
    /// The target runs if the source does not hold.
    Else,
}

/// The mathematical content of a [`QueryGraphDependency`].
pub enum DependencyView {
    ExecutionOrder,
    ProjectedDataDependency(Seq<SelectedFieldView>, Rewrite),
    DataDependency,
    Then,
    Else,
}

impl View for QueryGraphDependency {
    type V = DependencyView;

    open spec fn view(&self) -> DependencyView {
        match self {
            QueryGraphDependency::ExecutionOrder => DependencyView::ExecutionOrder,
            QueryGraphDependency::ProjectedDataDependency(selection, rewrite) => {
                DependencyView::ProjectedDataDependency(selection@, *rewrite)
            },
            QueryGraphDependency::DataDependency => DependencyView::DataDependency,
            QueryGraphDependency::Then => DependencyView::Then,
            QueryGraphDependency::Else => DependencyView::Else,
        }
    }
}

/// A node of a graph, by its position in it.
#[derive(Debug, Clone, Copy, PartialEq, Eq, Structural)]
pub struct NodeRef {
    pub ix: usize,
}

/// An edge of a graph, by its position in it.
#[derive(Debug, Clone, Copy, PartialEq, Eq, Structural)]
pub struct EdgeRef {
    pub ix: usize,
}

/// The decimal digit for `d`.
pub open spec fn digit(d: nat) -> char {
    if d == 0 {
        '0'
    } else if d == 1 {
        '1'
    } else if d == 2 {
        '2'
    } else if d == 3 {
        '3'
    } else if d == 4 {
        '4'
    } else if d == 5 {
        '5'
    } else if d == 6 {
        '6'
    } else if d == 7 {
        '7'
    } else if d == 8 {
        '8'
    } else {
        '9'
    }
}

/// `n` in decimal, without leading zeros.
pub open spec fn decimal(n: nat) -> Seq<char>
    decreases n,
{
    if n < 10 {
        seq![digit(n)]
    } else {
        decimal(n / 10).push(digit(n % 10))
    }
}

/// The name under which the value of the node at `ix` is bound.
pub open spec fn node_name(ix: int) -> Seq<char> {
    decimal(ix as nat)
}

/// Calls `to_string` of the standard library on a `usize`.  Taken on
/// trust: that the string is the number in decimal, most significant digit
/// first, without sign and without leading zeros.
#[verifier::external_body]
pub(crate) fn index_to_string(ix: usize) -> (s: String)
    ensures
        s@ == decimal(ix as nat),
{
    ix.to_string()
}

impl NodeRef {
    /// The node's identifier, unique in its graph.
    pub fn id(&self) -> (s: String)
        ensures
            s@ == node_name(self.ix as int),
    {
        index_to_string(self.ix)
    }
}

/// A graph could not be built as asked.
#[derive(Debug, Clone, Copy, PartialEq, Eq, Structural)]
pub enum QueryGraphBuilderError {
    /// An edge or a result mark names a node that the graph does not have.
    MissingNode { index: usize },
}

/// The place of a node in a graph: what the node holds, until it is plucked.
#[derive(Debug)]
pub struct NodeSlot {
    pub content: Option<Node>,
    pub visited: bool,
}

/// The place of an edge in a graph: its ends, and what it carries, until it is plucked.
#[derive(Debug)]
pub struct EdgeSlot {
    pub source: usize,
    pub target: usize,
    pub content: Option<QueryGraphDependency>,
}

/// The mathematical content of a [`NodeSlot`].
pub struct NodeSlotView {
    pub content: Option<NodeView>,
    pub visited: bool,
}

/// The mathematical content of an [`EdgeSlot`].
pub struct EdgeSlotView {
    pub source: int,
    pub target: int,
    pub content: Option<DependencyView>,
}

impl View for NodeSlot {
    type V = NodeSlotView;

    open spec fn view(&self) -> NodeSlotView {
        NodeSlotView {
            content: match self.content {
                Some(n) => Some(n@),
                None => None,
            },
            visited: self.visited,
        }
    }
}

impl View for EdgeSlot {
    type V = EdgeSlotView;

    open spec fn view(&self) -> EdgeSlotView {
        EdgeSlotView {
            source: self.source as int,
            target: self.target as int,
            content: match self.content {
                Some(d) => Some(d@),
                None => None,
            },
        }
    }
}

/// The mathematical content of a graph: its slots in the order of their
/// creation, and the nodes marked as results.
pub struct GraphView {
    pub nodes: Seq<NodeSlotView>,
    pub edges: Seq<EdgeSlotView>,
    pub results: Seq<int>,
}

/// The part of a graph that translation never changes: how many nodes it
/// has, which two nodes each edge joins, and which nodes are results.
pub struct Shape {
    pub node_count: nat,
    pub links: Seq<(int, int)>,
    pub results: Seq<int>,
}

impl Shape {
    /// Whether `n` is a node of the graph.
    pub open spec fn has_node(self, n: int) -> bool {
        0 <= n < self.node_count
    }

    /// Whether `e` is an edge of the graph.
    pub open spec fn has_edge(self, e: int) -> bool {
        0 <= e < self.links.len()
    }

    /// Every edge joins two nodes of the graph, and every result is a node.
    pub open spec fn well_formed(self) -> bool {
        &&& forall|e: int| #[trigger]
            self.has_edge(e) ==> self.has_node(self.links[e].0) && self.has_node(self.links[e].1)
        &&& forall|i: int| 0 <= i < self.results.len() ==> self.has_node(#[trigger] self.results[i])
    }

    /// Whether `n` is marked as a result.
    pub open spec fn is_result(self, n: int) -> bool {
        self.results.contains(n)
    }

    /// Whether some edge ends in `n`.
    pub open spec fn has_incoming(self, n: int) -> bool {
        exists|e: int| #[trigger] self.has_edge(e) && self.links[e].1 == n
    }

    /// The nodes below `upto` in which no edge ends, ascending.
    pub open spec fn roots_below(self, upto: int) -> Seq<int>
        decreases upto,
    {
        if upto <= 0 {
            Seq::empty()
        } else if self.has_incoming(upto - 1) {
            self.roots_below(upto - 1)
        } else {
            self.roots_below(upto - 1).push(upto - 1)
        }
    }

    /// The nodes in which no edge ends, ascending.
    pub open spec fn roots(self) -> Seq<int> {
        self.roots_below(self.node_count as int)
    }

    /// The edges below `upto` that end in `n`, ascending.
    pub open spec fn incoming_below(self, n: int, upto: int) -> Seq<int>
        decreases upto,
    {
        if upto <= 0 {
            Seq::empty()
        } else if self.links[upto - 1].1 == n {
            self.incoming_below(n, upto - 1).push(upto - 1)
        } else {
            self.incoming_below(n, upto - 1)
        }
    }

    /// The edges that end in `n`, in the order of their creation.
    pub open spec fn incoming(self, n: int) -> Seq<int> {
        self.incoming_below(n, self.links.len() as int)
    }
}

impl GraphView {
    /// The part of the graph that translation never changes.
    pub open spec fn shape(self) -> Shape {
        Shape {
            node_count: self.nodes.len(),
            links: self.edges.map_values(|e: EdgeSlotView| (e.source, e.target)),
            results: self.results,
        }
    }

    /// Whether `n` is a node of the graph.
    pub open spec fn has_node(self, n: int) -> bool {
        0 <= n < self.nodes.len()
    }

    /// Whether `e` is an edge of the graph.
    pub open spec fn has_edge(self, e: int) -> bool {
        0 <= e < self.edges.len()
    }

    /// Every edge joins two nodes of the graph, and every result is a node.
    pub open spec fn well_formed(self) -> bool {
        self.shape().well_formed()
    }

    /// Whether `n` is marked as a result.
    pub open spec fn is_result(self, n: int) -> bool {
        self.shape().is_result(n)
    }

    /// The graph with `n` marked as visited.
    pub open spec fn mark_visited(self, n: int) -> GraphView {
        GraphView {
            nodes: self.nodes.update(n, NodeSlotView { visited: true, ..self.nodes[n] }),
            ..self
        }
    }

    /// The graph after the content of `n` was taken out.
    pub open spec fn pluck_node(self, n: int) -> GraphView {
        GraphView {
            nodes: self.nodes.update(n, NodeSlotView { content: None, ..self.nodes[n] }),
            ..self
        }
    }

    /// The graph after the content of `e` was taken out.
    pub open spec fn pluck_edge(self, e: int) -> GraphView {
        GraphView {
            edges: self.edges.update(e, EdgeSlotView { content: None, ..self.edges[e] }),
            ..self
        }
    }
}

/// The positions that a list of node references names.
pub open spec fn node_indices(nodes: Seq<NodeRef>) -> Seq<int> {
    nodes.map_values(|n: NodeRef| n.ix as int)
}

/// The positions that a list of edge references names.
pub open spec fn edge_indices(edges: Seq<EdgeRef>) -> Seq<int> {
    edges.map_values(|e: EdgeRef| e.ix as int)
}

/// The positions that a list of edges with their targets names.
pub open spec fn pair_indices(pairs: Seq<(EdgeRef, NodeRef)>) -> Seq<(int, int)> {
    pairs.map_values(|p: (EdgeRef, NodeRef)| (p.0.ix as int, p.1.ix as int))
}

/// A dependency graph of pending operations.
#[derive(Debug)]
pub struct QueryGraph {
    nodes: Vec<NodeSlot>,
    edges: Vec<EdgeSlot>,
    result_nodes: Vec<usize>,
}

impl View for QueryGraph {
    type V = GraphView;

    closed spec fn view(&self) -> GraphView {
        GraphView {
            nodes: self.nodes@.map_values(|s: NodeSlot| s@),
            edges: self.edges@.map_values(|s: EdgeSlot| s@),
            results: self.result_nodes@.map_values(|r: usize| r as int),
        }
    }
}

impl QueryGraph {
    /// The graph without nodes.
    pub fn new() -> (g: Self)
        ensures
            g@.nodes.len() == 0,
            g@.edges.len() == 0,
            g@.results.len() == 0,
            g@.well_formed(),
    {
        QueryGraph { nodes: Vec::new(), edges: Vec::new(), result_nodes: Vec::new() }
    }

    /// Adds a node that holds `content`.
    pub fn create_node(&mut self, content: Node) -> (n: NodeRef)
        requires
            old(self)@.well_formed(),
        ensures
            n.ix == old(self)@.nodes.len(),
            final(self)@ == (GraphView {
                nodes: old(self)@.nodes.push(
                    NodeSlotView { content: Some(content@), visited: false },
                ),
                ..old(self)@
            }),
            final(self)@.well_formed(),
    {
        let ix = self.nodes.len();
        self.nodes.push(NodeSlot { content: Some(content), visited: false });
        assert(self@.nodes =~= old(self)@.nodes.push(
            NodeSlotView { content: Some(content@), visited: false },
        ));
        proof {
            let new = self@.shape();
            let old_shape = old(self)@.shape();
            assert(new.links == old_shape.links);
            assert(new.results == old_shape.results);
            assert forall|e: int| #[trigger] new.has_edge(e) implies new.has_node(new.links[e].0)
                && new.has_node(new.links[e].1) by {
                assert(old_shape.has_edge(e));
            }
            assert forall|i: int| 0 <= i < new.results.len() implies new.has_node(
                #[trigger] new.results[i],
            ) by {
                assert(old_shape.has_node(old_shape.results[i]));
            }
        }
        NodeRef { ix }
    }

    /// Marks `node` as visited; the mark stays.
    pub fn mark_visited(&mut self, node: &NodeRef)
        requires
            old(self)@.has_node(node.ix as int),
        ensures
            final(self)@ == old(self)@.mark_visited(node.ix as int),
    {
        self.nodes[node.ix].visited = true;
        assert(self@.nodes =~= old(self)@.mark_visited(node.ix as int).nodes);
    }

    /// Adds an edge from `from` to `to` that carries `dependency`.
    pub fn create_edge(
        &mut self,
        from: &NodeRef,
        to: &NodeRef,
        dependency: QueryGraphDependency,
    ) -> (r: Result<EdgeRef, QueryGraphBuilderError>)
        requires
            old(self)@.well_formed(),
        ensures
            final(self)@.well_formed(),
            match r {
                Ok(e) => {
                    &&& old(self)@.has_node(from.ix as int)
                    &&& old(self)@.has_node(to.ix as int)
                    &&& e.ix == old(self)@.edges.len()
                    &&& final(self)@ == (GraphView {
                        edges: old(self)@.edges.push(
                            EdgeSlotView {
                                source: from.ix as int,
                                target: to.ix as int,
                                content: Some(dependency@),
                            },
                        ),
                        ..old(self)@
                    })
                },
                Err(QueryGraphBuilderError::MissingNode { index }) => {
                    &&& final(self)@ == old(self)@
                    &&& if !old(self)@.has_node(from.ix as int) {
                        index == from.ix
                    } else {
                        !old(self)@.has_node(to.ix as int) && index == to.ix
                    }
                },
            },
    {
        if from.ix >= self.nodes.len() {
            return Err(QueryGraphBuilderError::MissingNode { index: from.ix });
        }
        if to.ix >= self.nodes.len() {
            return Err(QueryGraphBuilderError::MissingNode { index: to.ix });
        }
        let ix = self.edges.len();
        self.edges.push(EdgeSlot { source: from.ix, target: to.ix, content: Some(dependency) });
        assert(self@.edges =~= old(self)@.edges.push(
            EdgeSlotView {
                source: from.ix as int,
                target: to.ix as int,
                content: Some(dependency@),
            },
        ));
        assert(self@.shape().links =~= old(self)@.shape().links.push(
            (from.ix as int, to.ix as int),
        ));
        proof {
            let new = self@.shape();
            let old_shape = old(self)@.shape();
            assert(new.results == old_shape.results);
            assert forall|e: int| #[trigger] new.has_edge(e) implies new.has_node(new.links[e].0)
                && new.has_node(new.links[e].1) by {
                if e < ix {
                    assert(old_shape.has_edge(e));
                }
            }
            assert forall|i: int| 0 <= i < new.results.len() implies new.has_node(
                #[trigger] new.results[i],
            ) by {
                assert(old_shape.has_node(old_shape.results[i]));
            }
        }
        Ok(EdgeRef { ix })
    }

    /// Marks `node` as one whose value the caller of the plan sees.  Marking
    /// a node twice changes nothing.
    pub fn add_result_node(&mut self, node: &NodeRef) -> (r: Result<(), QueryGraphBuilderError>)
        requires
            old(self)@.well_formed(),
        ensures
            final(self)@.well_formed(),
            match r {
                Ok(_) => {
                    &&& old(self)@.has_node(node.ix as int)
                    &&& final(self)@ == (GraphView {
                        results: if old(self)@.is_result(node.ix as int) {
                            old(self)@.results
                        } else {
                            old(self)@.results.push(node.ix as int)
                        },
                        ..old(self)@
                    })
                },
                Err(QueryGraphBuilderError::MissingNode { index }) => {
                    &&& !old(self)@.has_node(node.ix as int)
                    &&& index == node.ix
                    &&& final(self)@ == old(self)@
                },
            },
    {
        if node.ix >= self.nodes.len() {
            return Err(QueryGraphBuilderError::MissingNode { index: node.ix });
        }
        if !self.is_result_node(node) {
            self.result_nodes.push(node.ix);
            assert(self@.results =~= old(self)@.results.push(node.ix as int));
            assert(self@.shape().links == old(self)@.shape().links);
            assert(forall|e: int| #[trigger]
                self@.shape().has_edge(e) ==> old(self)@.shape().has_edge(e));
            assert forall|i: int| 0 <= i < self@.results.len() implies self@.has_node(
                #[trigger] self@.results[i],
            ) by {
                if i < old(self)@.results.len() {
                    assert(self@.results[i] == old(self)@.results[i]);
                }
            }
        }
        Ok(())
    }

    /// Whether every edge joins two nodes of the graph and every result is
    /// a node.  A graph made by the functions of this module always is.
    pub fn is_well_formed(&self) -> (b: bool)
        ensures
            b == self@.well_formed(),
    {
        let n = self.nodes.len();
        let mut e: usize = 0;
        while e < self.edges.len()
            invariant
                e <= self.edges.len(),
                n == self.nodes.len(),
                forall|j: int|
                    0 <= j < e ==> (#[trigger] self.edges@[j]).source < n && self.edges@[j].target
                        < n,
            decreases self.edges.len() - e,
        {
            if self.edges[e].source >= n || self.edges[e].target >= n {
                proof {
                    let shape = self@.shape();
                    assert(shape.has_edge(e as int));
                    assert(shape.links[e as int] == (
                        self.edges@[e as int].source as int,
                        self.edges@[e as int].target as int,
                    ));
                }
                return false;
            }
            e += 1;
        }
        let mut i: usize = 0;
        while i < self.result_nodes.len()
            invariant
                i <= self.result_nodes.len(),
                n == self.nodes.len(),
                forall|j: int| 0 <= j < i ==> #[trigger] self.result_nodes@[j] < n,
            decreases self.result_nodes.len() - i,
        {
            if self.result_nodes[i] >= n {
                proof {
                    let shape = self@.shape();
                    assert(shape.results[i as int] == self.result_nodes@[i as int] as int);
                }
                return false;
            }
            i += 1;
        }
        proof {
            let shape = self@.shape();
            assert forall|x: int| #[trigger] shape.has_edge(x) implies shape.has_node(
                shape.links[x].0,
            ) && shape.has_node(shape.links[x].1) by {
                let slot = self.edges@[x];
            }
            assert forall|x: int| 0 <= x < shape.results.len() implies shape.has_node(
                #[trigger] shape.results[x],
            ) by {
                let r = self.result_nodes@[x];
            }
        }
        true
    }

    /// How many nodes the graph has.
    pub fn node_count(&self) -> (n: usize)
        ensures
            n == self@.nodes.len(),
    {
        self.nodes.len()
    }

    /// How many edges the graph has.
    pub fn edge_count(&self) -> (n: usize)
        ensures
            n == self@.edges.len(),
    {
        self.edges.len()
    }

    /// What `node` holds, if it still holds anything.
    pub fn node_content(&self, node: &NodeRef) -> (content: Option<&Node>)
        requires
            self@.has_node(node.ix as int),
        ensures
            match content {
                Some(c) => self@.nodes[node.ix as int].content == Some(c@),
                None => self@.nodes[node.ix as int].content is None,
            },
    {
        self.nodes[node.ix].content.as_ref()
    }

    /// Whether `node` is marked as visited.
    pub fn is_visited(&self, node: &NodeRef) -> (b: bool)
        requires
            self@.has_node(node.ix as int),
        ensures
            b == self@.nodes[node.ix as int].visited,
    {
        self.nodes[node.ix].visited
    }

    /// Whether `node` is marked as a result.
    pub fn is_result_node(&self, node: &NodeRef) -> (b: bool)
        ensures
            b == self@.is_result(node.ix as int),
    {
        let mut i: usize = 0;
        while i < self.result_nodes.len()
            invariant
                i <= self.result_nodes.len(),
                forall|j: int| 0 <= j < i ==> self@.results[j] != node.ix as int,
            decreases self.result_nodes.len() - i,
        {
            if self.result_nodes[i] == node.ix {
                assert(self@.results[i as int] == node.ix as int);
                return true;
            }
            i += 1;
        }
        false
    }

    /// The nodes marked as results, in the order in which they were marked.
    pub fn result_nodes(&self) -> (r: Vec<NodeRef>)
        ensures
            node_indices(r@) == self@.results,
    {
        let mut out: Vec<NodeRef> = Vec::new();
        let mut i: usize = 0;
        while i < self.result_nodes.len()
            invariant
                i <= self.result_nodes.len(),
                out@.len() == i,
                forall|j: int| 0 <= j < i ==> out@[j].ix as int == self@.results[j],
            decreases self.result_nodes.len() - i,
        {
            out.push(NodeRef { ix: self.result_nodes[i] });
            i += 1;
        }
        assert(node_indices(out@) =~= self@.results);
        out
    }

    /// The edge's content, if it still holds any.
    pub fn edge_content(&self, edge: &EdgeRef) -> (content: Option<&QueryGraphDependency>)
        requires
            self@.has_edge(edge.ix as int),
        ensures
            match content {
                Some(c) => self@.edges[edge.ix as int].content == Some(c@),
                None => self@.edges[edge.ix as int].content is None,
            },
    {
        self.edges[edge.ix].content.as_ref()
    }

    /// The node that `edge` leaves.
    pub fn edge_source(&self, edge: &EdgeRef) -> (n: NodeRef)
        requires
            self@.has_edge(edge.ix as int),
        ensures
            n.ix as int == self@.edges[edge.ix as int].source,
    {
        NodeRef { ix: self.edges[edge.ix].source }
    }

    /// The node in which `edge` ends.
    pub fn edge_target(&self, edge: &EdgeRef) -> (n: NodeRef)
        requires
            self@.has_edge(edge.ix as int),
        ensures
            n.ix as int == self@.edges[edge.ix as int].target,
    {
        NodeRef { ix: self.edges[edge.ix].target }
    }

    /// Takes out what `edge` carries, if it still carries anything, and leaves it empty.
    pub fn pluck_edge(&mut self, edge: &EdgeRef) -> (content: Option<QueryGraphDependency>)
        requires
            old(self)@.has_edge(edge.ix as int),
        ensures
            final(self)@ == old(self)@.pluck_edge(edge.ix as int),
            match content {
                Some(c) => old(self)@.edges[edge.ix as int].content == Some(c@),
                None => old(self)@.edges[edge.ix as int].content is None,
            },
    {
        let content = self.edges[edge.ix].content.take();
        assert(self@.edges =~= old(self)@.pluck_edge(edge.ix as int).edges);
        content
    }

    fn has_incoming_edge(&self, ix: usize) -> (b: bool)
        ensures
            b == self@.shape().has_incoming(ix as int),
    {
        let mut e: usize = 0;
        while e < self.edges.len()
            invariant
                e <= self.edges.len(),
                forall|j: int| 0 <= j < e ==> self@.edges[j].target != ix as int,
            decreases self.edges.len() - e,
        {
            if self.edges[e].target == ix {
                assert(self@.shape().has_edge(e as int));
                return true;
            }
            e += 1;
        }
        false
    }

    /// The nodes in which no edge ends, in the order of their creation.
    pub fn root_nodes(&self) -> (r: Vec<NodeRef>)
        ensures
            node_indices(r@) == self@.shape().roots(),
    {
        let mut out: Vec<NodeRef> = Vec::new();
        let mut i: usize = 0;
        while i < self.nodes.len()
            invariant
                i <= self.nodes.len(),
                node_indices(out@) == self@.shape().roots_below(i as int),
            decreases self.nodes.len() - i,
        {
            let ghost before = out@;
            if !self.has_incoming_edge(i) {
                out.push(NodeRef { ix: i });
                assert(node_indices(out@) =~= node_indices(before).push(i as int));
            }
            i += 1;
        }
        out
    }

    /// The edges that end in `node`, in the order of their creation.
    pub fn incoming_edges(&self, node: &NodeRef) -> (r: Vec<EdgeRef>)
        ensures
            edge_indices(r@) == self@.shape().incoming(node.ix as int),
    {
        let mut out: Vec<EdgeRef> = Vec::new();
        let mut e: usize = 0;
        while e < self.edges.len()
            invariant
                e <= self.edges.len(),
                edge_indices(out@) == self@.shape().incoming_below(node.ix as int, e as int),
            decreases self.edges.len() - e,
        {
            let ghost before = out@;
            if self.edges[e].target == node.ix {
                out.push(EdgeRef { ix: e });
                assert(edge_indices(out@) =~= edge_indices(before).push(e as int));
            }
            e += 1;
        }
        out
    }

    /// Takes out what `node` holds, if it still holds anything, and leaves it empty.
    pub fn pluck_node(&mut self, node: &NodeRef) -> (content: Option<Node>)
        requires
            old(self)@.has_node(node.ix as int),
        ensures
            final(self)@ == old(self)@.pluck_node(node.ix as int),
            match content {
                Some(c) => old(self)@.nodes[node.ix as int].content == Some(c@),
                None => old(self)@.nodes[node.ix as int].content is None,
            },
    {
        let content = self.nodes[node.ix].content.take();
        assert(self@.nodes =~= old(self)@.pluck_node(node.ix as int).nodes);
        content
    }
}

proof fn lemma_decimal_len(n: nat)
    ensures
        decimal(n).len() >= 1,
        n >= 10 ==> decimal(n).len() >= 2,
    decreases n,
{
    if n >= 10 {
        lemma_decimal_len(n / 10);
    }
}

proof fn lemma_decimal_injective(a: nat, b: nat)
    requires
        decimal(a) == decimal(b),
    ensures
        a == b,
    decreases a,
{
    lemma_decimal_len(a);
    lemma_decimal_len(b);
    if a < 10 || b < 10 {
        assert(a < 10 && b < 10);
        assert(decimal(a)[0] == digit(a));
        assert(decimal(b)[0] == digit(b));
    } else {
        let front_a = decimal(a / 10);
        let front_b = decimal(b / 10);
        let last_a = digit(a % 10);
        let last_b = digit(b % 10);
        assert(front_a.push(last_a).drop_last() =~= front_a);
        assert(front_b.push(last_b).drop_last() =~= front_b);
        assert(front_a.push(last_a).last() == last_a);
        assert(front_b.push(last_b).last() == last_b);
        assert(front_a == front_b);
        assert(last_a == last_b);
        lemma_decimal_injective(a / 10, b / 10);
        assert(a % 10 == b % 10);
    }
}

/// No two nodes of a graph have the same name.
pub proof fn lemma_names_unique(a: int, b: int)
    requires
        0 <= a,
        0 <= b,
        node_name(a) == node_name(b),
    ensures
        a == b,
{
    lemma_decimal_injective(a as nat, b as nat);
}

} // verus!
