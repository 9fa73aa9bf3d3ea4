use vstd::prelude::*;
use crate::graph::{pair_indices, EdgeRef, EdgeSlotView, GraphView, NodeRef, QueryGraph, Shape};

verus! {

impl Shape {
    /// Whether some edge leads from `a` to `b`.
    pub open spec fn linked(self, a: int, b: int) -> bool {
        exists|e: int| #[trigger]
            self.has_edge(e) && self.links[e].0 == a && self.links[e].1 == b
    }

    /// Whether an edge leads from the node at position `i` of `p` to the next.
    pub open spec fn step(self, p: Seq<int>, i: int) -> bool {
        self.linked(p[i], p[i + 1])
    }

    /// Whether `p` lists nodes along edges of the graph.
    pub open spec fn is_path(self, p: Seq<int>) -> bool {
        &&& p.len() > 0
        &&& forall|i: int| 0 <= i < p.len() - 1 ==> #[trigger] self.step(p, i)
    }

    /// Whether `b` can be reached from `a` along edges; every node reaches
    /// itself.
    pub open spec fn reaches(self, a: int, b: int) -> bool {
        exists|p: Seq<int>| #[trigger] self.is_path(p) && p[0] == a && p.last() == b
    }

    /// Whether a result node can be reached from `n`.
    pub open spec fn contains_result(self, n: int) -> bool {
        exists|r: int| #[trigger] self.is_result(r) && self.reaches(n, r)
    }

    /// Those of `pairs`, in their order, whose target reaches a result
    /// (`bearing`) or reaches none (`!bearing`).
    pub open spec fn select(self, pairs: Seq<(int, int)>, bearing: bool) -> Seq<(int, int)>
        decreases pairs.len(),
    {
        if pairs.len() == 0 {
            Seq::empty()
        } else if self.contains_result(pairs.last().1) == bearing {
            self.select(pairs.drop_last(), bearing).push(pairs.last())
        } else {
            self.select(pairs.drop_last(), bearing)
        }
    }
}

impl GraphView {
    /// Whether `edge` either does not end in `child` or comes from a node
    /// that is marked as visited.
    pub open spec fn from_visited(self, edge: EdgeSlotView, child: int) -> bool {
        edge.target == child ==> self.nodes[edge.source].visited
    }

    /// Whether `child` is ready to be translated: it is not marked as
    /// visited, and every node from which an edge leads to it is.
    pub open spec fn is_ready(self, child: int) -> bool {
        &&& !self.nodes[child].visited
        &&& forall|e: int|
            0 <= e < self.edges.len() ==> self.from_visited(#[trigger] self.edges[e], child)
    }

    /// The edges below `upto` that leave `n` for a node that is ready, each
    /// with its target, ascending.
    pub open spec fn child_pairs_below(self, n: int, upto: int) -> Seq<(int, int)>
        decreases upto,
    {
        if upto <= 0 {
            Seq::empty()
        } else if self.edges[upto - 1].source == n && self.is_ready(self.edges[upto - 1].target) {
            self.child_pairs_below(n, upto - 1).push((upto - 1, self.edges[upto - 1].target))
        } else {
            self.child_pairs_below(n, upto - 1)
        }
    }

    /// The direct children of `n` as the graph stands: the edges that leave
    /// `n` for a node that is ready, each with its target, in the order of
    /// their creation.  A node with several parents is ready only once the
    /// last of them is visited, so it is the direct child of that one.
    pub open spec fn child_pairs(self, n: int) -> Seq<(int, int)> {
        self.child_pairs_below(n, self.edges.len() as int)
    }
}

/// Whether each of `pairs` is an edge of the graph with the node it ends in.
pub open spec fn joined(g: Shape, pairs: Seq<(int, int)>) -> bool {
    forall|i: int|
        0 <= i < pairs.len() ==> g.has_edge((#[trigger] pairs[i]).0) && g.links[pairs[i].0].1
            == pairs[i].1 && g.has_node(pairs[i].1)
}

/// The direct children of `n` are nodes of the graph that are ready, each
/// with an edge that leads to it from `n`.
pub proof fn lemma_child_pairs_joined(g: GraphView, n: int, upto: int)
    requires
        g.well_formed(),
        0 <= upto <= g.edges.len(),
    ensures
        joined(g.shape(), g.child_pairs_below(n, upto)),
        forall|i: int|
            0 <= i < g.child_pairs_below(n, upto).len() ==> g.shape().links[(
            #[trigger] g.child_pairs_below(n, upto)[i]).0].0 == n && g.is_ready(
                g.child_pairs_below(n, upto)[i].1,
            ),
    decreases upto,
{
    if upto > 0 {
        lemma_child_pairs_joined(g, n, upto - 1);
        assert(g.shape().has_edge(upto - 1));
        let prev = g.child_pairs_below(n, upto - 1);
        let cur = g.child_pairs_below(n, upto);
        assert forall|i: int| 0 <= i < cur.len() implies g.shape().has_edge((#[trigger] cur[i]).0)
            && g.shape().links[cur[i].0].1 == cur[i].1 && g.shape().has_node(cur[i].1)
            && g.shape().links[cur[i].0].0 == n && g.is_ready(cur[i].1) by {
            if i < prev.len() {
                assert(cur[i] == prev[i]);
            }
        }
    }
}

/// The edges that end in a node end in it.
pub proof fn lemma_incoming_targets(g: Shape, n: int, upto: int)
    requires
        0 <= upto <= g.links.len(),
    ensures
        forall|i: int|
            0 <= i < g.incoming_below(n, upto).len() ==> g.links[#[trigger] g.incoming_below(
                n,
                upto,
            )[i]].1 == n,
    decreases upto,
{
    if upto > 0 {
        lemma_incoming_targets(g, n, upto - 1);
        let prev = g.incoming_below(n, upto - 1);
        let cur = g.incoming_below(n, upto);
        assert forall|i: int| 0 <= i < cur.len() implies g.links[#[trigger] cur[i]].1 == n by {
            if i < prev.len() {
                assert(cur[i] == prev[i]);
            }
        }
    }
}

/// A group of children is made of edges and nodes of the graph, as the children are.
pub proof fn lemma_select_joined(g: Shape, pairs: Seq<(int, int)>, bearing: bool)
    requires
        joined(g, pairs),
    ensures
        joined(g, g.select(pairs, bearing)),
    decreases pairs.len(),
{
    if pairs.len() > 0 {
        assert(joined(g, pairs.drop_last())) by {
            assert forall|i: int| 0 <= i < pairs.drop_last().len() implies g.has_edge(
                (#[trigger] pairs.drop_last()[i]).0,
            ) && g.links[pairs.drop_last()[i].0].1 == pairs.drop_last()[i].1 && g.has_node(
                pairs.drop_last()[i].1,
            ) by {
                assert(pairs.drop_last()[i] == pairs[i]);
            }
        }
        lemma_select_joined(g, pairs.drop_last(), bearing);
        let last = pairs[pairs.len() - 1];
        assert(g.has_edge(last.0));
    }
}

/// The edges that end in a node are edges of the graph.
pub proof fn lemma_incoming_edges(g: Shape, n: int, upto: int)
    requires
        0 <= upto <= g.links.len(),
    ensures
        forall|i: int|
            0 <= i < g.incoming_below(n, upto).len() ==> g.has_edge(
                #[trigger] g.incoming_below(n, upto)[i],
            ),
    decreases upto,
{
    if upto > 0 {
        lemma_incoming_edges(g, n, upto - 1);
        let prev = g.incoming_below(n, upto - 1);
        let cur = g.incoming_below(n, upto);
        assert forall|i: int| 0 <= i < cur.len() implies g.has_edge(#[trigger] cur[i]) by {
            if i < prev.len() {
                assert(cur[i] == prev[i]);
                assert(g.has_edge(prev[i]));
            }
        }
    }
}

/// The roots are nodes of the graph.
pub proof fn lemma_roots_are_nodes(g: Shape, upto: int)
    requires
        0 <= upto <= g.node_count,
    ensures
        forall|i: int|
            0 <= i < g.roots_below(upto).len() ==> g.has_node(#[trigger] g.roots_below(upto)[i]),
    decreases upto,
{
    if upto > 0 {
        lemma_roots_are_nodes(g, upto - 1);
        let prev = g.roots_below(upto - 1);
        let cur = g.roots_below(upto);
        assert forall|i: int| 0 <= i < cur.len() implies g.has_node(#[trigger] cur[i]) by {
            if i < prev.len() {
                assert(cur[i] == prev[i]);
                assert(g.has_node(prev[i]));
            }
        }
    }
}

/// How many entries of `s` are set.
pub open spec fn count_set(s: Seq<bool>) -> nat
    decreases s.len(),
{
    if s.len() == 0 {
        0
    } else {
        count_set(s.drop_last()) + if s.last() {
            1nat
        } else {
            0nat
        }
    }
}

proof fn lemma_count_set_bound(s: Seq<bool>)
    ensures
        count_set(s) <= s.len(),
    decreases s.len(),
{
    if s.len() > 0 {
        lemma_count_set_bound(s.drop_last());
    }
}

proof fn lemma_count_set_update(s: Seq<bool>, i: int)
    requires
        0 <= i < s.len(),
        !s[i],
    ensures
        count_set(s.update(i, true)) == count_set(s) + 1,
    decreases s.len(),
{
    let t = s.update(i, true);
    if i == s.len() - 1 {
        assert(t.drop_last() =~= s.drop_last());
    } else {
        lemma_count_set_update(s.drop_last(), i);
        assert(t.drop_last() =~= s.drop_last().update(i, true));
    }
}

/// Whether some node marked in `seeds` can be reached from `n`.
pub open spec fn reaches_marked(g: Shape, seeds: Seq<bool>, n: int) -> bool {
    exists|t: int| 0 <= t < seeds.len() && #[trigger] seeds[t] && g.reaches(n, t)
}

/// Every mark stands on a node from which a seed can be reached.
spec fn marks_sound(g: Shape, seeds: Seq<bool>, marks: Seq<bool>) -> bool {
    forall|i: int| 0 <= i < marks.len() && #[trigger] marks[i] ==> reaches_marked(g, seeds, i)
}

/// Every seed is marked.
spec fn marks_cover(seeds: Seq<bool>, marks: Seq<bool>) -> bool {
    forall|i: int| 0 <= i < marks.len() && seeds[i] ==> #[trigger] marks[i]
}

/// A mark on the target of one of the first `upto` edges implies one on its
/// source.
spec fn marks_closed(g: Shape, marks: Seq<bool>, upto: int) -> bool {
    forall|e: int| 0 <= e < upto && marks[g.links[e].1] ==> marks[#[trigger] g.links[e].0]
}

/// Every node reaches itself.
pub proof fn lemma_reaches_itself(g: Shape, n: int)
    ensures
        g.reaches(n, n),
{
    let p = seq![n];
    assert(g.is_path(p));
    assert(p[0] == n && p.last() == n);
}

proof fn lemma_step_back(g: Shape, seeds: Seq<bool>, e: int)
    requires
        g.has_edge(e),
        reaches_marked(g, seeds, g.links[e].1),
    ensures
        reaches_marked(g, seeds, g.links[e].0),
{
    let a = g.links[e].0;
    let b = g.links[e].1;
    let r = choose|t: int| 0 <= t < seeds.len() && #[trigger] seeds[t] && g.reaches(b, t);
    let p = choose|p: Seq<int>| #[trigger] g.is_path(p) && p[0] == b && p.last() == r;
    let q = seq![a] + p;
    assert forall|i: int| 0 <= i < q.len() - 1 implies #[trigger] g.step(q, i) by {
        if i == 0 {
            assert(q[0] == a && q[1] == p[0]);
            assert(g.linked(a, b));
        } else {
            assert(g.step(p, i - 1));
            assert(q[i] == p[i - 1] && q[i + 1] == p[i]);
        }
    }
    assert(g.is_path(q));
    assert(q[0] == a && q.last() == r);
    assert(g.reaches(a, r));
}

proof fn lemma_closed_marks_path(g: Shape, marks: Seq<bool>, p: Seq<int>)
    requires
        g.well_formed(),
        marks.len() == g.node_count,
        marks_closed(g, marks, g.links.len() as int),
        g.is_path(p),
        g.has_node(p.last()),
        marks[p.last()],
    ensures
        marks[p[0]],
    decreases p.len(),
{
    if p.len() > 1 {
        let q = p.skip(1);
        assert forall|i: int| 0 <= i < q.len() - 1 implies #[trigger] g.step(q, i) by {
            assert(g.step(p, i + 1));
        }
        assert(q.last() == p.last());
        lemma_closed_marks_path(g, marks, q);
        assert(g.step(p, 0));
        let e = choose|e: int| #[trigger]
            g.has_edge(e) && g.links[e].0 == p[0] && g.links[e].1 == p[1];
        assert(q[0] == p[1]);
        assert(marks[g.links[e].1]);
        assert(marks[g.links[e].0]);
    }
}

proof fn lemma_closed_marks_complete(g: Shape, seeds: Seq<bool>, marks: Seq<bool>, n: int)
    requires
        g.well_formed(),
        seeds.len() == g.node_count,
        marks.len() == g.node_count,
        marks_closed(g, marks, g.links.len() as int),
        marks_cover(seeds, marks),
        reaches_marked(g, seeds, n),
    ensures
        marks[n],
{
    let r = choose|t: int| 0 <= t < seeds.len() && #[trigger] seeds[t] && g.reaches(n, t);
    let p = choose|p: Seq<int>| #[trigger] g.is_path(p) && p[0] == n && p.last() == r;
    lemma_closed_marks_path(g, marks, p);
}

impl QueryGraph {
    /// Splits the children of a node into those from which no result can be
    /// reached and those from which one can, each group in the order of
    /// `pairs`.
    pub fn partition_children(&self, pairs: &Vec<(EdgeRef, NodeRef)>) -> (r: (
        Vec<(EdgeRef, NodeRef)>,
        Vec<(EdgeRef, NodeRef)>,
    ))
        requires
            self@.well_formed(),
            forall|i: int| 0 <= i < pairs@.len() ==> self@.has_node(#[trigger] pairs@[i].1.ix as int),
        ensures
            pair_indices(r.0@) == self@.shape().select(pair_indices(pairs@), false),
            pair_indices(r.1@) == self@.shape().select(pair_indices(pairs@), true),
    {
        let mut effects: Vec<(EdgeRef, NodeRef)> = Vec::new();
        let mut results: Vec<(EdgeRef, NodeRef)> = Vec::new();
        let ghost all = pair_indices(pairs@);
        let mut i: usize = 0;
        while i < pairs.len()
            invariant
                i <= pairs@.len(),
                all == pair_indices(pairs@),
                self@.well_formed(),
                forall|j: int|
                    0 <= j < pairs@.len() ==> self@.has_node(#[trigger] pairs@[j].1.ix as int),
                pair_indices(effects@) == self@.shape().select(all.take(i as int), false),
                pair_indices(results@) == self@.shape().select(all.take(i as int), true),
            decreases pairs@.len() - i,
        {
            let pair = pairs[i];
            let ghost effects_before = effects@;
            let ghost results_before = results@;
            proof {
                let next = all.take(i + 1);
                assert(next.drop_last() =~= all.take(i as int));
                assert(next.last() == (pair.0.ix as int, pair.1.ix as int));
            }
            assert(self@.has_node(pairs@[i as int].1.ix as int));
            if self.subgraph_contains_result(&pair.1) {
                results.push(pair);
                assert(pair_indices(results@) =~= pair_indices(results_before).push(
                    (pair.0.ix as int, pair.1.ix as int),
                ));
            } else {
                effects.push(pair);
                assert(pair_indices(effects@) =~= pair_indices(effects_before).push(
                    (pair.0.ix as int, pair.1.ix as int),
                ));
            }
            i += 1;
        }
        assert(all.take(i as int) =~= all);
        (effects, results)
    }

    /// For each node, whether a node marked in `seeds` can be reached from
    /// it.
    pub fn reaching(&self, seeds: Vec<bool>) -> (marks: Vec<bool>)
        requires
            self@.well_formed(),
            seeds@.len() == self@.nodes.len(),
        ensures
            marks@.len() == seeds@.len(),
            forall|i: int|
                0 <= i < marks@.len() ==> (#[trigger] marks@[i] <==> reaches_marked(
                    self@.shape(),
                    seeds@,
                    i,
                )),
    {
        let ghost given = seeds@;
        let n = self.node_count();
        let edge_count = self.edge_count();
        let mut marks = seeds;
        proof {
            assert forall|i: int| 0 <= i < marks@.len() && #[trigger] marks@[i] implies reaches_marked(
                self@.shape(),
                given,
                i,
            ) by {
                lemma_reaches_itself(self@.shape(), i);
            }
        }
        loop
            invariant
                n == self@.nodes.len(),
                edge_count == self@.edges.len(),
                self@.well_formed(),
                given.len() == n,
                marks@.len() == n,
                marks_sound(self@.shape(), given, marks@),
                marks_cover(given, marks@),
            ensures
                marks@.len() == n,
                marks_sound(self@.shape(), given, marks@),
                marks_cover(given, marks@),
                marks_closed(self@.shape(), marks@, edge_count as int),
            decreases n - count_set(marks@),
        {
            let ghost before = marks@;
            let mut changed = false;
            let mut e: usize = 0;
            while e < edge_count
                invariant
                    e <= edge_count,
                    n == self@.nodes.len(),
                    edge_count == self@.edges.len(),
                    self@.well_formed(),
                    given.len() == n,
                    marks@.len() == n,
                    marks_sound(self@.shape(), given, marks@),
                    marks_cover(given, marks@),
                    changed ==> count_set(marks@) > count_set(before),
                    !changed ==> marks@ == before && marks_closed(
                        self@.shape(),
                        marks@,
                        e as int,
                    ),
                decreases edge_count - e,
            {
                let source = self.edge_source(&EdgeRef { ix: e }).ix;
                let target = self.edge_target(&EdgeRef { ix: e }).ix;
                assert(self@.shape().has_edge(e as int));
                if marks[target] && !marks[source] {
                    proof {
                        lemma_step_back(self@.shape(), given, e as int);
                        lemma_count_set_update(marks@, source as int);
                    }
                    marks.set(source, true);
                    changed = true;
                }
                e += 1;
            }
            if !changed {
                break ;
            }
            proof {
                lemma_count_set_bound(marks@);
            }
        }
        proof {
            assert forall|i: int| 0 <= i < marks@.len() implies (#[trigger] marks@[i]
                <==> reaches_marked(self@.shape(), given, i)) by {
                if reaches_marked(self@.shape(), given, i) {
                    lemma_closed_marks_complete(self@.shape(), given, marks@, i);
                }
            }
        }
        marks
    }

    /// Whether a result node can be reached from `node`.
    pub fn subgraph_contains_result(&self, node: &NodeRef) -> (b: bool)
        requires
            self@.well_formed(),
            self@.has_node(node.ix as int),
        ensures
            b == self@.shape().contains_result(node.ix as int),
    {
        let n = self.node_count();
        let mut seeds: Vec<bool> = Vec::new();
        let mut i: usize = 0;
        while i < n
            invariant
                i <= n,
                n == self@.nodes.len(),
                seeds@.len() == i,
                forall|j: int| 0 <= j < i ==> seeds@[j] == self@.shape().is_result(j),
            decreases n - i,
        {
            seeds.push(self.is_result_node(&NodeRef { ix: i }));
            i += 1;
        }
        let marks = self.reaching(seeds);
        proof {
            let g = self@.shape();
            let at = node.ix as int;
            if g.contains_result(at) {
                let r = choose|r: int| #[trigger] g.is_result(r) && g.reaches(at, r);
                let k = choose|k: int| 0 <= k < g.results.len() && g.results[k] == r;
                assert(g.has_node(g.results[k]));
                assert(seeds@[r]);
            }
            if reaches_marked(g, seeds@, at) {
                let t = choose|t: int| 0 <= t < seeds@.len() && #[trigger] seeds@[t] && g.reaches(at, t);
                assert(g.is_result(t));
            }
        }
        marks[node.ix]
    }

    /// Whether `child` is ready to be translated: it is not marked as
    /// visited, and every node from which an edge leads to it is.
    pub fn is_ready(&self, child: &NodeRef) -> (b: bool)
        requires
            self@.well_formed(),
            self@.has_node(child.ix as int),
        ensures
            b == self@.is_ready(child.ix as int),
    {
        if self.is_visited(child) {
            return false;
        }
        let edge_count = self.edge_count();
        let mut e: usize = 0;
        while e < edge_count
            invariant
                e <= edge_count,
                edge_count == self@.edges.len(),
                self@.well_formed(),
                !self@.nodes[child.ix as int].visited,
                forall|j: int|
                    0 <= j < e ==> self@.from_visited(#[trigger] self@.edges[j], child.ix as int),
            decreases edge_count - e,
        {
            let edge = EdgeRef { ix: e };
            assert(self@.shape().has_edge(e as int));
            assert(self@.shape().links[e as int].0 == self@.edges[e as int].source);
            if self.edge_target(&edge).ix == child.ix {
                let source = self.edge_source(&edge);
                if !self.is_visited(&source) {
                    return false;
                }
            }
            e += 1;
        }
        true
    }

    /// The direct children of `node` as the graph stands: the edges that
    /// leave `node` for a node that is ready, each with its target, in the
    /// order of their creation.
    pub fn direct_child_pairs(&self, node: &NodeRef) -> (r: Vec<(EdgeRef, NodeRef)>)
        requires
            self@.well_formed(),
        ensures
            pair_indices(r@) == self@.child_pairs(node.ix as int),
    {
        let mut out: Vec<(EdgeRef, NodeRef)> = Vec::new();
        let edge_count = self.edge_count();
        let mut e: usize = 0;
        while e < edge_count
            invariant
                e <= edge_count,
                edge_count == self@.edges.len(),
                self@.well_formed(),
                pair_indices(out@) == self@.child_pairs_below(node.ix as int, e as int),
            decreases edge_count - e,
        {
            let ghost before = out@;
            let edge = EdgeRef { ix: e };
            assert(self@.shape().has_edge(e as int));
            assert(self@.shape().links[e as int].1 == self@.edges[e as int].target);
            if self.edge_source(&edge).ix == node.ix {
                let child = self.edge_target(&edge);
                if self.is_ready(&child) {
                    out.push((edge, child));
                    assert(pair_indices(out@) =~= pair_indices(before).push(
                        (e as int, child.ix as int),
                    ));
                }
            }
            e += 1;
        }
        out
    }
}

} // verus!
