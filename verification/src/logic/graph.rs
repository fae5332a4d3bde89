//! The predicate-dependency graph of a program, held in a `petgraph` graph,
//! and its strongly connected components.

use vstd::prelude::*;
use crate::id::RelationId;
use crate::logic::ast::{
    clause_body, clause_head, term_polarity, term_relation, ClauseView, Polarity,
};
use crate::value::views;

verus! {

#[verifier::external_type_specification]
#[verifier::external_body]
#[verifier::reject_recursive_types(N)]
#[verifier::reject_recursive_types(E)]
#[verifier::reject_recursive_types(Ty)]
#[verifier::reject_recursive_types(Ix)]
pub struct ExGraph<N, E, Ty, Ix>(petgraph::graph::Graph<N, E, Ty, Ix>);

#[verifier::external_type_specification]
#[verifier::external_body]
pub struct ExDirected(petgraph::Directed);

/// An edge of a graph: the indices of its source and of its target, and
/// whether it is negative.
pub struct EdgeView {
    pub from: int,
    pub to: int,
    pub negative: bool,
}

/// The weights of the nodes of a `petgraph` graph, in the order of their
/// indices.
pub uninterp spec fn graph_nodes(
    graph: petgraph::graph::Graph<usize, bool, petgraph::Directed, u32>,
) -> Seq<usize>;

/// The edges of a `petgraph` graph, in the order in which they were added.
pub uninterp spec fn graph_edges(
    graph: petgraph::graph::Graph<usize, bool, petgraph::Directed, u32>,
) -> Seq<EdgeView>;

/// What `petgraph::algo::kosaraju_scc` returns for a graph of `nodes` nodes
/// with the given edges: the node indices of each component, the components
/// in the order in which the algorithm finds them.
pub uninterp spec fn kosaraju_components(nodes: nat, edges: Seq<EdgeView>) -> Seq<Seq<int>>;

/// Whether an edge leads from `a` to `b`.
pub open spec fn has_edge(edges: Seq<EdgeView>, a: int, b: int) -> bool {
    exists|k: int| 0 <= k < edges.len() && (#[trigger] edges[k]).from == a && edges[k].to == b
}

/// Whether `path` is a walk along the edges: a node, or nodes of which each
/// has an edge to the next.
pub open spec fn is_walk(edges: Seq<EdgeView>, path: Seq<int>) -> bool {
    &&& path.len() > 0
    &&& forall|i: int| 0 <= i < path.len() - 1 ==> has_edge(edges, #[trigger] path[i], path[i + 1])
}

/// Whether a walk leads from `a` to `b`.
pub open spec fn reaches(edges: Seq<EdgeView>, a: int, b: int) -> bool {
    exists|path: Seq<int>| #[trigger] is_walk(edges, path) && path[0] == a && path.last() == b
}

/// Whether `node` is the entry `k` of the component `c`.
pub open spec fn at(components: Seq<Seq<int>>, c: int, k: int, node: int) -> bool {
    0 <= c < components.len() && 0 <= k < components[c].len() && components[c][k] == node
}

/// Whether `node` is an entry of one of the components.
pub open spec fn covered(components: Seq<Seq<int>>, node: int) -> bool {
    exists|c: int, k: int| #[trigger] at(components, c, k, node)
}

/// Whether `components` are the strongly connected components of the graph,
/// in reverse topological order: every node is in exactly one component,
/// once; no component is empty; two nodes are in one component exactly when
/// each reaches the other; and an edge between two components leads from a
/// later one to an earlier one.
pub open spec fn is_scc_order(nodes: nat, edges: Seq<EdgeView>, components: Seq<Seq<int>>) -> bool {
    &&& forall|c: int, k: int|
        0 <= c < components.len() && 0 <= k < components[c].len() ==> 0 <= (
        #[trigger] components[c][k]) < nodes
    &&& forall|c: int| 0 <= c < components.len() ==> (#[trigger] components[c]).len() > 0
    &&& forall|node: int| 0 <= node < nodes ==> #[trigger] covered(components, node)
    &&& forall|c1: int, k1: int, c2: int, k2: int, node: int|
        #[trigger] at(components, c1, k1, node) && #[trigger] at(components, c2, k2, node) ==> c1
            == c2 && k1 == k2
    &&& forall|c1: int, k1: int, c2: int, k2: int, a: int, b: int|
        #[trigger] at(components, c1, k1, a) && #[trigger] at(components, c2, k2, b) ==> (c1 == c2
            <==> reaches(edges, a, b) && reaches(edges, b, a))
    &&& forall|c1: int, k1: int, c2: int, k2: int, a: int, b: int|
        #[trigger] at(components, c1, k1, a) && #[trigger] at(components, c2, k2, b) && has_edge(
            edges,
            a,
            b,
        ) ==> c2 <= c1
}

/// Whether every edge leads from a node to a node.
pub open spec fn edges_in_range(nodes: nat, edges: Seq<EdgeView>) -> bool {
    forall|k: int|
        0 <= k < edges.len() ==> 0 <= (#[trigger] edges[k]).from < nodes && 0 <= edges[k].to
            < nodes
}

/// An empty graph, from `petgraph::graph::Graph::new`: no node, no edge.
#[verifier::external_body]
fn graph_new() -> (graph: petgraph::graph::Graph<usize, bool, petgraph::Directed, u32>)
    ensures
        graph_nodes(graph) == Seq::<usize>::empty(),
        graph_edges(graph) == Seq::<EdgeView>::empty(),
{
    petgraph::graph::Graph::new()
}

/// Adds a node with `Graph::add_node`, which gives it the next index and
/// leaves the rest as it is. The graph must have room: `add_node` panics
/// where the new index would be the largest `u32`.
#[verifier::external_body]
fn graph_add_node(
    graph: &mut petgraph::graph::Graph<usize, bool, petgraph::Directed, u32>,
    weight: usize,
) -> (index: usize)
    requires
        graph_nodes(*old(graph)).len() < u32::MAX,
    ensures
        graph_nodes(*final(graph)) == graph_nodes(*old(graph)).push(weight),
        graph_edges(*final(graph)) == graph_edges(*old(graph)),
        index == graph_nodes(*old(graph)).len(),
{
    graph.add_node(weight).index()
}

/// Adds an edge with `Graph::add_edge`, after the edges that are there. Both
/// ends must be nodes of the graph and the graph must have room: `add_edge`
/// panics otherwise.
#[verifier::external_body]
fn graph_add_edge(
    graph: &mut petgraph::graph::Graph<usize, bool, petgraph::Directed, u32>,
    from: usize,
    to: usize,
    negative: bool,
)
    requires
        from < graph_nodes(*old(graph)).len(),
        to < graph_nodes(*old(graph)).len(),
        graph_nodes(*old(graph)).len() <= u32::MAX,
        graph_edges(*old(graph)).len() < u32::MAX,
    ensures
        graph_nodes(*final(graph)) == graph_nodes(*old(graph)),
        graph_edges(*final(graph)) == graph_edges(*old(graph)).push(
            EdgeView { from: from as int, to: to as int, negative },
        ),
{
    graph.add_edge(
        petgraph::graph::NodeIndex::new(from),
        petgraph::graph::NodeIndex::new(to),
        negative,
    );
}

/// Whether an edge leads from `node` to the node `end.0` with the weight
/// `end.1`.
pub open spec fn leaving(edges: Seq<EdgeView>, node: int, end: (usize, bool)) -> bool {
    exists|k: int|
        0 <= k < edges.len() && (#[trigger] edges[k]) == (EdgeView {
            from: node,
            to: end.0 as int,
            negative: end.1,
        })
}

/// Whether `out` holds the edges that leave `node`, each as its target and
/// its weight, in some order.
pub open spec fn leaves(edges: Seq<EdgeView>, node: int, out: Seq<(usize, bool)>) -> bool {
    &&& forall|i: int| 0 <= i < out.len() ==> leaving(edges, node, #[trigger] out[i])
    &&& forall|k: int|
        0 <= k < edges.len() && (#[trigger] edges[k]).from == node ==> out.contains(
            (edges[k].to as usize, edges[k].negative),
        )
}

/// Whether an edge leads from `from` to `to`, from `Graph::contains_edge`,
/// which follows the edges that leave `from`. Both must be nodes of the
/// graph, so that their indices are what `NodeIndex::new` makes of them.
#[verifier::external_body]
fn graph_contains_edge(
    graph: &petgraph::graph::Graph<usize, bool, petgraph::Directed, u32>,
    from: usize,
    to: usize,
) -> (r: bool)
    requires
        from < graph_nodes(*graph).len(),
        to < graph_nodes(*graph).len(),
        graph_nodes(*graph).len() <= u32::MAX,
    ensures
        r == has_edge(graph_edges(*graph), from as int, to as int),
{
    graph.contains_edge(petgraph::graph::NodeIndex::new(from), petgraph::graph::NodeIndex::new(to))
}

/// The edges that leave `node`, from `Graph::edges_directed` with
/// `Outgoing`, each as its target and its weight. The documentation promises
/// all the edges from the node; of their order the contract says nothing.
#[verifier::external_body]
fn graph_outgoing(
    graph: &petgraph::graph::Graph<usize, bool, petgraph::Directed, u32>,
    node: usize,
) -> (r: Vec<(usize, bool)>)
    requires
        node < graph_nodes(*graph).len(),
        graph_nodes(*graph).len() <= u32::MAX,
    ensures
        leaves(graph_edges(*graph), node as int, r@),
{
    graph.edges_directed(petgraph::graph::NodeIndex::new(node), petgraph::Direction::Outgoing).map(
        |edge| (petgraph::visit::EdgeRef::target(&edge).index(), *edge.weight()),
    ).collect()
}

/// The views of the components: the node indices as integers.
pub open spec fn component_views(components: Seq<Vec<usize>>) -> Seq<Seq<int>> {
    Seq::new(components.len(), |c: int| components[c]@.map_values(|n: usize| n as int))
}

/// The strongly connected components, from `petgraph::algo::kosaraju_scc`,
/// whose documentation promises them in reverse topological order. The
/// order of the nodes inside a component is the algorithm's own; the contract
/// names it and says no more of it.
#[verifier::external_body]
fn graph_components(graph: &petgraph::graph::Graph<usize, bool, petgraph::Directed, u32>) -> (r:
    Vec<Vec<usize>>)
    requires
        edges_in_range(graph_nodes(*graph).len(), graph_edges(*graph)),
    ensures
        component_views(r@) == kosaraju_components(graph_nodes(*graph).len(), graph_edges(*graph)),
        is_scc_order(graph_nodes(*graph).len(), graph_edges(*graph), component_views(r@)),
{
    petgraph::algo::kosaraju_scc(graph).into_iter().map(
        |component| component.into_iter().map(|node| node.index()).collect(),
    ).collect()
}


/// A dependency between two relations of the graph, by their indices.
#[derive(Debug, Clone, Copy, PartialEq, Eq)]
pub struct Edge {
    pub from: usize,
    pub to: usize,
    pub polarity: Polarity,
}

impl View for Edge {
    type V = EdgeView;

    open spec fn view(&self) -> EdgeView {
        EdgeView {
            from: self.from as int,
            to: self.to as int,
            negative: self.polarity == Polarity::Negative,
        }
    }
}

/// The mathematical content of a [`DependencyGraph`]: the names of its
/// relations, which are its nodes, and its edges.
pub struct GraphView {
    pub nodes: Seq<Seq<char>>,
    pub edges: Seq<EdgeView>,
}

/// The predicate-dependency graph of a program: a node for each relation, and
/// an edge from the relation of each body term to the head of its clause.
pub struct DependencyGraph {
    relations: Vec<RelationId>,
    edges: Vec<Edge>,
    graph: petgraph::graph::Graph<usize, bool, petgraph::Directed, u32>,
}

/// `graph` with a node for `name`, if it has none yet. `None` where the graph
/// is full.
pub open spec fn with_node(graph: GraphView, name: Seq<char>) -> Option<GraphView> {
    if graph.nodes.contains(name) {
        Some(graph)
    } else if graph.nodes.len() < u32::MAX {
        Some(GraphView { nodes: graph.nodes.push(name), edges: graph.edges })
    } else {
        None
    }
}

/// `graph` with nodes for `to` and for `from`, in this order, and an edge
/// from `from` to `to`. `None` where the graph is full.
pub open spec fn with_dependency(
    graph: GraphView,
    from: Seq<char>,
    to: Seq<char>,
    negative: bool,
) -> Option<GraphView> {
    match with_node(graph, to) {
        Some(g1) => match with_node(g1, from) {
            Some(g2) => if g2.edges.len() < u32::MAX {
                Some(
                    GraphView {
                        nodes: g2.nodes,
                        edges: g2.edges.push(
                            EdgeView {
                                from: g2.nodes.index_of(from),
                                to: g2.nodes.index_of(to),
                                negative,
                            },
                        ),
                    },
                )
            } else {
                None
            },
            None => None,
        },
        None => None,
    }
}

/// `graph` with the dependencies of a clause of head `head` on the terms
/// `body`, in order.
pub open spec fn with_body(
    graph: GraphView,
    head: Seq<char>,
    body: Seq<crate::logic::ast::BodyTermView>,
) -> Option<GraphView>
    decreases body.len(),
{
    if body.len() == 0 {
        Some(graph)
    } else {
        match with_body(graph, head, body.drop_last()) {
            Some(g) => with_dependency(
                g,
                term_relation(body.last()),
                head,
                term_polarity(body.last()) == Polarity::Negative,
            ),
            None => None,
        }
    }
}

/// `graph` with a node for the head of `clause` and with its dependencies.
pub open spec fn with_clause(graph: GraphView, clause: ClauseView) -> Option<GraphView> {
    match with_node(graph, clause_head(clause)) {
        Some(g) => with_body(g, clause_head(clause), clause_body(clause)),
        None => None,
    }
}

/// The dependency graph of the clauses: the nodes in the order in which the
/// relations are first met, each clause giving its head and then, for each
/// body term, the term's relation; the edges in the order of the body terms.
/// `None` where the graph would have more nodes or edges than it can hold.
pub open spec fn dependency_graph(clauses: Seq<ClauseView>) -> Option<GraphView>
    decreases clauses.len(),
{
    if clauses.len() == 0 {
        Some(GraphView { nodes: seq![], edges: seq![] })
    } else {
        match dependency_graph(clauses.drop_last()) {
            Some(g) => with_clause(g, clauses.last()),
            None => None,
        }
    }
}

impl View for DependencyGraph {
    type V = GraphView;

    closed spec fn view(&self) -> GraphView {
        GraphView { nodes: views(self.relations@), edges: views(self.edges@) }
    }
}

impl DependencyGraph {
    /// Whether the graph is consistent: its nodes have distinct names, its
    /// edges lead from node to node, and the `petgraph` graph holds the same
    /// nodes and edges.
    pub closed spec fn wf(&self) -> bool {
        &&& self@.nodes.no_duplicates()
        &&& self@.nodes.len() <= u32::MAX
        &&& self@.edges.len() <= u32::MAX
        &&& edges_in_range(self@.nodes.len(), self@.edges)
        &&& graph_nodes(self.graph).len() == self@.nodes.len()
        &&& graph_edges(self.graph) == self@.edges
    }

    /// The edges of a consistent graph lead from node to node.
    pub proof fn lemma_edges_in_range(&self)
        requires
            self.wf(),
        ensures
            edges_in_range(self@.nodes.len(), self@.edges),
            self@.nodes.no_duplicates(),
    {
    }

    /// An empty graph.
    pub fn new() -> (graph: DependencyGraph)
        ensures
            graph.wf(),
            graph@ == (GraphView { nodes: seq![], edges: seq![] }),
    {
        let graph = DependencyGraph {
            relations: Vec::new(),
            edges: Vec::new(),
            graph: graph_new(),
        };
        assert(graph@.nodes =~= seq![]);
        assert(graph@.edges =~= seq![]);
        graph
    }

    /// The number of nodes.
    pub fn node_count(&self) -> (n: usize)
        ensures
            n == self@.nodes.len(),
    {
        self.relations.len()
    }

    /// The name of the node `index`.
    pub fn relation(&self, index: usize) -> (id: &RelationId)
        requires
            index < self@.nodes.len(),
        ensures
            id@ == self@.nodes[index as int],
    {
        &self.relations[index]
    }

    /// The number of edges.
    pub fn edge_count(&self) -> (n: usize)
        ensures
            n == self@.edges.len(),
    {
        self.edges.len()
    }

    /// The edge `index`.
    pub fn edge(&self, index: usize) -> (e: Edge)
        requires
            index < self@.edges.len(),
        ensures
            e@ == self@.edges[index as int],
    {
        self.edges[index]
    }

    /// Whether an edge leads from the node `from` to the node `to`.
    pub fn contains_edge(&self, from: usize, to: usize) -> (b: bool)
        requires
            self.wf(),
            from < self@.nodes.len(),
            to < self@.nodes.len(),
        ensures
            b == has_edge(self@.edges, from as int, to as int),
    {
        graph_contains_edge(&self.graph, from, to)
    }

    /// The edges that leave `node`, each as its target and whether it is
    /// negative, in some order.
    pub fn outgoing(&self, node: usize) -> (out: Vec<(usize, bool)>)
        requires
            self.wf(),
            node < self@.nodes.len(),
        ensures
            leaves(self@.edges, node as int, out@),
    {
        graph_outgoing(&self.graph, node)
    }

    /// The index of the node named `id`, if there is one.
    pub fn find(&self, id: &RelationId) -> (r: Option<usize>)
        requires
            self.wf(),
        ensures
            r.is_some() == self@.nodes.contains(id@),
            r matches Some(i) ==> i < self@.nodes.len() && self@.nodes[i as int] == id@ && i
                == self@.nodes.index_of(id@),
    {
        let mut i: usize = 0;
        while i < self.relations.len()
            invariant
                i <= self.relations.len(),
                self.wf(),
                forall|j: int| 0 <= j < i ==> self@.nodes[j] != id@,
            decreases self.relations.len() - i,
        {
            if self.relations[i].same(id) {
                assert(self@.nodes[i as int] == id@);
                let ghost found = self@.nodes.index_of(id@);
                assert(0 <= found < self@.nodes.len() && self@.nodes[found] == id@);
                assert(found == i);
                return Some(i);
            }
            i += 1;
        }
        None
    }

    /// The index of the node named `id`, which is added if it is not there.
    /// `None`, and the graph as it was, where it is full.
    pub fn node(&mut self, id: &RelationId) -> (r: Option<usize>)
        requires
            old(self).wf(),
        ensures
            final(self).wf(),
            r.is_some() == with_node(old(self)@, id@).is_some(),
            r matches Some(i) ==> with_node(old(self)@, id@) == Some(final(self)@) && i < final(self)@.nodes.len() && final(self)@.nodes[i as int] == id@ && i == final(self)@.nodes.index_of(id@),
            r.is_none() ==> final(self)@ == old(self)@,
    {
        match self.find(id) {
            Some(i) => Some(i),
            None => {
                if self.relations.len() >= 0xffff_ffff {
                    return None;
                }
                let index = self.relations.len();
                let ghost before = self@;
                graph_add_node(&mut self.graph, index);
                self.relations.push(id.clone());
                proof {
                    assert(self@.nodes =~= before.nodes.push(id@));
                    assert(self@.edges =~= before.edges);
                    assert(self@.nodes[index as int] == id@);
                    let found = self@.nodes.index_of(id@);
                    assert(self@.nodes[found] == id@);
                }
                Some(index)
            },
        }
    }

    /// Adds the dependency of `to` on `from`: nodes for `to` and for `from`,
    /// in this order, and an edge from `from` to `to`. Fails where the graph
    /// is full.
    pub fn depend(&mut self, from: &RelationId, to: &RelationId, polarity: Polarity) -> (r: bool)
        requires
            old(self).wf(),
        ensures
            final(self).wf(),
            r == with_dependency(old(self)@, from@, to@, polarity == Polarity::Negative).is_some(),
            r ==> with_dependency(old(self)@, from@, to@, polarity == Polarity::Negative) == Some(
                final(self)@,
            ),
    {
        let target = match self.node(to) {
            Some(i) => i,
            None => {
                return false;
            },
        };
        let ghost g1 = self@;
        let source = match self.node(from) {
            Some(i) => i,
            None => {
                return false;
            },
        };
        if self.edges.len() >= 0xffff_ffff {
            return false;
        }
        let ghost g2 = self@;
        proof {
            let found = g2.nodes.index_of(to@);
            assert(g2.nodes.contains(to@)) by {
                if g1.nodes.contains(from@) {
                } else {
                    assert(g2.nodes[target as int] == g1.nodes[target as int]);
                }
            }
            assert(g2.nodes[found] == to@);
            assert(g2.nodes[target as int] == to@);
        }
        graph_add_edge(&mut self.graph, source, target, polarity.is_negative());
        self.edges.push(Edge { from: source, to: target, polarity });
        proof {
            assert(self@.nodes =~= g2.nodes);
            assert(self@.edges =~= g2.edges.push(self.edges@.last()@));
        }
        true
    }

    /// The strongly connected components of the graph, as `petgraph` finds
    /// them: in reverse topological order.
    pub fn components(&self) -> (r: Vec<Vec<usize>>)
        requires
            self.wf(),
        ensures
            component_views(r@) == kosaraju_components(self@.nodes.len(), self@.edges),
            is_scc_order(self@.nodes.len(), self@.edges, component_views(r@)),
    {
        graph_components(&self.graph)
    }
}

} // verus!
