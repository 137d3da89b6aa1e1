//! The directed graph the solvers run on, and the edge records they hand out.
//!
//! The graph is a `petgraph` adjacency-list graph. Contracts speak of its
//! adjacency lists: for each vertex, its outgoing edges in the order in which
//! `Graph::edges` yields them.

use num::BigRational;
use petgraph::graph::NodeIndex;
use vstd::prelude::*;

verus! {

/// `petgraph::Directed`, the marker of graphs with directed edges.
#[verifier::external_type_specification]
#[verifier::external_body]
pub struct ExDirected(petgraph::Directed);

/// `petgraph::graph::Graph`, an adjacency-list graph. Nothing is said of what
/// is inside; `graph_adjacency` names what it holds.
#[verifier::external_type_specification]
#[verifier::external_body]
#[verifier::reject_recursive_types(N)]
#[verifier::reject_recursive_types(E)]
#[verifier::reject_recursive_types(Ty)]
#[verifier::reject_recursive_types(Ix)]
pub struct ExGraph<N, E, Ty, Ix>(petgraph::graph::Graph<N, E, Ty, Ix>);

/// A directed multigraph without vertex payload whose edges carry a rational.
pub type Digraph = petgraph::graph::Graph<(), BigRational, petgraph::Directed, u32>;

/// One edge of a graph: its index in the graph and the indices of its end
/// vertices. A client reads the edge's payload from the graph by `id`.
#[derive(Clone, Copy, Debug, PartialEq, Eq)]
pub struct EdgeRef {
    pub id: usize,
    pub source: usize,
    pub target: usize,
}

impl EdgeRef {
    /// The record of edge `id` from `source` to `target`.
    pub fn new(id: usize, source: usize, target: usize) -> (e: EdgeRef)
        ensures
            e == (EdgeRef { id, source, target }),
    {
        EdgeRef { id, source, target }
    }

    /// Index of the edge in its graph.
    pub fn id(&self) -> (id: usize)
        ensures
            id == self.id,
    {
        self.id
    }

    /// Index of the vertex the edge leaves.
    pub fn source(&self) -> (v: usize)
        ensures
            v == self.source,
    {
        self.source
    }

    /// Index of the vertex the edge enters.
    pub fn target(&self) -> (v: usize)
        ensures
            v == self.target,
    {
        self.target
    }
}

/// The edges of a list that may be absent.
pub open spec fn edges_of(found: Option<Vec<EdgeRef>>) -> Option<Seq<EdgeRef>> {
    match found {
        Some(cycle) => Some(cycle@),
        None => None,
    }
}

/// What the graph holds: entry `u` lists the edges that leave vertex `u`, in
/// the order in which `Graph::edges(u)` yields them.
pub uninterp spec fn graph_adjacency(g: Digraph) -> Seq<Seq<EdgeRef>>;

/// Every edge listed under one of the first `n` vertices leaves the vertex it
/// is listed under and enters one of the first `n` vertices.
pub open spec fn adjacency_within(adj: Seq<Seq<EdgeRef>>, n: nat) -> bool {
    forall|u: int, i: int|
        0 <= u < n && u < adj.len() && 0 <= i < adj[u].len() ==> {
            &&& (#[trigger] adj[u][i]).source == u
            &&& adj[u][i].target < n
        }
}

/// Every listed edge leaves the vertex it is listed under and enters a vertex
/// of the graph.
pub open spec fn adjacency_wf(adj: Seq<Seq<EdgeRef>>) -> bool {
    adjacency_within(adj, adj.len())
}

/// `e` is an edge of `g`.
pub open spec fn is_edge(g: Digraph, e: EdgeRef) -> bool {
    &&& e.source < graph_adjacency(g).len()
    &&& graph_adjacency(g)[e.source as int].contains(e)
}

/// An edge of a graph has both ends among the vertices.
pub proof fn lemma_edge_ends(g: Digraph, e: EdgeRef)
    requires
        adjacency_wf(graph_adjacency(g)),
        is_edge(g, e),
    ensures
        e.source < graph_adjacency(g).len(),
        e.target < graph_adjacency(g).len(),
{
    let adj = graph_adjacency(g);
    let i = choose|i: int| 0 <= i < adj[e.source as int].len() && adj[e.source as int][i] == e;
    assert(adj[e.source as int][i].target < adj.len());
}

/// `Graph::node_count`: the number of vertices, which index the adjacency
/// lists. Also states the structure that every `Graph` keeps: an edge is
/// listed under its source, and `add_edge` accepts only ends that exist.
#[verifier::external_body]
pub(crate) fn node_count(g: &Digraph) -> (n: usize)
    ensures
        n == graph_adjacency(*g).len(),
        adjacency_within(graph_adjacency(*g), n as nat),
{
    g.node_count()
}

/// `Graph::edges(u)`: the edges that leave vertex `u`, each as a plain record
/// of `EdgeRef::id`, `source` and `target`, in the iterator's order.
#[verifier::external_body]
pub(crate) fn out_edges(g: &Digraph, u: usize) -> (edges: Vec<EdgeRef>)
    requires
        u < graph_adjacency(*g).len(),
    ensures
        edges@ == graph_adjacency(*g)[u as int],
{
    g.edges(NodeIndex::new(u)).map(
        |e| EdgeRef::new(
            petgraph::visit::EdgeRef::id(&e).index(),
            petgraph::visit::EdgeRef::source(&e).index(),
            petgraph::visit::EdgeRef::target(&e).index(),
        ),
    ).collect()
}

} // verus!
