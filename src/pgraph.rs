use vstd::prelude::*;
use petgraph::graph::{DiGraph, NodeIndex};

verus! {

/// petgraph's adjacency-list graph; its contents are seen only through
/// `graph_nodes` and `graph_edges`.
#[verifier::external_type_specification]
#[verifier::external_body]
#[verifier::reject_recursive_types(N)]
#[verifier::reject_recursive_types(E)]
#[verifier::reject_recursive_types(Ty)]
#[verifier::reject_recursive_types(Ix)]
pub struct ExGraph<N, E, Ty, Ix>(petgraph::graph::Graph<N, E, Ty, Ix>);

/// petgraph's marker for directed edges.
#[verifier::external_type_specification]
#[verifier::external_body]
pub struct ExDirected(petgraph::Directed);

/// The graph type built by this library: each node carries
/// (identifier, display name), edges carry nothing.
pub type ProductGraph = DiGraph<(String, String), ()>;

/// The node weights of a graph, in node-index order.
pub uninterp spec fn graph_nodes(g: ProductGraph) -> Seq<(Seq<char>, Seq<char>)>;

/// The edges of a graph as (source, target) node indices, in edge-index order.
pub uninterp spec fn graph_edges(g: ProductGraph) -> Seq<(int, int)>;

/// Largest node or edge count that a graph indexed by `u32` can hold; node
/// and edge indices must stay below it.
pub const INDEX_LIMIT: usize = 0xffff_ffff;

/// Relies on petgraph's `Graph::new`: the graph starts with no nodes and no edges.
#[verifier::external_body]
pub(crate) fn new_graph() -> (g: ProductGraph)
    ensures
        graph_nodes(g) == Seq::<(Seq<char>, Seq<char>)>::empty(),
        graph_edges(g) == Seq::<(int, int)>::empty(),
{
    DiGraph::new()
}

/// Relies on petgraph's `Graph::add_node`: the weight is appended to the
/// node list and its index returned; it panics once `u32::MAX` nodes exist.
#[verifier::external_body]
pub(crate) fn add_node(g: &mut ProductGraph, w: (String, String)) -> (r: usize)
    requires
        graph_nodes(*old(g)).len() < INDEX_LIMIT,
    ensures
        graph_nodes(*final(g)) == graph_nodes(*old(g)).push((w.0@, w.1@)),
        graph_edges(*final(g)) == graph_edges(*old(g)),
        r == graph_nodes(*old(g)).len(),
{
    g.add_node(w).index()
}

/// Relies on petgraph's `Graph::add_edge`: the edge is appended to the edge
/// list; it panics on a missing endpoint or once `u32::MAX` edges exist.
#[verifier::external_body]
pub(crate) fn add_edge(g: &mut ProductGraph, a: usize, b: usize)
    requires
        a < graph_nodes(*old(g)).len(),
        b < graph_nodes(*old(g)).len(),
        graph_edges(*old(g)).len() < INDEX_LIMIT,
    ensures
        graph_nodes(*final(g)) == graph_nodes(*old(g)),
        graph_edges(*final(g)) == graph_edges(*old(g)).push((a as int, b as int)),
{
    g.add_edge(NodeIndex::new(a), NodeIndex::new(b), ());
}

/// Relies on petgraph's `Graph::node_count`: the length of the node list.
#[verifier::external_body]
pub(crate) fn node_count(g: &ProductGraph) -> (r: usize)
    ensures
        r == graph_nodes(*g).len(),
{
    g.node_count()
}

/// The number of edges whose source is node `i`.
pub open spec fn out_degree_of(edges: Seq<(int, int)>, i: int) -> nat {
    edges.filter(|e: (int, int)| e.0 == i).len()
}

/// Relies on petgraph's `Graph::edges`: on a directed graph it yields the
/// outgoing edges of the node, each once.
#[verifier::external_body]
pub(crate) fn out_degree(g: &ProductGraph, i: usize) -> (r: usize)
    requires
        i < INDEX_LIMIT,
    ensures
        r == out_degree_of(graph_edges(*g), i as int),
{
    g.edges(NodeIndex::new(i)).count()
}

/// Relies on petgraph's `Index<NodeIndex>` for `Graph`: the weight of the
/// node; it panics on a missing node.
#[verifier::external_body]
pub(crate) fn node_weight(g: &ProductGraph, i: usize) -> (r: &(String, String))
    requires
        i < graph_nodes(*g).len(),
        i < INDEX_LIMIT,
    ensures
        (r.0@, r.1@) == graph_nodes(*g)[i as int],
{
    &g[NodeIndex::new(i)]
}

} // verus!
