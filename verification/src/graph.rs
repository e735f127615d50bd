//! The typing graph as `petgraph` holds it, and what the library reads of it.
use crate::typing::{TypingGraph, TypingNode, TypingNodeView};
use petgraph::graph::{Graph, NodeIndex};
use petgraph::visit::{Reversed, Topo};
use vstd::prelude::*;

verus! {

#[verifier::external_type_specification]
#[verifier::external_body]
#[verifier::reject_recursive_types(N)]
#[verifier::reject_recursive_types(E)]
#[verifier::reject_recursive_types(Ty)]
#[verifier::reject_recursive_types(Ix)]
pub struct ExGraph<N, E, Ty, Ix>(petgraph::graph::Graph<N, E, Ty, Ix>);

#[verifier::external_type_specification]
#[verifier::external_body]
pub struct ExDirected(petgraph::Directed);

/// The node weights of a graph, by node index.
pub uninterp spec fn graph_nodes(g: TypingGraph) -> Seq<TypingNodeView>;

/// The edges of a graph as (source, target), those that leave one node in
/// the order in which they were added.
pub uninterp spec fn graph_edges(g: TypingGraph) -> Seq<(usize, usize)>;

/// The targets of the edges that leave `a`, most recently added first.
pub open spec fn successors(edges: Seq<(usize, usize)>, a: usize) -> Seq<usize>
    decreases edges.len(),
{
    if edges.len() == 0 {
        Seq::empty()
    } else if edges.last().0 == a {
        seq![edges.last().1] + successors(edges.drop_last(), a)
    } else {
        successors(edges.drop_last(), a)
    }
}

/// Every edge leads from a node to one with a larger index.
pub open spec fn ascending(edges: Seq<(usize, usize)>) -> bool {
    forall|e: int| 0 <= e < edges.len() ==> (#[trigger] edges[e]).0 < edges[e].1
}

/// `order` lists nodes of the graph, none twice, each after all the nodes
/// it has an edge to; it lists every node when the edges are ascending.
pub open spec fn successors_first(order: Seq<usize>, node_count: nat, edges: Seq<(usize, usize)>) -> bool {
    &&& order.no_duplicates()
    &&& forall|i: int| 0 <= i < order.len() ==> (#[trigger] order[i]) < node_count
    &&& forall|i: int, e: int|
        0 <= i < order.len() && 0 <= e < edges.len() && (#[trigger] edges[e]).0 == (#[trigger] order[i])
            ==> exists|j: int| 0 <= j < i && order[j] == edges[e].1
    &&& ascending(edges) ==> forall|node: usize| node < node_count ==> #[trigger] order.contains(node)
}

/// An empty graph.
///
/// Trusted: calls `Graph::default`, which makes a graph without nodes or
/// edges.
#[verifier::external_body]
pub(crate) fn new_graph() -> (g: TypingGraph)
    ensures
        graph_nodes(g) == Seq::<TypingNodeView>::empty(),
        graph_edges(g) == Seq::<(usize, usize)>::empty(),
{
    Graph::default()
}

/// Adds a node and returns its index.
///
/// Trusted: calls `Graph::add_node`, which appends the weight to the nodes
/// and returns the index it got. With `usize` indices the graph has no
/// limit of its own.
#[verifier::external_body]
pub(crate) fn add_node(g: &mut TypingGraph, weight: TypingNode) -> (index: usize)
    ensures
        index == graph_nodes(*old(g)).len(),
        graph_nodes(*final(g)) == graph_nodes(*old(g)).push(weight@),
        graph_edges(*final(g)) == graph_edges(*old(g)),
{
    g.add_node(weight).index()
}

/// Adds an edge from `a` to `b`.
///
/// Trusted: calls `Graph::add_edge`, which appends the edge. The call panics
/// when a node does not exist, so `requires` leaves that out.
#[verifier::external_body]
pub(crate) fn add_edge(g: &mut TypingGraph, a: usize, b: usize)
    requires
        a < graph_nodes(*old(g)).len(),
        b < graph_nodes(*old(g)).len(),
    ensures
        graph_nodes(*final(g)) == graph_nodes(*old(g)),
        graph_edges(*final(g)) == graph_edges(*old(g)).push((a, b)),
{
    g.add_edge(NodeIndex::new(a), NodeIndex::new(b), ());
}

/// The weight of node `a`.
///
/// Trusted: indexes the graph by a node index, which panics when the node
/// does not exist, so `requires` leaves that out.
#[verifier::external_body]
pub(crate) fn node_weight(g: &TypingGraph, a: usize) -> (weight: &TypingNode)
    requires
        a < graph_nodes(*g).len(),
    ensures
        weight@ == graph_nodes(*g)[a as int],
{
    &g[NodeIndex::new(a)]
}

/// The nodes that `a` has an edge to, most recently added edge first.
///
/// Trusted: calls `Graph::neighbors`, documented to list the neighbours of a
/// directed graph in reverse order of their addition, and none for a node
/// that does not exist.
#[verifier::external_body]
pub(crate) fn neighbors(g: &TypingGraph, a: usize) -> (targets: Vec<usize>)
    ensures
        targets@ == successors(graph_edges(*g), a),
{
    g.neighbors(NodeIndex::new(a)).map(|n| n.index()).collect()
}

/// The nodes in the order of a topological walk of the reversed graph.
///
/// Trusted: runs `petgraph::visit::Topo` over `Reversed(g)` to its end. The
/// walker yields a node once, and only after every node that it has an edge
/// to in `g`; on a graph without cycles it yields every node, and a graph
/// whose edges all lead to a larger index has no cycle.
#[verifier::external_body]
pub(crate) fn reversed_topological_order(g: &TypingGraph) -> (order: Vec<usize>)
    ensures
        successors_first(order@, graph_nodes(*g).len(), graph_edges(*g)),
{
    let reversed = Reversed(g);
    let mut topo = Topo::new(&reversed);
    let mut order = Vec::new();
    while let Some(node) = topo.next(&reversed) {
        order.push(node.index());
    }
    order
}

} // verus!
