//! The node graph's storage: a `petgraph` stable directed graph whose node
//! weights are [`NodeInstance`]s and whose edge weights are
//! `(from_port, to_port)` pairs.
//!
//! Verus cannot see inside the outside graph type, so its contents are named:
//! [`topology_nodes`] maps each live node index to its weight, and
//! [`topology_edges`] maps each live edge index to
//! `(source, target, from_port, to_port)`. Each wrapper below states, over
//! those two names, what the `petgraph` source shows the method does.

use petgraph::stable_graph::{EdgeIndex, NodeIndex, StableGraph};
use petgraph::visit::EdgeRef;
use petgraph::{Directed, Direction};
use vstd::prelude::*;

use crate::node::NodeInstance;

verus! {

#[verifier::external_type_specification]
#[verifier::external_body]
#[verifier::reject_recursive_types(N)]
#[verifier::reject_recursive_types(E)]
#[verifier::reject_recursive_types(Ty)]
#[verifier::reject_recursive_types(Ix)]
pub struct ExStableGraph<N, E, Ty, Ix>(StableGraph<N, E, Ty, Ix>);

#[verifier::external_type_specification]
#[verifier::external_body]
pub struct ExDirected(Directed);

/// Live nodes of a graph: node index to node weight.
pub uninterp spec fn topology_nodes(g: StableGraph<NodeInstance, (usize, usize), Directed, u32>) -> Map<usize, NodeInstance>;

/// Live edges of a graph: edge index to `(source, target, from_port, to_port)`.
pub uninterp spec fn topology_edges(g: StableGraph<NodeInstance, (usize, usize), Directed, u32>) -> Map<usize, (usize, usize, usize, usize)>;

/// Largest number of live nodes (and of live edges) a `u32`-indexed stable
/// graph holds before `add_node` / `add_edge` panic.
pub open spec fn topology_capacity() -> nat {
    0xffff_ffffnat
}

/// The node table of a graph with no nodes.
pub open spec fn no_nodes() -> Map<usize, NodeInstance> {
    Map::empty()
}

/// The edge table of a graph with no edges.
pub open spec fn no_edges() -> Map<usize, (usize, usize, usize, usize)> {
    Map::empty()
}

/// `StableGraph::new`: a graph with no nodes and no edges.
#[verifier::external_body]
pub(crate) fn topo_new() -> (g: StableGraph<NodeInstance, (usize, usize), Directed, u32>)
    ensures
        topology_nodes(g) == no_nodes(),
        topology_edges(g) == no_edges(),
{
    StableGraph::with_capacity(0, 0)
}

/// `StableGraph::clear`: removes every node and edge.
#[verifier::external_body]
pub(crate) fn topo_clear(g: &mut StableGraph<NodeInstance, (usize, usize), Directed, u32>)
    ensures
        topology_nodes(*final(g)) == no_nodes(),
        topology_edges(*final(g)) == no_edges(),
{
    g.clear()
}

/// `StableGraph::add_node`: stores `w` under an index that was not live
/// (a vacated slot or a new one) and leaves the edges alone. It panics only
/// when the graph already holds `u32::MAX` nodes, which `requires` excludes.
#[verifier::external_body]
pub(crate) fn topo_add_node(g: &mut StableGraph<NodeInstance, (usize, usize), Directed, u32>, w: NodeInstance) -> (idx: usize)
    requires
        topology_nodes(*old(g)).dom().finite(),
        topology_nodes(*old(g)).len() < topology_capacity(),
    ensures
        !topology_nodes(*old(g)).contains_key(idx),
        idx < topology_capacity(),
        topology_nodes(*final(g)) == topology_nodes(*old(g)).insert(idx, w),
        topology_edges(*final(g)) == topology_edges(*old(g)),
{
    g.add_node(w).index()
}

/// `StableGraph::remove_node` on a live index: the node goes, and so does
/// every edge that starts or ends at it; the other indices stay valid.
#[verifier::external_body]
pub(crate) fn topo_remove_node(g: &mut StableGraph<NodeInstance, (usize, usize), Directed, u32>, idx: usize)
    requires
        topology_nodes(*old(g)).contains_key(idx),
    ensures
        topology_nodes(*final(g)) == topology_nodes(*old(g)).remove(idx),
        topology_edges(*final(g)) == Map::new(
            |e: usize| topology_edges(*old(g)).contains_key(e)
                && topology_edges(*old(g))[e].0 != idx && topology_edges(*old(g))[e].1 != idx,
            |e: usize| topology_edges(*old(g))[e],
        ),
{
    g.remove_node(NodeIndex::new(idx));
}

/// `StableGraph::add_edge` between two live nodes: stores the edge under an
/// index that was not live and leaves the nodes alone. It panics only for a
/// missing endpoint or when `u32::MAX` edges are live; `requires` excludes both.
#[verifier::external_body]
pub(crate) fn topo_add_edge(
    g: &mut StableGraph<NodeInstance, (usize, usize), Directed, u32>,
    a: usize,
    b: usize,
    from_port: usize,
    to_port: usize,
) -> (e: usize)
    requires
        topology_nodes(*old(g)).contains_key(a),
        topology_nodes(*old(g)).contains_key(b),
        topology_edges(*old(g)).dom().finite(),
        topology_edges(*old(g)).len() < topology_capacity(),
    ensures
        !topology_edges(*old(g)).contains_key(e),
        topology_edges(*final(g)) == topology_edges(*old(g)).insert(e, (a, b, from_port, to_port)),
        topology_nodes(*final(g)) == topology_nodes(*old(g)),
{
    g.add_edge(NodeIndex::new(a), NodeIndex::new(b), (from_port, to_port)).index()
}

/// `StableGraph::remove_edge` on a live edge index: only that edge goes.
#[verifier::external_body]
pub(crate) fn topo_remove_edge(g: &mut StableGraph<NodeInstance, (usize, usize), Directed, u32>, e: usize)
    requires
        topology_edges(*old(g)).contains_key(e),
    ensures
        topology_edges(*final(g)) == topology_edges(*old(g)).remove(e),
        topology_nodes(*final(g)) == topology_nodes(*old(g)),
{
    g.remove_edge(EdgeIndex::new(e));
}

/// `StableGraph::node_weight`: the weight of a live node, `None` otherwise.
/// The index is converted to `u32`, so `requires` keeps it in that range.
#[verifier::external_body]
pub(crate) fn topo_node_weight(g: &StableGraph<NodeInstance, (usize, usize), Directed, u32>, idx: usize) -> (r: Option<&NodeInstance>)
    requires
        idx < topology_capacity(),
    ensures
        match r {
            Some(w) => topology_nodes(*g).contains_key(idx) && *w == topology_nodes(*g)[idx],
            None => !topology_nodes(*g).contains_key(idx),
        },
{
    g.node_weight(NodeIndex::new(idx))
}

/// Indexing assignment `g[idx] = w` on a live node: replaces its weight and
/// nothing else.
#[verifier::external_body]
pub(crate) fn topo_set_node_weight(g: &mut StableGraph<NodeInstance, (usize, usize), Directed, u32>, idx: usize, w: NodeInstance)
    requires
        topology_nodes(*old(g)).contains_key(idx),
    ensures
        topology_nodes(*final(g)) == topology_nodes(*old(g)).insert(idx, w),
        topology_edges(*final(g)) == topology_edges(*old(g)),
{
    g[NodeIndex::new(idx)] = w;
}

/// `StableGraph::node_indices`: every live node index, in increasing order.
#[verifier::external_body]
pub(crate) fn topo_node_indices(g: &StableGraph<NodeInstance, (usize, usize), Directed, u32>) -> (r: Vec<usize>)
    ensures
        forall|i: int, j: int| 0 <= i < j < r.len() ==> r[i] < r[j],
        forall|i: int| 0 <= i < r.len() ==> topology_nodes(*g).contains_key(#[trigger] r[i]),
        forall|k: usize| topology_nodes(*g).contains_key(k) ==> r@.contains(k),
{
    g.node_indices().map(|n| n.index()).collect()
}

/// `StableGraph::edges_directed(a, Outgoing)`: every live edge that starts at
/// `a`, each once, as `(edge index, (source, target, from_port, to_port))`.
/// The index is converted to `u32`, so `requires` keeps it in that range.
#[verifier::external_body]
pub(crate) fn topo_outgoing(g: &StableGraph<NodeInstance, (usize, usize), Directed, u32>, a: usize) -> (r: Vec<(usize, (usize, usize, usize, usize))>)
    requires
        a < topology_capacity(),
    ensures
        forall|i: int| 0 <= i < r.len() ==> {
            &&& topology_edges(*g).contains_key(#[trigger] r[i].0)
            &&& topology_edges(*g)[r[i].0] == r[i].1
            &&& r[i].1.0 == a
        },
        forall|e: usize| topology_edges(*g).contains_key(e) && topology_edges(*g)[e].0 == a
            ==> exists|i: int| 0 <= i < r.len() && #[trigger] r[i].0 == e,
        forall|i: int, j: int| 0 <= i < j < r.len() ==> r[i].0 != r[j].0,
{
    g.edges_directed(NodeIndex::new(a), Direction::Outgoing).map(|e| (e.id().index(), (e.source().index(), e.target().index(), e.weight().0, e.weight().1))).collect()
}

/// `StableGraph::edges_directed(b, Incoming)`: every live edge that ends at
/// `b`, each once, as `(edge index, (source, target, from_port, to_port))`.
/// The index is converted to `u32`, so `requires` keeps it in that range.
#[verifier::external_body]
pub(crate) fn topo_incoming(g: &StableGraph<NodeInstance, (usize, usize), Directed, u32>, b: usize) -> (r: Vec<(usize, (usize, usize, usize, usize))>)
    requires
        b < topology_capacity(),
    ensures
        forall|i: int| 0 <= i < r.len() ==> {
            &&& topology_edges(*g).contains_key(#[trigger] r[i].0)
            &&& topology_edges(*g)[r[i].0] == r[i].1
            &&& r[i].1.1 == b
        },
        forall|e: usize| topology_edges(*g).contains_key(e) && topology_edges(*g)[e].1 == b
            ==> exists|i: int| 0 <= i < r.len() && #[trigger] r[i].0 == e,
        forall|i: int, j: int| 0 <= i < j < r.len() ==> r[i].0 != r[j].0,
{
    g.edges_directed(NodeIndex::new(b), Direction::Incoming).map(|e| (e.id().index(), (e.source().index(), e.target().index(), e.weight().0, e.weight().1))).collect()
}

/// `StableGraph::node_count`: the number of live nodes.
#[verifier::external_body]
pub(crate) fn topo_node_count(g: &StableGraph<NodeInstance, (usize, usize), Directed, u32>) -> (n: usize)
    ensures
        n == topology_nodes(*g).len(),
{
    g.node_count()
}

/// `StableGraph::edge_count`: the number of live edges.
#[verifier::external_body]
pub(crate) fn topo_edge_count(g: &StableGraph<NodeInstance, (usize, usize), Directed, u32>) -> (n: usize)
    ensures
        n == topology_edges(*g).len(),
{
    g.edge_count()
}

} // verus!
