//! The learned topology: an undirected weighted graph over node identifiers,
//! held in a `petgraph` graph map. The graph itself is opaque to the proofs;
//! `edges_of` names its contents as a symmetric map from ordered node pairs
//! to weights (in thousandths), and every operation is a trusted call whose
//! contract states, over that name, what `petgraph`'s source shows.

use crate::types::NodeId;
use vstd::prelude::*;

verus! {

/// Undirected weighted graph over node identifiers. Weights are in
/// thousandths. Self-loops are never installed.
#[verifier::external_body]
#[derive(Debug)]
pub struct Topology {
    graph: petgraph::graphmap::GraphMap<NodeId, u64, petgraph::Undirected>,
}

/// The edges of the graph, as a map holding both orientations of every
/// undirected edge with its weight.
pub uninterp spec fn edges_of(t: Topology) -> Map<(NodeId, NodeId), u64>;

impl Topology {
    /// Relies on `petgraph::graphmap::GraphMap::new`: the fresh graph has no
    /// edges.
    #[verifier::external_body]
    pub fn new() -> (r: Topology)
        ensures
            forall|k: (NodeId, NodeId)| !edges_of(r).dom().contains(k),
    {
        Topology { graph: petgraph::graphmap::GraphMap::new() }
    }

    /// Relies on `petgraph::graphmap::GraphMap::add_edge`: inserts the edge
    /// or replaces its weight; the undirected edge key covers both
    /// orientations.
    #[verifier::external_body]
    pub fn add_edge(&mut self, u: NodeId, v: NodeId, w: u64)
        requires
            u != v,
        ensures
            edges_of(*final(self)) == edges_of(*old(self)).insert((u, v), w).insert((v, u), w),
    {
        self.graph.add_edge(u, v, w);
    }

    /// Relies on `petgraph::graphmap::GraphMap::remove_edge`: removes the
    /// undirected edge if present.
    #[verifier::external_body]
    pub fn remove_edge(&mut self, u: NodeId, v: NodeId)
        ensures
            edges_of(*final(self)) == edges_of(*old(self)).remove((u, v)).remove((v, u)),
    {
        self.graph.remove_edge(u, v);
    }

    /// Relies on `petgraph::graphmap::GraphMap::remove_node`: removes the
    /// node together with every incident edge.
    #[verifier::external_body]
    pub fn remove_node(&mut self, n: NodeId)
        ensures
            edges_of(*final(self)) == edges_of(*old(self)).restrict(
                Set::new(|k: (NodeId, NodeId)| k.0 != n && k.1 != n),
            ),
    {
        self.graph.remove_node(n);
    }

    /// Relies on `petgraph::graphmap::GraphMap::edge_weight`: returns the
    /// weight of the undirected edge if present.
    #[verifier::external_body]
    pub fn edge_weight(&self, u: NodeId, v: NodeId) -> (r: Option<u64>)
        ensures
            r == if edges_of(*self).dom().contains((u, v)) {
                Some(edges_of(*self)[(u, v)])
            } else {
                Option::<u64>::None
            },
    {
        self.graph.edge_weight(u, v).copied()
    }

    /// Relies on `petgraph::graphmap::GraphMap::neighbors`: yields exactly
    /// the nodes joined to `u` by an edge.
    #[verifier::external_body]
    pub fn neighbors(&self, u: NodeId) -> (r: Vec<NodeId>)
        ensures
            forall|x: NodeId| #[trigger]
                r@.contains(x) <==> edges_of(*self).dom().contains((u, x)),
    {
        self.graph.neighbors(u).collect()
    }
}

} // verus!
