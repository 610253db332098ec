//! Result types of shortest-path queries.

use crate::directed::NodeId;
use vstd::prelude::*;

verus! {

/// A directed edge of the latency graph, with its weight in milliseconds.
#[derive(Debug, Clone, Copy, PartialEq, Eq, Structural)]
pub struct Edge {
    /// Source node.
    pub from: NodeId,
    /// Destination node.
    pub to: NodeId,
    /// Edge latency in milliseconds.
    pub latency_ms: u32,
}

/// A path through the graph with its total cost.
#[derive(Debug)]
pub struct Path {
    /// Source node.
    pub from: NodeId,
    /// Destination node.
    pub to: NodeId,
    /// The nodes traversed, source first, destination last.
    pub path: Vec<NodeId>,
    /// Total latency in milliseconds.
    pub cost: u64,
    /// The first maximum-latency edge along the path; absent exactly when
    /// the path has a single node.
    pub bottleneck: Option<Edge>,
}

} // verus!
