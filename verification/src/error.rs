//! Errors of the directed latency graph.

use vstd::prelude::*;

verus! {

/// Errors detected while building a directed latency graph. Construction
/// is all-or-nothing: a graph is either fully valid or not produced.
#[derive(Debug)]
pub enum GraphBuildError {
    /// A node name appears more than once in the node list.
    DuplicateNode(String),
    /// An edge references a source node that was not declared.
    UnknownFrom(String),
    /// An edge references a destination node that was not declared.
    UnknownTo(String),
    /// An edge carries a negative latency (whole milliseconds).
    NegativeLatency { from: String, to: String, latency_ms: i64 },
    /// An edge joins a node to itself.
    SelfLoop { node: String },
}

/// Errors reported by path queries. Both are ordinary outcomes of valid
/// queries, distinguishable by the caller.
#[derive(Debug)]
pub enum PathError {
    /// The named node does not exist in the graph.
    NodeNotFound(String),
    /// Both nodes exist, but no directed path joins them.
    PathNotFound { from: String, to: String },
}

} // verus!
