//! Verified graph analysis library.
//!
//! Two independent graph models:
//!
//! * a directed latency graph keyed by node name, supporting shortest-path
//!   queries with bottleneck-edge identification and "what-if" edge
//!   modification;
//! * an undirected weighted graph keyed by dense integer id, supporting
//!   minimum-spanning-tree construction and critical-component analysis
//!   (bridges and articulation points).
//!
//! A disjoint-set forest backs the spanning-tree builder.

pub mod directed;
pub mod dsu;
pub mod error;
pub mod mst;
pub mod modify;
pub mod output;
pub mod path;
pub mod shortest;
pub mod undirected;
