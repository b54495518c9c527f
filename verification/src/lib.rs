//! Hierarchical task graphs: composition, ordering and scheduling.

pub mod adjacency;
pub mod builder;
pub mod dag;
pub mod dsl;
pub mod engine;
pub mod graph;
pub mod meta;
pub mod tasks;

pub use graph::{Graph, GraphBounds, GraphError, GraphView};
pub use meta::{Marker, Meta};

use vstd::prelude::*;

verus! {

/// The index of a node in its graph.
pub type NodeId = usize;

} // verus!
