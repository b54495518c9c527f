//! The vocabulary of schedules whose tasks outside code knows by its own
//! identifiers.
use vstd::prelude::*;

verus! {

/// A type whose values may tag a task.
pub trait TaskMarker: 'static {}

impl<T: 'static> TaskMarker for T {}

/// The index of a task in its schedule's graph.
pub type InternId = usize;

/// An identifier that code outside the graph uses for a task.
pub trait ExternId: std::hash::Hash + Eq + Clone + Send + Sync + 'static {}

impl<T: std::hash::Hash + Eq + Clone + Send + Sync + 'static> ExternId for T {}

/// A notification about a task.
#[derive(Debug, Clone, Copy, PartialEq, Eq, Structural)]
pub enum Event {
    Started,
    Resolved,
}

} // verus!
