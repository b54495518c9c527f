//! The pending counters of a running graph and how they advance.
use vstd::prelude::*;

use crate::adjacency::{ascending_selection, copy_slice};
use crate::engine::{ready_nodes, release, released, NodeStatus, Resolution};
use crate::graph::Graph;
use crate::NodeId;

verus! {

/// For each node, how many of its incoming edges still wait for their source
/// to resolve.
pub struct Schedule {
    pub(crate) in_degree: Vec<usize>,
}

impl Schedule {
    /// The pending counter of each node.
    pub closed spec fn pending(&self) -> Seq<usize> {
        self.in_degree@
    }

    /// A schedule where no node has resolved yet.
    pub fn from(graph: &Graph) -> (s: Schedule)
        ensures
            s.pending() == graph@.in_degree,
    {
        Schedule { in_degree: copy_slice(graph.in_degree()) }
    }

    /// The nodes that start first: those without incoming edges, in increasing order.
    pub fn start(&self, graph: &Graph) -> (r: Vec<(NodeId, NodeStatus)>)
        requires
            graph@.wf(),
        ensures
            ascending_selection(
                r@.map_values(|p: (NodeId, NodeStatus)| p.0),
                graph@.len(),
                |v: usize| graph@.is_source(v),
            ),
            forall|i: int| 0 <= i < r@.len() ==> #[trigger] r@[i].1 == NodeStatus::Started,
    {
        let sources = graph.sources();
        started(&sources)
    }

    /// Resolves `target`: releases one pending edge per entry of its list, and
    /// reports `target` resolved, then each node whose counter reached zero as
    /// started.
    pub fn advance(&mut self, graph: &Graph, target: NodeId, resolution: Resolution) -> (r: Vec<(NodeId, NodeStatus)>)
        requires
            graph@.wf(),
            old(self).pending().len() == graph@.len(),
            target < graph@.len(),
        ensures
            final(self).pending() == released(old(self).pending(), graph@.adj[target as int]),
            r@ == seq![(target, NodeStatus::Resolved(resolution))] + ready_nodes(
                old(self).pending(),
                graph@.adj[target as int],
            ).map_values(|v: usize| (v, NodeStatus::Started)),
    {
        let adj = graph.adj();
        let targets = &adj[target];
        proof {
            assert(targets@ == graph@.adj[target as int]);
            assert forall|j: int| 0 <= j < targets@.len() implies #[trigger] targets@[j] < self.in_degree@.len() by {
                assert(graph@.adj[target as int][j] < graph@.len());
            }
        }
        let ready = release(&mut self.in_degree, targets);
        let mut queue: Vec<(NodeId, NodeStatus)> = Vec::new();
        queue.push((target, NodeStatus::Resolved(resolution)));
        let tail = started(&ready);
        let mut i: usize = 0;
        while i < tail.len()
            invariant
                i <= tail@.len(),
                queue@ == seq![(target, NodeStatus::Resolved(resolution))] + tail@.take(i as int),
            decreases tail@.len() - i,
        {
            queue.push(tail[i]);
            i += 1;
            assert(queue@ =~= seq![(target, NodeStatus::Resolved(resolution))] + tail@.take(i as int));
        }
        assert(tail@.take(i as int) =~= tail@);
        assert(tail@ =~= ready@.map_values(|v: usize| (v, NodeStatus::Started)));
        queue
    }
}

/// Each node of `ids`, in order, paired with the started status.
pub fn started(ids: &Vec<NodeId>) -> (r: Vec<(NodeId, NodeStatus)>)
    ensures
        r@ == ids@.map_values(|v: usize| (v, NodeStatus::Started)),
        r@.map_values(|p: (NodeId, NodeStatus)| p.0) == ids@,
{
    let mut r: Vec<(NodeId, NodeStatus)> = Vec::new();
    let mut i: usize = 0;
    while i < ids.len()
        invariant
            i <= ids@.len(),
            r@ == ids@.take(i as int).map_values(|v: usize| (v, NodeStatus::Started)),
        decreases ids@.len() - i,
    {
        r.push((ids[i], NodeStatus::Started));
        i += 1;
        assert(r@ =~= ids@.take(i as int).map_values(|v: usize| (v, NodeStatus::Started)));
    }
    assert(ids@.take(i as int) =~= ids@);
    assert(r@.map_values(|p: (NodeId, NodeStatus)| p.0) =~= ids@);
    r
}

} // verus!
