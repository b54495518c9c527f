//! The decisions of a reactive runner: which notifications to deliver, and when
//! a missing listener or an unknown type stops it.
use vstd::prelude::*;
use std::any::TypeId;

use crate::adjacency::{copy_slice, nodes_where};
use crate::engine::{ready_nodes, release, released};
use crate::graph::{Graph, GraphView};
use crate::meta::{same_type, Meta};
use crate::NodeId;

verus! {

/// A notification for the listeners of a node's type.
#[derive(Debug, Clone, Copy, PartialEq, Eq, Structural)]
pub enum Event {
    Started,
    Resolved(Resolution),
}

/// How a node ended.
#[derive(Debug, Clone, Copy, PartialEq, Eq, Structural)]
pub enum Resolution {
    Finished,
    Cancelled,
}

#[derive(Debug, Clone, Copy, PartialEq, Eq, Structural)]
pub enum ReactorError {
    /// A notification is due for a node whose type nobody listens to.
    MissingListener,
    /// No node of the graph has the type asked for.
    UnknownTypeId,
}

/// The state of a running graph: the graph, its pending counters, and the node
/// types that have listeners.
pub struct Reactor {
    pub(crate) graph: Graph,
    pub(crate) in_degree: Vec<usize>,
    pub(crate) listened: Vec<TypeId>,
}

impl Reactor {
    pub closed spec fn graph_view(&self) -> GraphView {
        self.graph@
    }

    /// The pending counter of each node.
    pub closed spec fn pending(&self) -> Seq<usize> {
        self.in_degree@
    }

    /// The types that have listeners.
    pub closed spec fn heard_types(&self) -> Seq<TypeId> {
        self.listened@
    }

    /// Someone listens to the type of node `id`.
    pub open spec fn is_heard(&self, id: NodeId) -> bool {
        self.heard_types().contains(self.graph_view().meta[id as int].type_key())
    }

    /// `delivered` is the longest prefix of `queue` whose nodes are all heard,
    /// and `result` fails with a missing listener exactly when that prefix
    /// stops short.
    pub open spec fn delivers(
        &self,
        queue: Seq<(NodeId, Event)>,
        delivered: Seq<(NodeId, Event)>,
        result: Result<(), ReactorError>,
    ) -> bool {
        &&& delivered.len() <= queue.len()
        &&& delivered == queue.take(delivered.len() as int)
        &&& forall|i: int| 0 <= i < delivered.len() ==> self.is_heard(#[trigger] delivered[i].0)
        &&& result is Ok <==> delivered.len() == queue.len()
        &&& result is Err ==> result == Err::<(), ReactorError>(ReactorError::MissingListener)
            && !self.is_heard(queue[delivered.len() as int].0)
    }

    pub closed spec fn wf(&self) -> bool {
        &&& self.graph@.wf()
        &&& self.in_degree@.len() == self.graph@.len()
    }

    /// A runner over `graph` where nothing has resolved and nobody listens.
    pub fn from(graph: Graph) -> (r: Reactor)
        requires
            graph@.wf(),
        ensures
            r.wf(),
            r.graph_view() == graph@,
            r.pending() == graph@.in_degree,
            r.heard_types() == Seq::<TypeId>::empty(),
    {
        let in_degree = copy_slice(graph.in_degree());
        Reactor { in_degree, graph, listened: Vec::new() }
    }

    /// The notifications that starting the graph delivers: its sources, in
    /// increasing order, each started, up to the first one nobody listens to.
    pub fn init(&self) -> (r: (Vec<(NodeId, Event)>, Result<(), ReactorError>))
        requires
            self.wf(),
        ensures
            self.delivers(
                nodes_where(self.graph_view().len(), |v: usize| self.graph_view().is_source(v)).map_values(
                    |v: usize| (v, Event::Started),
                ),
                r.0@,
                r.1,
            ),
    {
        let roots = self.graph.sources();
        let queue = started_events(&roots);
        proof {
            assert forall|i: int| 0 <= i < queue@.len() implies #[trigger] queue@[i].0 < self.graph_view().len() by {
                assert(queue@[i].0 == roots@[i]);
                assert(roots@[i] < self.graph@.len());
            }
        }
        self.deliver(&queue)
    }

    /// Puts every pending counter back to the in-degree of its node.
    pub fn reset(&mut self)
        requires
            old(self).wf(),
        ensures
            final(self).wf(),
            final(self).graph_view() == old(self).graph_view(),
            final(self).heard_types() == old(self).heard_types(),
            final(self).pending() == old(self).graph_view().in_degree,
    {
        self.in_degree = copy_slice(self.graph.in_degree());
    }

    /// Registers that someone listens to `type_id`, which must tag some node.
    pub fn listen_for(&mut self, type_id: TypeId) -> (r: Result<(), ReactorError>)
        requires
            old(self).wf(),
        ensures
            final(self).wf(),
            final(self).graph_view() == old(self).graph_view(),
            final(self).pending() == old(self).pending(),
            r is Err <==> !(exists|i: int|
                0 <= i < old(self).graph_view().len() && #[trigger] old(self).graph_view().meta[i].type_key()
                    == type_id),
            r matches Err(e) ==> e == ReactorError::UnknownTypeId && final(self).heard_types() == old(self).heard_types(),
            r is Ok ==> forall|t: TypeId|
                #[trigger] final(self).heard_types().contains(t) <==> (old(self).heard_types().contains(t) || t
                    == type_id),
    {
        let metas = self.graph.meta();
        let mut type_exists = false;
        let mut i: usize = 0;
        while i < metas.len()
            invariant
                metas@ == self.graph@.meta,
                i <= metas@.len(),
                type_exists <==> exists|k: int| 0 <= k < i && #[trigger] metas@[k].type_key() == type_id,
            decreases metas@.len() - i,
        {
            if same_type(metas[i].type_id(), &type_id) {
                type_exists = true;
            }
            i += 1;
        }
        assert(self.graph@.len() == metas@.len());
        if !type_exists {
            return Err(ReactorError::UnknownTypeId);
        }
        let mut known = false;
        let mut k: usize = 0;
        while k < self.listened.len()
            invariant
                k <= self.listened@.len(),
                known <==> self.listened@.take(k as int).contains(type_id),
            decreases self.listened@.len() - k,
        {
            proof {
                let t0 = self.listened@.take(k as int);
                assert(self.listened@.take(k as int + 1) =~= t0.push(self.listened@[k as int]));
                crate::meta::lemma_push_contains_type(t0, self.listened@[k as int], type_id);
            }
            if same_type(&self.listened[k], &type_id) {
                known = true;
            }
            k += 1;
        }
        assert(self.listened@.take(k as int) =~= self.listened@);
        if !known {
            self.listened.push(type_id);
            proof {
                assert forall|t: TypeId| #[trigger] self.listened@.contains(t) <==> (old(self).listened@.contains(t)
                    || t == type_id) by {
                    crate::meta::lemma_push_contains_type(old(self).listened@, type_id, t);
                }
            }
        }
        Ok(())
    }

    /// Resolves node `id`: releases its downstream edges, then delivers the
    /// notification that `id` resolved followed by one per node that became
    /// ready, up to the first one nobody listens to.
    pub fn resolve(&mut self, id: NodeId, resolution: Resolution) -> (r: (Vec<(NodeId, Event)>, Result<(), ReactorError>))
        requires
            old(self).wf(),
            id < old(self).graph_view().len(),
        ensures
            final(self).wf(),
            final(self).graph_view() == old(self).graph_view(),
            final(self).heard_types() == old(self).heard_types(),
            final(self).pending() == released(old(self).pending(), old(self).graph_view().adj[id as int]),
            old(self).delivers(
                seq![(id, Event::Resolved(resolution))] + ready_nodes(
                    old(self).pending(),
                    old(self).graph_view().adj[id as int],
                ).map_values(|v: usize| (v, Event::Started)),
                r.0@,
                r.1,
            ),
    {
        let adj = self.graph.adj();
        let targets = &adj[id];
        proof {
            assert(targets@ == self.graph@.adj[id as int]);
            assert forall|j: int| 0 <= j < targets@.len() implies #[trigger] targets@[j] < self.in_degree@.len() by {
                assert(self.graph@.adj[id as int][j] < self.graph@.len());
            }
        }
        let ready = release(&mut self.in_degree, targets);
        let mut queue: Vec<(NodeId, Event)> = Vec::new();
        queue.push((id, Event::Resolved(resolution)));
        let tail = started_events(&ready);
        let mut i: usize = 0;
        while i < tail.len()
            invariant
                i <= tail@.len(),
                queue@ == seq![(id, Event::Resolved(resolution))] + tail@.take(i as int),
            decreases tail@.len() - i,
        {
            queue.push(tail[i]);
            i += 1;
            assert(queue@ =~= seq![(id, Event::Resolved(resolution))] + tail@.take(i as int));
        }
        assert(tail@.take(i as int) =~= tail@);
        assert(tail@ =~= ready@.map_values(|v: usize| (v, Event::Started)));
        proof {
            crate::engine::lemma_ready_in_targets(old(self).in_degree@, targets@);
            assert forall|k: int| 0 <= k < queue@.len() implies #[trigger] queue@[k].0 < self.graph_view().len() by {
                if k > 0 {
                    assert(queue@[k] == tail@[k - 1]);
                    assert(targets@.contains(ready@[k - 1]));
                    let j = choose|j: int| 0 <= j < targets@.len() && targets@[j] == ready@[k - 1];
                    assert(self.graph@.adj[id as int][j] < self.graph@.len());
                }
            }
        }
        self.deliver(&queue)
    }

    /// The metadata of each node, with its id.
    pub fn node_meta(&self) -> (r: Vec<(NodeId, Meta)>)
        ensures
            r@.len() == self.graph_view().meta.len(),
            forall|i: int| 0 <= i < r@.len() ==> #[trigger] r@[i] == (i as usize, self.graph_view().meta[i]),
    {
        let metas = self.graph.meta();
        let mut r: Vec<(NodeId, Meta)> = Vec::new();
        let mut i: usize = 0;
        while i < metas.len()
            invariant
                metas@ == self.graph@.meta,
                i <= metas@.len(),
                r@.len() == i,
                forall|k: int| 0 <= k < i ==> #[trigger] r@[k] == (k as usize, metas@[k]),
            decreases metas@.len() - i,
        {
            r.push((i, metas[i]));
            i += 1;
        }
        r
    }

    /// Whether someone listens to the type of node `id`.
    fn heard(&self, id: NodeId) -> (r: bool)
        requires
            self.wf(),
            id < self.graph_view().len(),
        ensures
            r == self.is_heard(id),
    {
        let metas = self.graph.meta();
        let type_id = metas[id].type_id();
        let mut k: usize = 0;
        while k < self.listened.len()
            invariant
                k <= self.listened@.len(),
                *type_id == self.graph@.meta[id as int].type_key(),
                !self.listened@.take(k as int).contains(*type_id),
            decreases self.listened@.len() - k,
        {
            proof {
                let t0 = self.listened@.take(k as int);
                assert(self.listened@.take(k as int + 1) =~= t0.push(self.listened@[k as int]));
                crate::meta::lemma_push_contains_type(t0, self.listened@[k as int], *type_id);
            }
            if same_type(&self.listened[k], type_id) {
                return true;
            }
            k += 1;
        }
        assert(self.listened@.take(k as int) =~= self.listened@);
        false
    }

    /// Hands out the notifications of `queue` in order until one concerns a
    /// node that nobody listens to.
    fn deliver(&self, queue: &Vec<(NodeId, Event)>) -> (r: (Vec<(NodeId, Event)>, Result<(), ReactorError>))
        requires
            self.wf(),
            forall|i: int| 0 <= i < queue@.len() ==> #[trigger] queue@[i].0 < self.graph_view().len(),
        ensures
            self.delivers(queue@, r.0@, r.1),
    {
        let mut delivered: Vec<(NodeId, Event)> = Vec::new();
        let mut i: usize = 0;
        while i < queue.len()
            invariant
                self.wf(),
                forall|k: int| 0 <= k < queue@.len() ==> #[trigger] queue@[k].0 < self.graph_view().len(),
                i <= queue@.len(),
                delivered@ == queue@.take(i as int),
                forall|k: int| 0 <= k < i ==> self.is_heard(#[trigger] queue@[k].0),
            decreases queue@.len() - i,
        {
            let (id, event) = queue[i];
            if !self.heard(id) {
                return (delivered, Err(ReactorError::MissingListener));
            }
            delivered.push((id, event));
            i += 1;
            assert(delivered@ =~= queue@.take(i as int));
        }
        assert(queue@.take(i as int) =~= queue@);
        (delivered, Ok(()))
    }
}

/// Each node of `ids`, in order, with the started event.
pub fn started_events(ids: &Vec<NodeId>) -> (r: Vec<(NodeId, Event)>)
    ensures
        r@ == ids@.map_values(|v: usize| (v, Event::Started)),
        r@.map_values(|p: (NodeId, Event)| p.0) == ids@,
{
    let mut r: Vec<(NodeId, Event)> = Vec::new();
    let mut i: usize = 0;
    while i < ids.len()
        invariant
            i <= ids@.len(),
            r@ == ids@.take(i as int).map_values(|v: usize| (v, Event::Started)),
        decreases ids@.len() - i,
    {
        r.push((ids[i], Event::Started));
        i += 1;
        assert(r@ =~= ids@.take(i as int).map_values(|v: usize| (v, Event::Started)));
    }
    assert(ids@.take(i as int) =~= ids@);
    assert(r@.map_values(|p: (NodeId, Event)| p.0) =~= ids@);
    r
}

} // verus!
