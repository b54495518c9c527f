//! A plain directed acyclic graph whose nodes may carry an external identifier.
use vstd::prelude::*;
use std::any::TypeId;

use crate::adjacency::{
    kahn_sequence, lists_distinct, lemma_in_degree_below_nodes, shift_list,
    append_shifted, ascending_selection, degrees_consistent, empty_list_nodes, insert_edge,
    is_acyclic, is_topological_order, kahn_order, lemma_edges_into_ext, lemma_edges_into_none,
    all_alive, in_degree_of, lists_view, occ, shift_lists, zero_in_degree_nodes,
};
use crate::meta::{short_name, short_type_name, type_id_of};
use crate::tasks::ExternId;
use crate::NodeId;

verus! {

/// The data a [`DAG`] keeps about a node.
pub struct Meta<I: ExternId> {
    pub(crate) type_id: TypeId,
    pub(crate) name: &'static str,
    pub(crate) extern_id: Option<I>,
}

impl<I: ExternId> Meta<I> {
    /// The short name of the type that tags the node.
    pub closed spec fn label(&self) -> Seq<char> {
        self.name@
    }

    /// The identifier outside code gave the node, if any.
    pub closed spec fn external(&self) -> Option<I> {
        self.extern_id
    }

    /// The metadata of type `M`, whose full path `path` is as
    /// `std::any::type_name::<M>()` gives it, with no external identifier yet.
    pub fn new<M: 'static>(path: &'static str) -> (m: Meta<I>)
        ensures
            m.label() == short_name(path@),
            m.external() is None,
    {
        Meta { type_id: type_id_of::<M>(), name: short_type_name(path), extern_id: None }
    }
}

/// Why a [`DAG`] cannot be ordered.
#[derive(Debug, PartialEq, Eq, Structural)]
pub enum SortingError {
    CycleDetected,
}

pub struct DAG<I: ExternId> {
    in_deg: Vec<usize>,
    adj: Vec<Vec<NodeId>>,
    node_meta: Vec<Meta<I>>,
}

impl<I: ExternId> DAG<I> {
    /// The adjacency lists.
    pub closed spec fn lists(&self) -> Seq<Seq<usize>> {
        lists_view(self.adj@)
    }

    /// The in-degree of each node.
    pub closed spec fn degrees(&self) -> Seq<usize> {
        self.in_deg@
    }

    /// The metadata of each node.
    pub closed spec fn metas(&self) -> Seq<Meta<I>> {
        self.node_meta@
    }

    /// Edges stay inside the graph, no edge is held twice, each node has
    /// metadata, and in-degrees count the edges.
    pub open spec fn wf(&self) -> bool {
        &&& degrees_consistent(self.degrees(), self.lists())
        &&& lists_distinct(self.lists())
        &&& self.metas().len() == self.lists().len()
    }

    /// An empty graph.
    pub fn new() -> (g: DAG<I>)
        ensures
            g.wf(),
            g.lists() == Seq::<Seq<usize>>::empty(),
            g.degrees() == Seq::<usize>::empty(),
            g.metas() == Seq::<Meta<I>>::empty(),
    {
        let g = DAG { in_deg: Vec::new(), adj: Vec::new(), node_meta: Vec::new() };
        assert(g.lists() =~= Seq::<Seq<usize>>::empty());
        g
    }

    /// Adds a node tagged with `M`, whose full path is `path`, and returns its id.
    pub fn add_node<M: 'static>(&mut self, path: &'static str) -> (id: NodeId)
        requires
            old(self).wf(),
            old(self).lists().len() < usize::MAX,
        ensures
            final(self).wf(),
            id == old(self).lists().len(),
            final(self).lists() == old(self).lists().push(Seq::empty()),
            final(self).degrees() == old(self).degrees().push(0),
            final(self).metas().take(id as int) == old(self).metas(),
            final(self).metas().len() == id + 1,
            final(self).metas()[id as int].label() == short_name(path@),
            final(self).metas()[id as int].external() is None,
    {
        let ghost l0 = self.lists();
        self.node_meta.push(Meta::new::<M>(path));
        let e: Vec<NodeId> = Vec::new();
        self.adj.push(e);
        self.in_deg.push(0);
        proof {
            let l1 = self.lists();
            assert(l1 =~= l0.push(Seq::empty()));
            assert(self.metas().take(l0.len() as int) =~= old(self).metas());
            assert forall|v: usize| v < l1.len() implies #[trigger] self.in_deg@[v as int]
                == in_degree_of(l1, v) by {
                lemma_edges_into_ext(l1, all_alive(l1.len()), l0, all_alive(l0.len()), v, l0.len() as int);
                if v >= l0.len() {
                    assert forall|u: int| 0 <= u < l0.len() && all_alive(l0.len())[u] implies !(
                    #[trigger] l0[u].contains(v)) by {
                        if l0[u].contains(v) {
                            let j = choose|j: int| 0 <= j < l0[u].len() && l0[u][j] == v;
                            assert(l0[u][j] < l0.len());
                        }
                    }
                    lemma_edges_into_none(l0, all_alive(l0.len()), v, l0.len() as int);
                }
                assert(occ(Seq::<usize>::empty(), v) == 0);
            }
            assert forall|u: int, j: int| 0 <= u < l1.len() && 0 <= j < l1[u].len() implies #[trigger] l1[u][j]
                < l1.len() by {
                assert(l1[u][j] == l0[u][j]);
            }
        }
        self.node_meta.len() - 1
    }

    /// Adds an edge `lhs -> rhs` and counts it, unless it is there already.
    pub fn add_edge(&mut self, lhs: NodeId, rhs: NodeId)
        requires
            old(self).wf(),
            lhs < old(self).lists().len(),
            rhs < old(self).lists().len(),
        ensures
            final(self).wf(),
            final(self).metas() == old(self).metas(),
            final(self).degrees() == if old(self).lists()[lhs as int].contains(rhs) {
                old(self).degrees()
            } else {
                old(self).degrees().update(rhs as int, (old(self).degrees()[rhs as int] + 1) as usize)
            },
            final(self).lists() == if old(self).lists()[lhs as int].contains(rhs) {
                old(self).lists()
            } else {
                old(self).lists().update(lhs as int, old(self).lists()[lhs as int].push(rhs))
            },
    {
        let _n = self.adj.len();
        proof {
            assert(self.lists()[lhs as int] == self.adj@[lhs as int]@);
            if !self.lists()[lhs as int].contains(rhs) {
                lemma_in_degree_below_nodes(self.lists(), rhs, lhs as int);
            }
        }
        let ghost before = self.lists();
        insert_edge(&mut self.in_deg, &mut self.adj, lhs, rhs);
        proof {
            assert forall|u: int| 0 <= u < self.lists().len() implies (#[trigger] self.lists()[u]).no_duplicates() by {
                if u == lhs && !before[u].contains(rhs) {
                    assert(self.lists()[u] =~= before[u].push(rhs));
                }
            }
        }
    }

    /// Appends the nodes of `sub` after this graph's, and returns the ids that
    /// the roots and the leaves of `sub` now have.
    pub fn merge(&mut self, sub: DAG<I>) -> (r: (Vec<NodeId>, Vec<NodeId>))
        requires
            old(self).wf(),
            sub.wf(),
            old(self).lists().len() + sub.lists().len() <= usize::MAX,
        ensures
            final(self).wf(),
            final(self).lists() == old(self).lists() + shift_lists(
                sub.lists(),
                old(self).lists().len() as int,
            ),
            final(self).metas() == old(self).metas() + sub.metas(),
            final(self).degrees() == old(self).degrees() + sub.degrees(),
            ascending_selection(
                r.0@,
                old(self).lists().len() + sub.lists().len(),
                |v: usize|
                    old(self).lists().len() <= v && sub.degrees()[v - old(self).lists().len()] == 0,
            ),
            ascending_selection(
                r.1@,
                old(self).lists().len() + sub.lists().len(),
                |v: usize|
                    old(self).lists().len() <= v && sub.lists()[v - old(self).lists().len()].len()
                        == 0,
            ),
    {
        let offset = self.node_meta.len();
        let ghost m = sub.lists().len();
        let roots = zero_in_degree_nodes(&sub.in_deg);
        let leaves = empty_list_nodes(&sub.adj);
        let sub_roots = offset_all(&roots, offset);
        let sub_leaves = offset_all(&leaves, offset);
        proof {
            assert forall|v: usize|
                v < offset + m && (offset <= v && sub.degrees()[v - offset] == 0) implies #[trigger] sub_roots@.contains(
                v,
            ) by {
                let w = (v - offset) as usize;
                assert(roots@.contains(w));
                let q = choose|q: int| 0 <= q < roots@.len() && roots@[q] == w;
                assert(sub_roots@[q] == v);
            }
            assert forall|v: usize|
                v < offset + m && (offset <= v && sub.lists()[v - offset].len() == 0) implies #[trigger] sub_leaves@.contains(
                v,
            ) by {
                let w = (v - offset) as usize;
                assert(sub.adj@[w as int]@ == sub.lists()[w as int]);
                assert(leaves@.contains(w));
                let q = choose|q: int| 0 <= q < leaves@.len() && leaves@[q] == w;
                assert(sub_leaves@[q] == v);
            }
            assert forall|i: int| 0 <= i < sub_leaves@.len() implies #[trigger] sub.lists()[sub_leaves@[i] - offset].len() == 0 by {
                assert(sub.adj@[leaves@[i] as int]@ == sub.lists()[leaves@[i] as int]);
            }
        }
        let DAG { in_deg: sub_in_deg, adj: sub_adj, node_meta: mut sub_meta } = sub;
        self.node_meta.append(&mut sub_meta);
        append_shifted(&mut self.in_deg, &mut self.adj, &sub_in_deg, &sub_adj);
        (sub_roots, sub_leaves)
    }

    /// Kahn's topological sort of the nodes, or the cycle error.
    pub fn topological_sort(&self) -> (r: Result<Vec<NodeId>, SortingError>)
        requires
            self.wf(),
        ensures
            r is Ok <==> is_acyclic(self.lists()),
            r matches Ok(order) ==> is_topological_order(self.lists(), order@),
            r matches Ok(order) ==> order@ == kahn_sequence(self.lists(), self.degrees()),
            r matches Err(e) ==> e == SortingError::CycleDetected,
    {
        match kahn_order(&self.in_deg, &self.adj) {
            Some(order) => Ok(order),
            None => Err(SortingError::CycleDetected),
        }
    }

    /// The nodes without incoming edges, in increasing order.
    pub fn roots(&self) -> (r: Vec<NodeId>)
        requires
            self.wf(),
        ensures
            ascending_selection(r@, self.lists().len(), |v: usize| self.degrees()[v as int] == 0),
    {
        zero_in_degree_nodes(&self.in_deg)
    }

    /// The nodes without outgoing edges, in increasing order.
    pub fn leaves(&self) -> (r: Vec<NodeId>)
        requires
            self.wf(),
        ensures
            ascending_selection(r@, self.lists().len(), |v: usize| self.lists()[v as int].len() == 0),
    {
        let r = empty_list_nodes(&self.adj);
        assert(forall|v: usize| v < self.lists().len() ==> self.lists()[v as int] == self.adj@[v as int]@);
        r
    }

    /// The short type name of node `id`.
    pub fn name_of(&self, id: NodeId) -> (r: &'static str)
        requires
            id < self.metas().len(),
        ensures
            r@ == self.metas()[id as int].label(),
    {
        self.node_meta[id].name
    }
}

/// Every entry of `s` moved up by `off`, keeping the order.
pub fn offset_all(s: &Vec<usize>, off: usize) -> (r: Vec<usize>)
    requires
        forall|j: int| 0 <= j < s@.len() ==> #[trigger] s@[j] + off <= usize::MAX,
    ensures
        r@.len() == s@.len(),
        forall|j: int| 0 <= j < s@.len() ==> #[trigger] r@[j] == s@[j] + off,
{
    let r = crate::adjacency::shifted(s, off);
    r
}

} // verus!
