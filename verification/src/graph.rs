//! Task graphs: nodes tagged with [`Meta`], directed edges `a -> b` meaning that
//! `a` blocks `b`, and in-degrees kept in step with the edges.
use vstd::prelude::*;

use crate::adjacency::{
    kahn_sequence, lists_distinct, lemma_in_degree_below_nodes,
    all_alive, append_shifted, ascending_selection, attach_each, cleared, concat_lists,
    degrees_consistent, detach_downstream, downstream_of, empty_list_nodes, in_degree_of,
    insert_edge, lemma_nodes_where_ext, nodes_where, is_acyclic, is_topological_order, kahn_order,
    lemma_ascending_distinct, lemma_concat_lists_contains, lemma_dedup, lemma_edges_into_ext,
    lemma_edges_into_none, lemma_occ_contains, lemma_occ_distinct, lists_view, occ, repeat,
    shift_list, shift_lists, shifted, zero_in_degree_nodes,
};
use crate::meta::{short_name, Marker, Meta};
use crate::NodeId;

verus! {

/// Why a graph cannot be ordered.
#[derive(Debug, PartialEq, Eq, Structural)]
pub enum GraphError {
    CycleDetected,
}

/// The entry and exit points of a graph embedded into another.
pub struct GraphBounds {
    pub sources: Vec<NodeId>,
    pub sinks: Vec<NodeId>,
}

/// The mathematical model of a [`Graph`].
pub struct GraphView {
    pub in_degree: Seq<usize>,
    pub adj: Seq<Seq<usize>>,
    pub meta: Seq<Meta>,
}

impl GraphView {
    pub open spec fn len(self) -> nat {
        self.adj.len()
    }

    /// Every edge stays inside the graph, every node has metadata, and each
    /// in-degree counts the edges into its node.
    pub open spec fn wf(self) -> bool {
        &&& degrees_consistent(self.in_degree, self.adj)
        &&& self.meta.len() == self.adj.len()
    }

    /// Node `v` has no incoming edge.
    pub open spec fn is_source(self, v: usize) -> bool {
        self.in_degree[v as int] == 0
    }

    /// Node `v` has no outgoing edge.
    pub open spec fn is_sink(self, v: usize) -> bool {
        self.adj[v as int].len() == 0
    }
}

pub struct Graph {
    in_degree: Vec<usize>,
    adj: Vec<Vec<NodeId>>,
    meta: Vec<Meta>,
}

impl View for Graph {
    type V = GraphView;

    closed spec fn view(&self) -> GraphView {
        GraphView { in_degree: self.in_degree@, adj: lists_view(self.adj@), meta: self.meta@ }
    }
}

impl Graph {
    /// An empty graph.
    pub fn new() -> (g: Graph)
        ensures
            g@.wf(),
            g@.len() == 0,
            lists_distinct(g@.adj),
    {
        let g = Graph { in_degree: Vec::new(), adj: Vec::new(), meta: Vec::new() };
        assert(g@.adj =~= Seq::<Seq<usize>>::empty());
        g
    }

    /// A graph with one node per metadata entry and no edges.
    pub fn from_meta(meta: Vec<Meta>) -> (g: Graph)
        ensures
            g@.wf(),
            g@.meta == meta@,
            g@.adj == Seq::new(meta@.len(), |i: int| Seq::<usize>::empty()),
            g@.in_degree == Seq::new(meta@.len(), |i: int| 0usize),
    {
        let mut in_degree: Vec<usize> = Vec::new();
        let mut adj: Vec<Vec<NodeId>> = Vec::new();
        let mut i: usize = 0;
        while i < meta.len()
            invariant
                i <= meta@.len(),
                in_degree@.len() == i,
                forall|v: int| 0 <= v < i ==> in_degree@[v] == 0,
                lists_view(adj@) == Seq::new(i as nat, |k: int| Seq::<usize>::empty()),
            decreases meta@.len() - i,
        {
            in_degree.push(0);
            let ghost a0 = lists_view(adj@);
            let e: Vec<NodeId> = Vec::new();
            adj.push(e);
            assert(lists_view(adj@) =~= a0.push(Seq::<usize>::empty()));
            i += 1;
            assert(lists_view(adj@) =~= Seq::new(i as nat, |k: int| Seq::<usize>::empty()));
        }
        let g = Graph { in_degree, adj, meta };
        assert(g@.in_degree =~= Seq::new(g@.meta.len(), |i: int| 0usize));
        proof {
            let l = g@.adj;
            assert forall|v: usize| v < l.len() implies #[trigger] g@.in_degree[v as int] == in_degree_of(
                l,
                v,
            ) by {
                lemma_edges_into_none(l, all_alive(l.len()), v, l.len() as int);
            }
        }
        g
    }

    /// Adds a node tagged with `T`, whose full path `path` is as
    /// `std::any::type_name::<T>()` gives it, and returns its id.
    pub fn add_node<T: Marker>(&mut self, path: &'static str) -> (id: NodeId)
        requires
            old(self)@.wf(),
            old(self)@.len() < usize::MAX,
        ensures
            final(self)@.wf(),
            id == old(self)@.len(),
            final(self)@.adj == old(self)@.adj.push(Seq::empty()),
            final(self)@.in_degree == old(self)@.in_degree.push(0),
            lists_distinct(old(self)@.adj) ==> lists_distinct(final(self)@.adj),
            final(self)@.meta.len() == old(self)@.meta.len() + 1,
            final(self)@.meta.take(id as int) == old(self)@.meta,
            final(self)@.meta[id as int].label() == short_name(path@),
    {
        let ghost l0 = self@.adj;
        self.meta.push(Meta::new::<T>(path));
        self.adj.push(Vec::new());
        self.in_degree.push(0);
        proof {
            let l1 = self@.adj;
            assert(l1 =~= l0.push(Seq::empty()));
            assert(self@.meta.take(l0.len() as int) =~= old(self)@.meta);
            assert forall|v: usize| v < l1.len() implies #[trigger] self@.in_degree[v as int]
                == in_degree_of(l1, v) by {
                lemma_edges_into_ext(l1, all_alive(l1.len()), l0, all_alive(l0.len()), v, l0.len() as int);
                if v < l0.len() {
                    assert(self@.in_degree[v as int] == old(self)@.in_degree[v as int]);
                } else {
                    assert forall|u: int| 0 <= u < l0.len() && all_alive(l0.len())[u] implies !(
                    #[trigger] l0[u].contains(v)) by {
                        if l0[u].contains(v) {
                            let j = choose|j: int| 0 <= j < l0[u].len() && l0[u][j] == v;
                            assert(l0[u][j] < l0.len());
                        }
                    }
                    lemma_edges_into_none(l0, all_alive(l0.len()), v, l0.len() as int);
                }
                assert(occ(Seq::<usize>::empty(), v) == 0);
            }
            assert forall|u: int, j: int| 0 <= u < l1.len() && 0 <= j < l1[u].len() implies #[trigger] l1[u][j]
                < l1.len() by {
                assert(l1[u][j] == l0[u][j]);
            }
        }
        self.meta.len() - 1
    }

    /// Adds the edge `lhs -> rhs` unless it is there already. The new count
    /// must fit in `usize`: it does whenever no list repeats an entry, which
    /// only a merge at a repeated node can break.
    pub fn add_edge(&mut self, lhs: NodeId, rhs: NodeId)
        requires
            old(self)@.wf(),
            lhs < old(self)@.len(),
            rhs < old(self)@.len(),
            !old(self)@.adj[lhs as int].contains(rhs) ==> lists_distinct(old(self)@.adj)
                || old(self)@.in_degree[rhs as int] < usize::MAX,
        ensures
            final(self)@.wf(),
            lists_distinct(old(self)@.adj) ==> lists_distinct(final(self)@.adj),
            final(self)@.meta == old(self)@.meta,
            final(self)@.in_degree == if old(self)@.adj[lhs as int].contains(rhs) {
                old(self)@.in_degree
            } else {
                old(self)@.in_degree.update(rhs as int, (old(self)@.in_degree[rhs as int] + 1) as usize)
            },
            final(self)@.adj == if old(self)@.adj[lhs as int].contains(rhs) {
                old(self)@.adj
            } else {
                old(self)@.adj.update(lhs as int, old(self)@.adj[lhs as int].push(rhs))
            },
    {
        let _n = self.adj.len();
        let ghost before = self@.adj;
        proof {
            if !before[lhs as int].contains(rhs) && lists_distinct(before) {
                lemma_in_degree_below_nodes(before, rhs, lhs as int);
            }
        }
        insert_edge(&mut self.in_degree, &mut self.adj, lhs, rhs);
        proof {
            if lists_distinct(before) {
                assert forall|u: int| 0 <= u < self@.adj.len() implies (#[trigger] self@.adj[u]).no_duplicates() by {
                    if u == lhs && !before[u].contains(rhs) {
                        assert(self@.adj[u] =~= before[u].push(rhs));
                    }
                }
            }
        }
    }

    /// Embeds `sub` into this graph at the nodes `at`: the nodes of `sub` are
    /// appended, each node of `at` now leads to the sources of `sub` instead of
    /// its former downstream neighbours, and the sinks of `sub` lead to those
    /// neighbours. Returns the sources and sinks of `sub` as ids of this graph.
    pub fn merge(&mut self, sub: &Graph, at: Vec<NodeId>) -> (bounds: GraphBounds)
        requires
            old(self)@.wf(),
            sub@.wf(),
            forall|i: int| 0 <= i < at@.len() ==> #[trigger] at@[i] < old(self)@.len(),
            old(self)@.len() + sub@.len() <= usize::MAX,
            forall|i: int, j: int|
                0 <= i < at@.len() && 0 <= j < old(self)@.adj[at@[i] as int].len() ==> old(
                    self,
                )@.in_degree[#[trigger] old(self)@.adj[at@[i] as int][j] as int] + sub@.len()
                    <= usize::MAX,
        ensures
            final(self)@.wf(),
            final(self)@.meta == old(self)@.meta + sub@.meta,
            ascending_selection(
                bounds.sources@,
                old(self)@.len() + sub@.len(),
                |v: usize| old(self)@.len() <= v && sub@.is_source((v - old(self)@.len()) as usize),
            ),
            ascending_selection(
                bounds.sinks@,
                old(self)@.len() + sub@.len(),
                |v: usize| old(self)@.len() <= v && sub@.is_sink((v - old(self)@.len()) as usize),
            ),
            final(self)@.adj == Seq::new(
                old(self)@.len() + sub@.len(),
                |u: int|
                    if u < old(self)@.len() {
                        if at@.contains(u as usize) {
                            repeat(bounds.sources@, occ(at@, u as usize))
                        } else {
                            old(self)@.adj[u]
                        }
                    } else if sub@.adj[u - old(self)@.len()].len() == 0 {
                        downstream_of(old(self)@.adj, at@)
                    } else {
                        shift_list(sub@.adj[u - old(self)@.len()], old(self)@.len() as int)
                    },
            ),
    {
        let ghost a0 = self@.adj;
        let ghost in0 = self@.in_degree;
        let ghost b = sub@.adj;
        let n = self.adj.len();
        let m = sub.adj.len();
        let at_len = at.len();
        let roots = zero_in_degree_nodes(&sub.in_degree);
        let leaves = empty_list_nodes(&sub.adj);
        let d = detach_downstream(&mut self.in_degree, &mut self.adj, &at);
        let ghost adj_mid = self.adj@;
        let ghost in_mid = self.in_degree@;
        let mut k: usize = 0;
        while k < sub.meta.len()
            invariant
                self.adj@ == adj_mid,
                self.in_degree@ == in_mid,
                k <= sub@.meta.len(),
                self.meta@ == old(self)@.meta + sub@.meta.take(k as int),
            decreases sub@.meta.len() - k,
        {
            self.meta.push(sub.meta[k]);
            k += 1;
            assert(self.meta@ =~= old(self)@.meta + sub@.meta.take(k as int));
        }
        assert(sub@.meta.take(k as int) =~= sub@.meta);
        append_shifted(&mut self.in_degree, &mut self.adj, &sub.in_degree, &sub.adj);
        proof {
            assert forall|j: int| 0 <= j < roots@.len() implies #[trigger] roots@[j] + n <= usize::MAX by {}
            assert forall|j: int| 0 <= j < leaves@.len() implies #[trigger] leaves@[j] + n <= usize::MAX by {}
        }
        let sources = shifted(&roots, n);
        let sinks = shifted(&leaves, n);
        let ghost a1 = self@.adj;
        let ghost in1 = self@.in_degree;
        proof {
            assert(a1 == cleared(a0, at@) + shift_lists(b, n as int));
            lemma_ascending_distinct(sources@);
            lemma_ascending_distinct(sinks@);
            assert forall|i: int| 0 <= i < sources@.len() implies #[trigger] in1[sources@[i] as int]
                + at@.len() <= usize::MAX by {
                assert(sources@[i] == roots@[i] + n);
                assert(roots@[i] < m);
                assert(sub.in_degree@[roots@[i] as int] == 0);
                assert(in_mid.len() == n);
                assert(in1 == in_mid + sub.in_degree@);
                assert(in1[sources@[i] as int] == sub.in_degree@[roots@[i] as int]);
                assert(at_len == at@.len());
            }
            assert forall|i: int| 0 <= i < sources@.len() implies #[trigger] sources@[i] < a1.len() by {
                assert(sources@[i] == roots@[i] + n);
            }
        }
        attach_each(&mut self.in_degree, &mut self.adj, &at, &sources);
        let ghost a2 = self@.adj;
        let ghost in2 = self@.in_degree;
        proof {
            lemma_dedup(concat_lists(at@.map_values(|a: usize| a0[a as int])));
            assert forall|i: int| 0 <= i < d@.len() implies #[trigger] d@[i] < n && in2[d@[i] as int]
                + sinks@.len() <= usize::MAX by {
                let x = d@[i];
                let ls = at@.map_values(|a: usize| a0[a as int]);
                assert(d@.contains(x));
                lemma_concat_lists_contains(ls, x);
                let k = choose|k: int| 0 <= k < ls.len() && #[trigger] ls[k].contains(x);
                let j = choose|j: int| 0 <= j < ls[k].len() && ls[k][j] == x;
                assert(a0[at@[k] as int][j] == x);
                assert(x < n);
                assert(!sources@.contains(x)) by {
                    if sources@.contains(x) {
                        let q = choose|q: int| 0 <= q < sources@.len() && sources@[q] == x;
                        assert(sources@[q] == roots@[q] + n);
                    }
                }
                assert(in2[x as int] == in1[x as int]);
                assert(in1[x as int] <= in0[x as int]);
                lemma_ascending_distinct(leaves@);
                crate::adjacency::lemma_distinct_bounded(leaves@, m as nat);
            }
            assert forall|i: int| 0 <= i < sinks@.len() implies #[trigger] sinks@[i] < a2.len() by {
                assert(sinks@[i] == leaves@[i] + n);
            }
        }
        attach_each(&mut self.in_degree, &mut self.adj, &sinks, &d);
        proof {
            let a3 = self@.adj;
            let dd = downstream_of(a0, at@);
            assert(d@ == dd);
            assert(a3 =~= Seq::new(
                (n + m) as nat,
                |u: int|
                    if u < n {
                        if at@.contains(u as usize) {
                            repeat(sources@, occ(at@, u as usize))
                        } else {
                            a0[u]
                        }
                    } else if b[u - n].len() == 0 {
                        dd
                    } else {
                        shift_list(b[u - n], n as int)
                    },
            )) by {
                assert forall|u: int| 0 <= u < n + m implies #[trigger] a3[u] == (if u < n {
                    if at@.contains(u as usize) {
                        repeat(sources@, occ(at@, u as usize))
                    } else {
                        a0[u]
                    }
                } else if b[u - n].len() == 0 {
                    dd
                } else {
                    shift_list(b[u - n], n as int)
                }) by {
                    assert(a3[u] == a2[u] + repeat(d@, occ(sinks@, u as usize)));
                    assert(a2[u] == a1[u] + repeat(sources@, occ(at@, u as usize)));
                    lemma_occ_distinct(sinks@, u as usize);
                    assert(repeat(d@, 0) =~= Seq::<usize>::empty());
                    assert(repeat(d@, 1) =~= d@) by {
                        assert(repeat(d@, 0) + d@ =~= d@);
                    }
                    if u < n {
                        assert(!sinks@.contains(u as usize)) by {
                            if sinks@.contains(u as usize) {
                                let q = choose|q: int| 0 <= q < sinks@.len() && sinks@[q] == u as usize;
                                assert(sinks@[q] == leaves@[q] + n);
                            }
                        }
                        assert(a1[u] == cleared(a0, at@)[u]);
                        if at@.contains(u as usize) {
                            assert(a3[u] =~= repeat(sources@, occ(at@, u as usize)));
                        } else {
                            lemma_occ_contains(at@, u as usize);
                            assert(repeat(sources@, 0) =~= Seq::<usize>::empty());
                            assert(a3[u] =~= a0[u]);
                        }
                    } else {
                        assert(!at@.contains(u as usize)) by {
                            if at@.contains(u as usize) {
                                let q = choose|q: int| 0 <= q < at@.len() && at@[q] == u as usize;
                            }
                        }
                        lemma_occ_contains(at@, u as usize);
                        assert(repeat(sources@, 0) =~= Seq::<usize>::empty());
                        let w = (u - n) as usize;
                        assert(a1[u] == shift_list(b[w as int], n as int));
                        assert(sinks@.contains(u as usize) <==> b[w as int].len() == 0) by {
                            if b[w as int].len() == 0 {
                                assert(leaves@.contains(w));
                                let q = choose|q: int| 0 <= q < leaves@.len() && leaves@[q] == w;
                                assert(sinks@[q] == u as usize);
                            }
                            if sinks@.contains(u as usize) {
                                let q = choose|q: int| 0 <= q < sinks@.len() && sinks@[q] == u as usize;
                                assert(sinks@[q] == leaves@[q] + n);
                            }
                        }
                        if b[w as int].len() == 0 {
                            assert(a3[u] =~= dd);
                        } else {
                            assert(a3[u] =~= shift_list(b[w as int], n as int));
                        }
                    }
                }
            }
            assert forall|v: usize| v < n + m && (n <= v && sub@.is_source((v - n) as usize)) implies #[trigger] sources@.contains(v) by {
                let w = (v - n) as usize;
                assert(roots@.contains(w));
                let q = choose|q: int| 0 <= q < roots@.len() && roots@[q] == w;
                assert(sources@[q] == v);
            }
            assert forall|v: usize| v < n + m && (n <= v && sub@.is_sink((v - n) as usize)) implies #[trigger] sinks@.contains(v) by {
                let w = (v - n) as usize;
                assert(leaves@.contains(w));
                let q = choose|q: int| 0 <= q < leaves@.len() && leaves@[q] == w;
                assert(sinks@[q] == v);
            }
        }
        GraphBounds { sources, sinks }
    }

    /// Orders the nodes so that every edge points forward (Kahn's algorithm), or
    /// reports a cycle.
    pub fn sort_ordered(&self) -> (r: Result<Vec<NodeId>, GraphError>)
        requires
            self@.wf(),
        ensures
            r is Ok <==> is_acyclic(self@.adj),
            r matches Ok(order) ==> is_topological_order(self@.adj, order@),
            r matches Ok(order) ==> order@ == kahn_sequence(self@.adj, self@.in_degree),
            r matches Err(e) ==> e == GraphError::CycleDetected,
    {
        match kahn_order(&self.in_degree, &self.adj) {
            Some(order) => Ok(order),
            None => Err(GraphError::CycleDetected),
        }
    }

    /// The nodes without incoming edges, in increasing order.
    pub fn sources(&self) -> (r: Vec<NodeId>)
        requires
            self@.wf(),
        ensures
            ascending_selection(r@, self@.len(), |v: usize| self@.is_source(v)),
            r@ == nodes_where(self@.len(), |v: usize| self@.is_source(v)),
    {
        let r = zero_in_degree_nodes(&self.in_degree);
        let len = self.in_degree.len();
        proof {
            lemma_nodes_where_ext(
                self@.len(),
                |v: usize| self@.is_source(v),
                |v: usize| self.in_degree@[v as int] == 0,
            );
        }
        r
    }

    /// The nodes without outgoing edges, in increasing order.
    pub fn sinks(&self) -> (r: Vec<NodeId>)
        requires
            self@.wf(),
        ensures
            ascending_selection(r@, self@.len(), |v: usize| self@.is_sink(v)),
            r@ == nodes_where(self@.len(), |v: usize| self@.is_sink(v)),
    {
        let r = empty_list_nodes(&self.adj);
        let len = self.adj.len();
        assert(forall|v: usize| v < self@.len() ==> self@.adj[v as int] == self.adj@[v as int]@);
        proof {
            lemma_nodes_where_ext(
                self@.len(),
                |v: usize| self@.is_sink(v),
                |v: usize| self.adj@[v as int]@.len() == 0,
            );
        }
        r
    }

    pub fn meta(&self) -> (r: &[Meta])
        ensures
            r@ == self@.meta,
    {
        self.meta.as_slice()
    }

    pub fn adj(&self) -> (r: &[Vec<NodeId>])
        ensures
            lists_view(r@) == self@.adj,
    {
        self.adj.as_slice()
    }

    pub fn in_degree(&self) -> (r: &[usize])
        ensures
            r@ == self@.in_degree,
    {
        self.in_degree.as_slice()
    }

    /// The number of nodes.
    pub fn len(&self) -> (r: usize)
        requires
            self@.wf(),
        ensures
            r == self@.len(),
    {
        self.adj.len()
    }
}

} // verus!
