//! Incremental construction of a [`Graph`] from nodes, embedded graphs and links
//! between their bounds.
use vstd::prelude::*;
use std::marker::PhantomData;

use crate::adjacency::{ascending_selection, dedup, lemma_dedup_push, lists_view};
use crate::graph::{Graph, GraphBounds};
use crate::meta::{short_name, Marker, Meta};
use crate::NodeId;

verus! {

/// What can be appended to a [`GraphBuilder`]: a single node or a whole graph.
pub enum GraphEntry<'a> {
    Node(Meta),
    Graph(&'a Graph),
}

/// Turns a value into a [`GraphEntry`].
pub trait AsGraphEntry<'a>: Sized {
    fn as_entry(this: Self) -> GraphEntry<'a>;
}

/// Stands for a node tagged with type `T`; `path` is the full type path, as
/// `std::any::type_name::<T>()` gives it.
pub struct Tag<T> {
    path: &'static str,
    marker: PhantomData<T>,
}

impl<T> Tag<T> {
    pub fn new(path: &'static str) -> (t: Tag<T>)
        ensures
            t.path() == path@,
    {
        Tag { path, marker: PhantomData }
    }

    pub closed spec fn path(&self) -> Seq<char> {
        self.path@
    }
}

impl<'a, T: Marker> AsGraphEntry<'a> for Tag<T> {
    fn as_entry(this: Self) -> (e: GraphEntry<'a>)
        ensures
            e matches GraphEntry::Node(m) && m.label() == short_name(this.path()),
    {
        GraphEntry::Node(Meta::new::<T>(this.path))
    }
}

impl<'a> AsGraphEntry<'a> for &'a Graph {
    fn as_entry(this: Self) -> (e: GraphEntry<'a>)
        ensures
            e == GraphEntry::Graph(this),
    {
        GraphEntry::Graph(this)
    }
}

/// The pairs `(u, t)` for every entry `t` of the list of each node `u`, node by
/// node and in list order.
pub open spec fn edge_pairs(adj: Seq<Seq<usize>>) -> Seq<(usize, usize)>
    decreases adj.len(),
{
    if adj.len() == 0 {
        Seq::empty()
    } else {
        edge_pairs(adj.drop_last()) + adj.last().map_values(|t: usize| ((adj.len() - 1) as usize, t))
    }
}

/// Every pair moved up by `off` on both ends.
pub open spec fn shift_pairs(pairs: Seq<(usize, usize)>, off: int) -> Seq<(usize, usize)> {
    pairs.map_values(|e: (usize, usize)| ((e.0 + off) as usize, (e.1 + off) as usize))
}

/// The pairs `(x, y)` for `x` in `from` and `y` in `to`, `from` outermost.
pub open spec fn cross_pairs(from: Seq<usize>, to: Seq<usize>) -> Seq<(usize, usize)>
    decreases from.len(),
{
    if from.len() == 0 {
        Seq::empty()
    } else {
        cross_pairs(from.drop_last(), to) + to.map_values(|y: usize| (from.last(), y))
    }
}

/// The targets of the pairs whose source is `u`, in order.
pub open spec fn targets_from(edges: Seq<(usize, usize)>, u: usize) -> Seq<usize>
    decreases edges.len(),
{
    if edges.len() == 0 {
        Seq::empty()
    } else {
        targets_from(edges.drop_last(), u) + if edges.last().0 == u {
            seq![edges.last().1]
        } else {
            Seq::empty()
        }
    }
}

/// Collects nodes and edges, then builds the graph they describe.
pub struct GraphBuilder {
    pub(crate) meta: Vec<Meta>,
    pub(crate) edges: Vec<(NodeId, NodeId)>,
}

impl GraphBuilder {
    /// The metadata of the nodes collected so far.
    pub closed spec fn metas(&self) -> Seq<Meta> {
        self.meta@
    }

    /// The edges collected so far, in order.
    pub closed spec fn links(&self) -> Seq<(usize, usize)> {
        self.edges@
    }

    pub fn new() -> (b: GraphBuilder)
        ensures
            b.metas() == Seq::<Meta>::empty(),
            b.links() == Seq::<(usize, usize)>::empty(),
    {
        GraphBuilder { meta: Vec::new(), edges: Vec::new() }
    }

    /// Appends a node or a whole graph, and returns its entry and exit points.
    pub fn append<'a>(&mut self, entry: GraphEntry<'a>) -> (bounds: GraphBounds)
        requires
            entry matches GraphEntry::Node(_) ==> old(self).metas().len() < usize::MAX,
            entry matches GraphEntry::Graph(sub) ==> sub@.wf() && old(self).metas().len() + sub@.len()
                <= usize::MAX,
        ensures
            entry matches GraphEntry::Node(m) ==> {
                &&& final(self).metas() == old(self).metas().push(m)
                &&& final(self).links() == old(self).links()
                &&& bounds.sources@ == seq![old(self).metas().len() as usize]
                &&& bounds.sinks@ == seq![old(self).metas().len() as usize]
            },
            entry matches GraphEntry::Graph(sub) ==> layout_merged(*old(self), *final(self), *sub, bounds),
    {
        match entry {
            GraphEntry::Node(meta) => {
                let node_id = self.meta.len();
                self.meta.push(meta);
                let mut sources: Vec<NodeId> = Vec::new();
                sources.push(node_id);
                let mut sinks: Vec<NodeId> = Vec::new();
                sinks.push(node_id);
                assert(sources@ =~= seq![node_id]);
                assert(sinks@ =~= seq![node_id]);
                GraphBounds { sources, sinks }
            },
            GraphEntry::Graph(sub_graph) => self.merge_layout(sub_graph),
        }
    }

    /// Appends a copy of `sub`: its nodes after the present ones and its edges,
    /// moved up accordingly, after the present edges.
    fn merge_layout(&mut self, sub: &Graph) -> (bounds: GraphBounds)
        requires
            sub@.wf(),
            old(self).metas().len() + sub@.len() <= usize::MAX,
        ensures
            layout_merged(*old(self), *final(self), *sub, bounds),
    {
        let offset = self.meta.len();
        let metas = sub.meta();
        let mut k: usize = 0;
        while k < metas.len()
            invariant
                metas@ == sub@.meta,
                k <= metas@.len(),
                self.meta@ == old(self).meta@ + metas@.take(k as int),
                self.edges@ == old(self).edges@,
            decreases metas@.len() - k,
        {
            self.meta.push(metas[k]);
            k += 1;
            assert(self.meta@ =~= old(self).meta@ + metas@.take(k as int));
        }
        assert(metas@.take(k as int) =~= metas@);
        let adj = sub.adj();
        let ghost a = sub@.adj;
        let mut from_local: usize = 0;
        while from_local < adj.len()
            invariant
                lists_view(adj@) == a,
                a == sub@.adj,
                sub@.wf(),
                offset + a.len() <= usize::MAX,
                from_local <= a.len(),
                self.meta@ == old(self).meta@ + sub@.meta,
                self.edges@ == old(self).edges@ + shift_pairs(edge_pairs(a.take(from_local as int)), offset as int),
            decreases a.len() - from_local,
        {
            let neighbours = &adj[from_local];
            let ghost before = self.edges@;
            let mut j: usize = 0;
            while j < neighbours.len()
                invariant
                    neighbours@ == a[from_local as int],
                    lists_view(adj@) == a,
                    a == sub@.adj,
                    sub@.wf(),
                    offset + a.len() <= usize::MAX,
                    from_local < a.len(),
                    j <= neighbours@.len(),
                    self.meta@ == old(self).meta@ + sub@.meta,
                    self.edges@ == before + shift_pairs(
                        a[from_local as int].take(j as int).map_values(|t: usize| (from_local, t)),
                        offset as int,
                    ),
                decreases neighbours@.len() - j,
            {
                let to_local = neighbours[j];
                assert(a[from_local as int][j as int] == to_local);
                assert(to_local < a.len());
                self.edges.push((from_local + offset, to_local + offset));
                j += 1;
                assert(self.edges@ =~= before + shift_pairs(
                    a[from_local as int].take(j as int).map_values(|t: usize| (from_local, t)),
                    offset as int,
                ));
            }
            proof {
                let nb = a[from_local as int];
                assert(nb.take(j as int) =~= nb);
                let t1 = a.take(from_local as int + 1);
                assert(t1.drop_last() =~= a.take(from_local as int));
                assert(t1.last() == nb);
                assert(edge_pairs(t1) == edge_pairs(a.take(from_local as int)) + nb.map_values(
                    |t: usize| (from_local, t),
                ));
                assert(shift_pairs(edge_pairs(t1), offset as int) =~= shift_pairs(
                    edge_pairs(a.take(from_local as int)),
                    offset as int,
                ) + shift_pairs(nb.map_values(|t: usize| (from_local, t)), offset as int));
            }
            from_local += 1;
        }
        assert(a.take(from_local as int) =~= a);
        let roots = sub.sources();
        let leaves = sub.sinks();
        let sources = crate::dag::offset_all(&roots, offset);
        let sinks = crate::dag::offset_all(&leaves, offset);
        proof {
            let m = sub@.len();
            assert forall|v: usize|
                v < offset + m && (offset <= v && sub@.is_source((v - offset) as usize)) implies #[trigger] sources@.contains(
                v,
            ) by {
                let w = (v - offset) as usize;
                assert(roots@.contains(w));
                let q = choose|q: int| 0 <= q < roots@.len() && roots@[q] == w;
                assert(sources@[q] == v);
            }
            assert forall|v: usize|
                v < offset + m && (offset <= v && sub@.is_sink((v - offset) as usize)) implies #[trigger] sinks@.contains(
                v,
            ) by {
                let w = (v - offset) as usize;
                assert(leaves@.contains(w));
                let q = choose|q: int| 0 <= q < leaves@.len() && leaves@[q] == w;
                assert(sinks@[q] == v);
            }
        }
        GraphBounds { sources, sinks }
    }

    /// Links every exit point of `upstream` to every entry point of `downstream`.
    pub fn connect(&mut self, upstream: &GraphBounds, downstream: &GraphBounds)
        ensures
            final(self).metas() == old(self).metas(),
            final(self).links() == old(self).links() + cross_pairs(
                upstream.sinks@,
                downstream.sources@,
            ),
    {
        let ghost up = upstream.sinks@;
        let ghost down = downstream.sources@;
        let mut i: usize = 0;
        while i < upstream.sinks.len()
            invariant
                up == upstream.sinks@,
                down == downstream.sources@,
                i <= up.len(),
                self.meta@ == old(self).meta@,
                self.edges@ == old(self).edges@ + cross_pairs(up.take(i as int), down),
            decreases up.len() - i,
        {
            let from = upstream.sinks[i];
            let ghost before = self.edges@;
            let mut j: usize = 0;
            while j < downstream.sources.len()
                invariant
                    up == upstream.sinks@,
                    down == downstream.sources@,
                    i < up.len(),
                    from == up[i as int],
                    j <= down.len(),
                    self.meta@ == old(self).meta@,
                    self.edges@ == before + down.take(j as int).map_values(|y: usize| (from, y)),
                decreases down.len() - j,
            {
                self.edges.push((from, downstream.sources[j]));
                j += 1;
                assert(self.edges@ =~= before + down.take(j as int).map_values(|y: usize| (from, y)));
            }
            proof {
                assert(down.take(j as int) =~= down);
                let t1 = up.take(i as int + 1);
                assert(t1.drop_last() =~= up.take(i as int));
                assert(t1.last() == from);
                assert(cross_pairs(t1, down) == cross_pairs(up.take(i as int), down) + down.map_values(
                    |y: usize| (from, y),
                ));
                assert(self.edges@ =~= old(self).edges@ + cross_pairs(t1, down));
            }
            i += 1;
        }
        assert(up.take(i as int) =~= up);
    }

    /// The graph with the collected nodes and, for each node, the distinct
    /// targets of its collected edges in order of first appearance.
    pub fn build(self) -> (g: Graph)
        requires
            forall|i: int|
                0 <= i < self.links().len() ==> #[trigger] self.links()[i].0 < self.metas().len()
                    && self.links()[i].1 < self.metas().len(),
        ensures
            g@.wf(),
            g@.meta == self.metas(),
            g@.adj == Seq::new(
                self.metas().len(),
                |u: int| dedup(targets_from(self.links(), u as usize)),
            ),
    {
        let GraphBuilder { meta, edges } = self;
        let n = meta.len();
        let mut graph = Graph::from_meta(meta);
        let mut i: usize = 0;
        proof {
            assert(edges@ == self.links());
            assert(n == self.metas().len());
            assert forall|u: int| 0 <= u < n implies #[trigger] graph@.adj[u] == dedup(
                targets_from(edges@.take(0), u as usize),
            ) by {
                assert(edges@.take(0) =~= Seq::<(usize, usize)>::empty());
                assert(dedup(Seq::<usize>::empty()) =~= Seq::<usize>::empty());
            }
        }
        while i < edges.len()
            invariant
                graph@.wf(),
                graph@.len() == n,
                graph@.meta == self.metas(),
                edges@ == self.links(),
                i <= edges@.len(),
                forall|k: int| 0 <= k < edges@.len() ==> #[trigger] edges@[k].0 < n && edges@[k].1 < n,
                forall|u: int| 0 <= u < n ==> #[trigger] graph@.adj[u] == dedup(
                    targets_from(edges@.take(i as int), u as usize),
                ),
                forall|v: int| 0 <= v < n ==> #[trigger] graph@.in_degree[v] <= i,
            decreases edges@.len() - i,
        {
            let (from, to) = edges[i];
            let ghost g0 = graph@;
            proof {
                assert(edges@[i as int].0 < n && edges@[i as int].1 < n);
            }
            graph.add_edge(from, to);
            proof {
                let t1 = edges@.take(i as int + 1);
                assert(t1.drop_last() =~= edges@.take(i as int));
                assert(t1.last() == (from, to));
                assert forall|u: int| 0 <= u < n implies #[trigger] graph@.adj[u] == dedup(
                    targets_from(edges@.take(i as int + 1), u as usize),
                ) by {
                    let prev = targets_from(edges@.take(i as int), u as usize);
                    if u == from {
                        assert(targets_from(t1, u as usize) =~= prev.push(to));
                        lemma_dedup_push(prev, to);
                    } else {
                        assert(targets_from(t1, u as usize) =~= prev);
                    }
                }
            }
            i += 1;
        }
        proof {
            assert(edges@.take(i as int) =~= edges@);
            assert(graph@.adj =~= Seq::new(n as nat, |u: int| dedup(targets_from(edges@, u as usize))));
        }
        graph
    }
}

/// `after` is `before` with a copy of `sub` laid out behind its nodes, and
/// `bounds` names the sources and sinks of that copy.
pub open spec fn layout_merged(before: GraphBuilder, after: GraphBuilder, sub: Graph, bounds: GraphBounds) -> bool {
    let off = before.metas().len();
    &&& after.metas() == before.metas() + sub@.meta
    &&& after.links() == before.links() + shift_pairs(edge_pairs(sub@.adj), off as int)
    &&& ascending_selection(
        bounds.sources@,
        off + sub@.len(),
        |v: usize| off <= v && sub@.is_source((v - off) as usize),
    )
    &&& ascending_selection(
        bounds.sinks@,
        off + sub@.len(),
        |v: usize| off <= v && sub@.is_sink((v - off) as usize),
    )
}

} // verus!
