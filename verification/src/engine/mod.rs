//! Driving a graph at run time: which nodes start when a node resolves.
use vstd::prelude::*;

use crate::adjacency::{
    is_topological_order, lemma_distinct_full_covers, lemma_edges_into_none,
    all_alive, edges_into, lemma_edges_into_kill, lemma_occ_push, lemma_push_contains,
    lists_in_bounds, occ,
};

pub mod reactor;
pub mod schedule;

verus! {

/// What happened to a node.
#[derive(Debug, Clone, Copy, PartialEq, Eq, Structural)]
pub enum NodeStatus {
    /// Once a node got this status, it is obliged to eventually be resolved in
    /// order to drive the schedule forward; otherwise the whole engine stalls.
    Started,
    Resolved(Resolution),
}

/// How a node ended.
#[derive(Debug, Clone, Copy, PartialEq, Eq, Structural)]
pub enum Resolution {
    Finished,
}

/// `a` minus `b`, or zero when `b` is larger.
pub open spec fn sat_sub(a: usize, b: nat) -> usize {
    if a >= b {
        (a - b) as usize
    } else {
        0usize
    }
}

/// The entries of `targets` at which a node's count of releases reaches its
/// pending counter in `deg`, in order: the nodes that become ready.
pub open spec fn ready_nodes(deg: Seq<usize>, targets: Seq<usize>) -> Seq<usize>
    decreases targets.len(),
{
    if targets.len() == 0 {
        Seq::empty()
    } else {
        let prev = ready_nodes(deg, targets.drop_last());
        let t = targets.last();
        if deg[t as int] <= occ(targets, t) {
            prev.push(t)
        } else {
            prev
        }
    }
}

/// The pending counters after one release per entry of `targets`.
pub open spec fn released(deg: Seq<usize>, targets: Seq<usize>) -> Seq<usize> {
    Seq::new(deg.len(), |v: int| sat_sub(deg[v], occ(targets, v as usize)))
}

/// Lowers the pending counter of each entry of `targets` in turn, never below
/// zero, and returns the entries whose counter is zero right after.
pub fn release(deg: &mut Vec<usize>, targets: &Vec<usize>) -> (ready: Vec<usize>)
    requires
        forall|j: int| 0 <= j < targets@.len() ==> #[trigger] targets@[j] < old(deg)@.len(),
    ensures
        final(deg)@ == released(old(deg)@, targets@),
        ready@ == ready_nodes(old(deg)@, targets@),
{
    let ghost d0 = deg@;
    let len = deg.len();
    let mut ready: Vec<usize> = Vec::new();
    let mut j: usize = 0;
    proof {
        assert(targets@.take(0) =~= Seq::<usize>::empty());
        assert(deg@ =~= released(d0, targets@.take(0)));
    }
    while j < targets.len()
        invariant
            d0.len() == deg@.len(),
            d0.len() == len,
            forall|k: int| 0 <= k < targets@.len() ==> #[trigger] targets@[k] < d0.len(),
            j <= targets@.len(),
            deg@ == released(d0, targets@.take(j as int)),
            ready@ == ready_nodes(d0, targets@.take(j as int)),
        decreases targets@.len() - j,
    {
        let t = targets[j];
        let ghost pre = targets@.take(j as int);
        let ghost post = targets@.take(j as int + 1);
        proof {
            assert(post =~= pre.push(t));
            assert(post.drop_last() =~= pre);
            lemma_occ_push(pre, t, t);
        }
        let c = deg[t].saturating_sub(1);
        deg.set(t, c);
        if c == 0 {
            ready.push(t);
        }
        proof {
            assert forall|v: usize| v < d0.len() implies #[trigger] deg@[v as int] == released(d0, post)[v as int] by {
                lemma_occ_push(pre, t, v);
            }
            assert(deg@ =~= released(d0, post));
        }
        j += 1;
    }
    proof {
        assert(targets@.take(j as int) =~= targets@);
    }
    ready
}

/// Every ready node is an entry of `targets`.
pub proof fn lemma_ready_in_targets(deg: Seq<usize>, targets: Seq<usize>)
    ensures
        forall|i: int| 0 <= i < ready_nodes(deg, targets).len() ==> targets.contains(
            #[trigger] ready_nodes(deg, targets)[i],
        ),
    decreases targets.len(),
{
    if targets.len() > 0 {
        let t = targets.drop_last();
        lemma_ready_in_targets(deg, t);
        assert(targets =~= t.push(targets.last()));
        let r = ready_nodes(deg, targets);
        assert forall|i: int| 0 <= i < r.len() implies targets.contains(#[trigger] r[i]) by {
            lemma_push_contains(t, targets.last(), r[i]);
            if i < ready_nodes(deg, t).len() {
                assert(r[i] == ready_nodes(deg, t)[i]);
            }
        }
    }
}

/// Entries released so far never exceed the counter: then a node is ready
/// exactly when its releases have used up its counter, and only once.
proof fn lemma_ready_prefix(deg: Seq<usize>, s: Seq<usize>)
    requires
        forall|v: usize| #[trigger] occ(s, v) <= deg[v as int],
    ensures
        ready_nodes(deg, s).no_duplicates(),
        forall|v: usize|
            #[trigger] ready_nodes(deg, s).contains(v) <==> (s.contains(v) && deg[v as int] == occ(s, v)),
    decreases s.len(),
{
    if s.len() > 0 {
        let t = s.drop_last();
        let x = s.last();
        assert(s =~= t.push(x));
        assert forall|v: usize| #[trigger] occ(t, v) <= deg[v as int] by {
            lemma_occ_push(t, x, v);
            assert(occ(s, v) <= deg[v as int]);
        }
        lemma_ready_prefix(deg, t);
        let r = ready_nodes(deg, t);
        lemma_occ_push(t, x, x);
        assert(occ(s, x) <= deg[x as int]);
        assert(!r.contains(x));
        assert forall|v: usize|
            #[trigger] ready_nodes(deg, s).contains(v) <==> (s.contains(v) && deg[v as int] == occ(s, v)) by {
            lemma_occ_push(t, x, v);
            lemma_push_contains(t, x, v);
            lemma_push_contains(r, x, v);
            assert(occ(s, v) <= deg[v as int]);
        }
        if deg[x as int] <= occ(s, x) {
            let e = r.push(x);
            assert forall|i: int, j: int| 0 <= i < e.len() && 0 <= j < e.len() && i != j implies e[i] != e[j] by {
                if i == r.len() {
                    assert(r.contains(e[j]) || j == r.len());
                } else if j == r.len() {
                    assert(r.contains(e[i]));
                }
            }
        }
    }
}

/// When every pending counter equals the edges from live nodes, resolving a live
/// node `id` keeps that so with `id` dead, and makes ready exactly, once each,
/// the downstream neighbours of `id` that have no live upstream node left.
pub proof fn lemma_resolution_releases_ready(adj: Seq<Seq<usize>>, alive: Seq<bool>, deg: Seq<usize>, id: int)
    requires
        lists_in_bounds(adj, adj.len()),
        adj.len() <= usize::MAX,
        alive.len() == adj.len(),
        deg.len() == adj.len(),
        0 <= id < adj.len(),
        alive[id],
        forall|v: usize| v < adj.len() ==> #[trigger] deg[v as int] == edges_into(adj, alive, v, adj.len() as int),
    ensures
        forall|v: usize|
            v < adj.len() ==> #[trigger] released(deg, adj[id])[v as int] == edges_into(
                adj,
                alive.update(id, false),
                v,
                adj.len() as int,
            ),
        ready_nodes(deg, adj[id]).no_duplicates(),
        forall|v: usize|
            #[trigger] ready_nodes(deg, adj[id]).contains(v) <==> (adj[id].contains(v) && edges_into(
                adj,
                alive.update(id, false),
                v,
                adj.len() as int,
            ) == 0),
{
    let n = adj.len() as int;
    assert forall|v: usize| v < adj.len() implies #[trigger] released(deg, adj[id])[v as int]
        == edges_into(adj, alive.update(id, false), v, n) by {
        lemma_edges_into_kill(adj, alive, id, v, n);
    }
    assert forall|v: usize| #[trigger] occ(adj[id], v) <= deg[v as int] by {
        if v < adj.len() {
            lemma_edges_into_kill(adj, alive, id, v, n);
        } else {
            crate::adjacency::lemma_occ_contains(adj[id], v);
            if adj[id].contains(v) {
                let j = choose|j: int| 0 <= j < adj[id].len() && adj[id][j] == v;
                assert(adj[id][j] < adj.len());
            }
        }
    }
    lemma_ready_prefix(deg, adj[id]);
    assert forall|v: usize|
        #[trigger] ready_nodes(deg, adj[id]).contains(v) <==> (adj[id].contains(v) && edges_into(
            adj,
            alive.update(id, false),
            v,
            n,
        ) == 0) by {
        if adj[id].contains(v) {
            let j = choose|j: int| 0 <= j < adj[id].len() && adj[id][j] == v;
            assert(adj[id][j] < adj.len());
            lemma_edges_into_kill(adj, alive, id, v, n);
        }
    }
}

/// The nodes not in `rs`, among `n`.
pub open spec fn alive_except(n: nat, rs: Seq<usize>) -> Seq<bool> {
    Seq::new(n, |u: int| !rs.contains(u as usize))
}

/// The pending counters after resolving the nodes of `rs` in turn.
pub open spec fn after_resolving(adj: Seq<Seq<usize>>, deg: Seq<usize>, rs: Seq<usize>) -> Seq<usize>
    decreases rs.len(),
{
    if rs.len() == 0 {
        deg
    } else {
        released(after_resolving(adj, deg, rs.drop_last()), adj[rs.last() as int])
    }
}

/// Starting from the in-degrees and resolving distinct nodes one after another,
/// each node's pending counter is the number of its upstream edges whose source
/// has not resolved yet: a node is blocked until all its upstream nodes resolve.
pub proof fn lemma_pending_counts_unresolved_upstream(adj: Seq<Seq<usize>>, deg: Seq<usize>, rs: Seq<usize>)
    requires
        lists_in_bounds(adj, adj.len()),
        adj.len() <= usize::MAX,
        deg.len() == adj.len(),
        forall|v: usize| v < adj.len() ==> #[trigger] deg[v as int] == edges_into(
            adj,
            all_alive(adj.len()),
            v,
            adj.len() as int,
        ),
        rs.no_duplicates(),
        forall|i: int| 0 <= i < rs.len() ==> #[trigger] rs[i] < adj.len(),
    ensures
        after_resolving(adj, deg, rs).len() == adj.len(),
        forall|v: usize|
            v < adj.len() ==> #[trigger] after_resolving(adj, deg, rs)[v as int] == edges_into(
                adj,
                alive_except(adj.len(), rs),
                v,
                adj.len() as int,
            ),
    decreases rs.len(),
{
    let n = adj.len();
    if rs.len() == 0 {
        assert(alive_except(n, rs) =~= all_alive(n));
    } else {
        let t = rs.drop_last();
        let x = rs.last();
        assert(t.no_duplicates());
        lemma_pending_counts_unresolved_upstream(adj, deg, t);
        assert(rs =~= t.push(x));
        assert(!t.contains(x)) by {
            if t.contains(x) {
                let k = choose|k: int| 0 <= k < t.len() && t[k] == x;
                assert(rs[k] == rs[rs.len() - 1]);
            }
        }
        assert(alive_except(n, rs) =~= alive_except(n, t).update(x as int, false)) by {
            assert forall|u: int| 0 <= u < n implies alive_except(n, rs)[u] == alive_except(n, t).update(
                x as int,
                false,
            )[u] by {
                lemma_push_contains(t, x, u as usize);
            }
        }
        lemma_resolution_releases_ready(adj, alive_except(n, t), after_resolving(adj, deg, t), x as int);
    }
}

/// Nothing stalls on an acyclic graph: resolving its nodes one by one in a
/// topological order, each node's pending counter has reached zero by the time
/// its turn comes, so it was started before it is resolved.
pub proof fn law_topological_run_never_stalls(adj: Seq<Seq<usize>>, deg: Seq<usize>, order: Seq<usize>, k: int)
    requires
        lists_in_bounds(adj, adj.len()),
        adj.len() <= usize::MAX,
        deg.len() == adj.len(),
        forall|v: usize| v < adj.len() ==> #[trigger] deg[v as int] == edges_into(
            adj,
            all_alive(adj.len()),
            v,
            adj.len() as int,
        ),
        is_topological_order(adj, order),
        0 <= k < order.len(),
    ensures
        after_resolving(adj, deg, order.take(k))[order[k] as int] == 0,
{
    let n = adj.len();
    let done = order.take(k);
    assert forall|i: int| 0 <= i < done.len() implies #[trigger] done[i] < adj.len() by {
        assert(done[i] == order[i]);
    }
    assert(done.no_duplicates()) by {
        assert forall|i: int, j: int| 0 <= i < done.len() && 0 <= j < done.len() && i != j implies done[i] != done[j] by {
            assert(done[i] == order[i] && done[j] == order[j]);
        }
    }
    lemma_pending_counts_unresolved_upstream(adj, deg, done);
    let v = order[k];
    let alive = alive_except(n, done);
    assert forall|u: int| 0 <= u < n && alive[u] implies !(#[trigger] adj[u].contains(v)) by {
        if adj[u].contains(v) {
            lemma_distinct_full_covers(order, n, u as usize);
            let i = choose|i: int| 0 <= i < order.len() && order[i] == u as usize;
            if i < k {
                assert(done[i] == u as usize);
                assert(done.contains(u as usize));
            }
            assert(adj[order[i] as int].contains(order[k]));
        }
    }
    lemma_edges_into_none(adj, alive, v, n as int);
}

} // verus!
