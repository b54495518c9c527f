//! The adjacency model shared by every graph of the crate: node `u` holds the
//! list of its downstream nodes, and `in_degree[v]` counts the entries equal to
//! `v` over all lists.
use vstd::prelude::*;

use crate::engine::{ready_nodes, released};

verus! {

/// Number of times `v` occurs in `s`.
pub open spec fn occ(s: Seq<usize>, v: usize) -> nat
    decreases s.len(),
{
    if s.len() == 0 {
        0
    } else {
        occ(s.drop_last(), v) + if s.last() == v {
            1nat
        } else {
            0nat
        }
    }
}

/// Entries equal to `v` in the lists at positions `0..k` whose owner is alive.
pub open spec fn edges_into(adj: Seq<Seq<usize>>, alive: Seq<bool>, v: usize, k: int) -> nat
    decreases k,
{
    if k <= 0 {
        0
    } else {
        edges_into(adj, alive, v, k - 1) + if alive[k - 1] {
            occ(adj[k - 1], v)
        } else {
            0nat
        }
    }
}

/// A mask that keeps every one of `n` nodes.
pub open spec fn all_alive(n: nat) -> Seq<bool> {
    Seq::new(n, |i: int| true)
}

/// The in-degree of `v`: entries equal to `v` over all adjacency lists.
pub open spec fn in_degree_of(adj: Seq<Seq<usize>>, v: usize) -> nat {
    edges_into(adj, all_alive(adj.len()), v, adj.len() as int)
}

/// Every entry of every list names a node below `n`.
pub open spec fn lists_in_bounds(adj: Seq<Seq<usize>>, n: nat) -> bool {
    forall|u: int, j: int|
        0 <= u < adj.len() && 0 <= j < adj[u].len() ==> #[trigger] adj[u][j] < n
}

/// The adjacency lists stay within the graph and `in_degree` counts them.
pub open spec fn degrees_consistent(in_degree: Seq<usize>, adj: Seq<Seq<usize>>) -> bool {
    &&& in_degree.len() == adj.len()
    &&& lists_in_bounds(adj, adj.len())
    &&& forall|v: usize| v < adj.len() ==> #[trigger] in_degree[v as int] == in_degree_of(adj, v)
}

/// The spec view of a vector of adjacency lists.
pub open spec fn lists_view(adj: Seq<Vec<usize>>) -> Seq<Seq<usize>> {
    adj.map_values(|l: Vec<usize>| l@)
}

/// `order` lists every node once, each after all nodes that have an edge into it.
pub open spec fn is_topological_order(adj: Seq<Seq<usize>>, order: Seq<usize>) -> bool {
    &&& order.len() == adj.len()
    &&& order.no_duplicates()
    &&& forall|i: int| 0 <= i < order.len() ==> #[trigger] order[i] < adj.len()
    &&& forall|i: int, j: int|
        0 <= i < order.len() && 0 <= j < order.len() && #[trigger] adj[order[i] as int].contains(
            #[trigger] order[j],
        ) ==> i < j
}

/// The graph has no cycle: some order of its nodes puts every edge forward.
pub open spec fn is_acyclic(adj: Seq<Seq<usize>>) -> bool {
    exists|order: Seq<usize>| is_topological_order(adj, order)
}

/// Every entry of `l` moved up by `off`.
pub open spec fn shift_list(l: Seq<usize>, off: int) -> Seq<usize> {
    l.map_values(|x: usize| (x + off) as usize)
}

/// Every list of `adj` moved up by `off`.
pub open spec fn shift_lists(adj: Seq<Seq<usize>>, off: int) -> Seq<Seq<usize>> {
    adj.map_values(|l: Seq<usize>| shift_list(l, off))
}

/// The lists of `ls` joined one after another.
pub open spec fn concat_lists(ls: Seq<Seq<usize>>) -> Seq<usize>
    decreases ls.len(),
{
    if ls.len() == 0 {
        Seq::empty()
    } else {
        concat_lists(ls.drop_last()) + ls.last()
    }
}

/// The distinct values of `s`, each where it first occurs.
pub open spec fn dedup(s: Seq<usize>) -> Seq<usize>
    decreases s.len(),
{
    if s.len() == 0 {
        Seq::empty()
    } else {
        let d = dedup(s.drop_last());
        if d.contains(s.last()) {
            d
        } else {
            d.push(s.last())
        }
    }
}

/// The distinct downstream neighbours of the nodes `at`, in the order in which
/// their lists, taken one after another, first name them.
pub open spec fn downstream_of(adj: Seq<Seq<usize>>, at: Seq<usize>) -> Seq<usize> {
    dedup(concat_lists(at.map_values(|a: usize| adj[a as int])))
}

/// `s` repeated `k` times.
pub open spec fn repeat(s: Seq<usize>, k: nat) -> Seq<usize>
    decreases k,
{
    if k == 0 {
        Seq::empty()
    } else {
        repeat(s, (k - 1) as nat) + s
    }
}

/// The nodes below `n` that satisfy `pred`, in increasing order.
pub open spec fn nodes_where(n: nat, pred: spec_fn(usize) -> bool) -> Seq<usize>
    decreases n,
{
    if n == 0 {
        Seq::empty()
    } else {
        let prev = nodes_where((n - 1) as nat, pred);
        if pred((n - 1) as usize) {
            prev.push((n - 1) as usize)
        } else {
            prev
        }
    }
}

pub proof fn lemma_nodes_where_ext(n: nat, p: spec_fn(usize) -> bool, q: spec_fn(usize) -> bool)
    requires
        n <= usize::MAX + 1,
        forall|v: usize| v < n ==> #[trigger] p(v) == q(v),
    ensures
        nodes_where(n, p) == nodes_where(n, q),
    decreases n,
{
    if n > 0 {
        lemma_nodes_where_ext((n - 1) as nat, p, q);
        assert(p((n - 1) as usize) == q((n - 1) as usize));
    }
}

/// `s` lists, in increasing order, exactly the nodes below `n` that satisfy `pred`.
pub open spec fn ascending_selection(s: Seq<usize>, n: nat, pred: spec_fn(usize) -> bool) -> bool {
    &&& forall|i: int, j: int| 0 <= i < j < s.len() ==> s[i] < s[j]
    &&& forall|i: int| 0 <= i < s.len() ==> #[trigger] s[i] < n && pred(s[i])
    &&& forall|v: usize| v < n && pred(v) ==> #[trigger] s.contains(v)
}

// ---------------------------------------------------------------------------
// Lemmas on occurrences
// ---------------------------------------------------------------------------

pub proof fn lemma_occ_push(s: Seq<usize>, x: usize, v: usize)
    ensures
        occ(s.push(x), v) == occ(s, v) + if x == v {
            1nat
        } else {
            0nat
        },
{
    assert(s.push(x).drop_last() =~= s);
}

pub proof fn lemma_occ_concat(a: Seq<usize>, b: Seq<usize>, v: usize)
    ensures
        occ(a + b, v) == occ(a, v) + occ(b, v),
    decreases b.len(),
{
    if b.len() == 0 {
        assert(a + b =~= a);
    } else {
        lemma_occ_concat(a, b.drop_last(), v);
        assert((a + b).drop_last() =~= a + b.drop_last());
    }
}

pub proof fn lemma_occ_contains(s: Seq<usize>, v: usize)
    ensures
        occ(s, v) > 0 <==> s.contains(v),
    decreases s.len(),
{
    if s.len() > 0 {
        lemma_occ_contains(s.drop_last(), v);
        if s.drop_last().contains(v) {
            let k = choose|k: int| 0 <= k < s.drop_last().len() && s.drop_last()[k] == v;
            assert(s[k] == v);
        }
        if s.contains(v) && s.last() != v {
            let k = choose|k: int| 0 <= k < s.len() && s[k] == v;
            assert(s.drop_last()[k] == v);
        }
    }
}

pub proof fn lemma_occ_skip(s: Seq<usize>, j: int, v: usize)
    requires
        0 <= j < s.len(),
    ensures
        occ(s.skip(j), v) == occ(s.skip(j + 1), v) + if s[j] == v {
            1nat
        } else {
            0nat
        },
{
    assert(s.skip(j) =~= seq![s[j]] + s.skip(j + 1));
    lemma_occ_concat(seq![s[j]], s.skip(j + 1), v);
    assert(seq![s[j]] =~= Seq::<usize>::empty().push(s[j]));
    lemma_occ_push(Seq::<usize>::empty(), s[j], v);
}

// ---------------------------------------------------------------------------
// Lemmas on edge counts
// ---------------------------------------------------------------------------

pub proof fn lemma_edges_into_ext(
    adj1: Seq<Seq<usize>>,
    alive1: Seq<bool>,
    adj2: Seq<Seq<usize>>,
    alive2: Seq<bool>,
    v: usize,
    k: int,
)
    requires
        forall|u: int| 0 <= u < k ==> adj1[u] == adj2[u] && alive1[u] == alive2[u],
    ensures
        edges_into(adj1, alive1, v, k) == edges_into(adj2, alive2, v, k),
    decreases k,
{
    if k > 0 {
        lemma_edges_into_ext(adj1, alive1, adj2, alive2, v, k - 1);
    }
}

/// Replacing the list of node `u` by `l` trades its entries for those of `l`.
pub proof fn lemma_edges_into_update(
    adj: Seq<Seq<usize>>,
    alive: Seq<bool>,
    u: int,
    l: Seq<usize>,
    v: usize,
    k: int,
)
    requires
        0 <= u < adj.len(),
        k <= adj.len(),
    ensures
        edges_into(adj.update(u, l), alive, v, k) + (if u < k && alive[u] {
            occ(adj[u], v)
        } else {
            0nat
        }) == edges_into(adj, alive, v, k) + (if u < k && alive[u] {
            occ(l, v)
        } else {
            0nat
        }),
    decreases k,
{
    if k > 0 {
        lemma_edges_into_update(adj, alive, u, l, v, k - 1);
    }
}

/// Marking node `u` dead drops its entries from the count.
pub proof fn lemma_edges_into_kill(adj: Seq<Seq<usize>>, alive: Seq<bool>, u: int, v: usize, k: int)
    requires
        0 <= u < alive.len(),
        k <= alive.len(),
    ensures
        edges_into(adj, alive.update(u, false), v, k) + (if u < k && alive[u] {
            occ(adj[u], v)
        } else {
            0nat
        }) == edges_into(adj, alive, v, k),
    decreases k,
{
    if k > 0 {
        lemma_edges_into_kill(adj, alive, u, v, k - 1);
    }
}

/// A positive count has a live witness list holding `v`.
pub proof fn lemma_edges_into_witness(adj: Seq<Seq<usize>>, alive: Seq<bool>, v: usize, k: int)
    requires
        edges_into(adj, alive, v, k) > 0,
    ensures
        exists|u: int| 0 <= u < k && alive[u] && #[trigger] adj[u].contains(v),
    decreases k,
{
    if k > 0 {
        if edges_into(adj, alive, v, k - 1) > 0 {
            lemma_edges_into_witness(adj, alive, v, k - 1);
        } else {
            lemma_occ_contains(adj[k - 1], v);
        }
    }
}

/// No live list holding `v` means a zero count.
pub proof fn lemma_edges_into_none(adj: Seq<Seq<usize>>, alive: Seq<bool>, v: usize, k: int)
    requires
        forall|u: int| 0 <= u < k && alive[u] ==> !(#[trigger] adj[u].contains(v)),
    ensures
        edges_into(adj, alive, v, k) == 0,
    decreases k,
{
    if k > 0 {
        lemma_edges_into_none(adj, alive, v, k - 1);
        if alive[k - 1] {
            lemma_occ_contains(adj[k - 1], v);
        }
    }
}

/// Counting over two consecutive groups of lists adds up.
pub proof fn lemma_edges_into_concat(a: Seq<Seq<usize>>, b: Seq<Seq<usize>>, v: usize, k: int)
    requires
        0 <= k <= b.len(),
    ensures
        edges_into(a + b, all_alive(a.len() + b.len()), v, a.len() + k) == edges_into(
            a,
            all_alive(a.len()),
            v,
            a.len() as int,
        ) + edges_into(b, all_alive(b.len()), v, k),
    decreases k,
{
    if k == 0 {
        lemma_edges_into_ext(
            a + b,
            all_alive(a.len() + b.len()),
            a,
            all_alive(a.len()),
            v,
            a.len() as int,
        );
    } else {
        lemma_edges_into_concat(a, b, v, k - 1);
        assert((a + b)[a.len() + k - 1] == b[k - 1]);
    }
}

// ---------------------------------------------------------------------------
// Counting distinct bounded values
// ---------------------------------------------------------------------------

/// A duplicate-free sequence of values below `n` that misses one of them is
/// shorter than `n`.
pub proof fn lemma_distinct_missing_shorter(s: Seq<usize>, n: nat, missing: usize)
    requires
        s.no_duplicates(),
        forall|i: int| 0 <= i < s.len() ==> #[trigger] s[i] < n,
        missing < n,
        !s.contains(missing),
        n <= usize::MAX,
    ensures
        s.len() < n,
    decreases n, 0nat,
{
    let top = (n - 1) as usize;
    if s.contains(top) {
        let k = choose|k: int| 0 <= k < s.len() && s[k] == top;
        let t = s.remove(k);
        s.remove_ensures(k);
        assert forall|i: int| 0 <= i < t.len() implies #[trigger] t[i] < n - 1 by {
            if i < k {
                assert(t[i] == s[i]);
            } else {
                assert(t[i] == s[i + 1]);
            }
        }
        assert(t.no_duplicates()) by {
            assert forall|i: int, j: int| 0 <= i < t.len() && 0 <= j < t.len() && i != j implies t[i]
                != t[j] by {
                let si = if i < k {
                    i
                } else {
                    i + 1
                };
                let sj = if j < k {
                    j
                } else {
                    j + 1
                };
                assert(t[i] == s[si]);
                assert(t[j] == s[sj]);
            }
        }
        assert(missing != top);
        assert(!t.contains(missing)) by {
            if t.contains(missing) {
                let i = choose|i: int| 0 <= i < t.len() && t[i] == missing;
                if i < k {
                    assert(s[i] == missing);
                } else {
                    assert(s[i + 1] == missing);
                }
            }
        }
        lemma_distinct_missing_shorter(t, (n - 1) as nat, missing);
    } else if missing == top {
        assert forall|i: int| 0 <= i < s.len() implies #[trigger] s[i] < n - 1 by {
            assert(s[i] != top);
        }
        if s.len() >= n {
            if n == 1 {
                assert(s[0] < 0);
            } else {
                lemma_distinct_bounded(s, (n - 1) as nat);
            }
        }
    } else {
        assert forall|i: int| 0 <= i < s.len() implies #[trigger] s[i] < n - 1 by {
            assert(s[i] != top);
        }
        lemma_distinct_missing_shorter(s, (n - 1) as nat, missing);
    }
}

/// A duplicate-free sequence of values below `n` has at most `n` elements.
pub proof fn lemma_distinct_bounded(s: Seq<usize>, n: nat)
    requires
        s.no_duplicates(),
        forall|i: int| 0 <= i < s.len() ==> #[trigger] s[i] < n,
        n <= usize::MAX,
    ensures
        s.len() <= n,
    decreases n, 1nat,
{
    if s.len() > n {
        if n == 0 {
            assert(s[0] < 0);
        } else {
            let top = (n - 1) as usize;
            if s.contains(top) {
                let k = choose|k: int| 0 <= k < s.len() && s[k] == top;
                let t = s.remove(k);
                s.remove_ensures(k);
                assert forall|i: int| 0 <= i < t.len() implies #[trigger] t[i] < n - 1 by {
                    if i < k {
                        assert(t[i] == s[i]);
                    } else {
                        assert(t[i] == s[i + 1]);
                    }
                }
                assert(t.no_duplicates()) by {
                    assert forall|i: int, j: int|
                        0 <= i < t.len() && 0 <= j < t.len() && i != j implies t[i] != t[j] by {
                        let si = if i < k {
                            i
                        } else {
                            i + 1
                        };
                        let sj = if j < k {
                            j
                        } else {
                            j + 1
                        };
                        assert(t[i] == s[si]);
                        assert(t[j] == s[sj]);
                    }
                }
                lemma_distinct_bounded(t, (n - 1) as nat);
            } else {
                lemma_distinct_missing_shorter(s, n, top);
            }
        }
    }
}

/// A duplicate-free sequence that holds every value below `n` has at least `n` elements.
pub proof fn lemma_distinct_covering_long(s: Seq<usize>, n: nat)
    requires
        s.no_duplicates(),
        forall|v: usize| v < n ==> #[trigger] s.contains(v),
        n <= usize::MAX,
    ensures
        s.len() >= n,
    decreases n,
{
    if n > 0 {
        let top = (n - 1) as usize;
        assert(s.contains(top));
        let k = choose|k: int| 0 <= k < s.len() && s[k] == top;
        let t = s.remove(k);
        s.remove_ensures(k);
        assert(t.no_duplicates()) by {
            assert forall|i: int, j: int| 0 <= i < t.len() && 0 <= j < t.len() && i != j implies t[i]
                != t[j] by {
                let si = if i < k {
                    i
                } else {
                    i + 1
                };
                let sj = if j < k {
                    j
                } else {
                    j + 1
                };
                assert(t[i] == s[si]);
                assert(t[j] == s[sj]);
            }
        }
        assert forall|v: usize| v < n - 1 implies #[trigger] t.contains(v) by {
            assert(s.contains(v));
            let i = choose|i: int| 0 <= i < s.len() && s[i] == v;
            assert(i != k);
            if i < k {
                assert(t[i] == v);
            } else {
                assert(t[i - 1] == v);
            }
        }
        lemma_distinct_covering_long(t, (n - 1) as nat);
    }
}

/// A duplicate-free sequence of `n` values below `n` holds every one of them.
pub proof fn lemma_distinct_full_covers(s: Seq<usize>, n: nat, v: usize)
    requires
        s.no_duplicates(),
        s.len() == n,
        forall|i: int| 0 <= i < s.len() ==> #[trigger] s[i] < n,
        v < n,
        n <= usize::MAX,
    ensures
        s.contains(v),
{
    if !s.contains(v) {
        lemma_distinct_missing_shorter(s, n, v);
    }
}

// ---------------------------------------------------------------------------
// Executable operations on a pair of vectors (in-degrees, adjacency lists)
// ---------------------------------------------------------------------------

/// The nodes whose in-degree is zero, in increasing order.
pub fn zero_in_degree_nodes(in_degree: &Vec<usize>) -> (r: Vec<usize>)
    ensures
        ascending_selection(r@, in_degree@.len(), |v: usize| in_degree@[v as int] == 0),
        r@ == nodes_where(in_degree@.len(), |v: usize| in_degree@[v as int] == 0),
{
    let mut r: Vec<usize> = Vec::new();
    let mut i: usize = 0;
    while i < in_degree.len()
        invariant
            i <= in_degree@.len(),
            forall|a: int, b: int| 0 <= a < b < r@.len() ==> r@[a] < r@[b],
            forall|a: int| 0 <= a < r@.len() ==> #[trigger] r@[a] < i && in_degree@[r@[a] as int] == 0,
            forall|v: usize| v < i && in_degree@[v as int] == 0 ==> #[trigger] r@.contains(v),
            r@ == nodes_where(i as nat, |v: usize| in_degree@[v as int] == 0),
        decreases in_degree@.len() - i,
    {
        let ghost r0 = r@;
        if in_degree[i] == 0 {
            r.push(i);
            assert(r@[r@.len() - 1] == i);
        }
        proof {
            assert forall|v: usize| v < i + 1 && in_degree@[v as int] == 0 implies #[trigger] r@.contains(v) by {
                if v < i {
                    assert(r0.contains(v));
                    let k = choose|k: int| 0 <= k < r0.len() && r0[k] == v;
                    assert(r@[k] == v);
                } else {
                    assert(r@[r@.len() - 1] == v);
                }
            }
        }
        i += 1;
    }
    r
}

/// The nodes whose adjacency list is empty, in increasing order.
pub fn empty_list_nodes(adj: &Vec<Vec<usize>>) -> (r: Vec<usize>)
    ensures
        ascending_selection(r@, adj@.len(), |v: usize| adj@[v as int]@.len() == 0),
        r@ == nodes_where(adj@.len(), |v: usize| adj@[v as int]@.len() == 0),
{
    let mut r: Vec<usize> = Vec::new();
    let mut i: usize = 0;
    while i < adj.len()
        invariant
            i <= adj@.len(),
            forall|a: int, b: int| 0 <= a < b < r@.len() ==> r@[a] < r@[b],
            forall|a: int| 0 <= a < r@.len() ==> #[trigger] r@[a] < i && adj@[r@[a] as int]@.len() == 0,
            forall|v: usize| v < i && adj@[v as int]@.len() == 0 ==> #[trigger] r@.contains(v),
            r@ == nodes_where(i as nat, |v: usize| adj@[v as int]@.len() == 0),
        decreases adj@.len() - i,
    {
        let ghost r0 = r@;
        if adj[i].len() == 0 {
            r.push(i);
            assert(r@[r@.len() - 1] == i);
        }
        proof {
            assert forall|v: usize| v < i + 1 && adj@[v as int]@.len() == 0 implies #[trigger] r@.contains(v) by {
                if v < i {
                    assert(r0.contains(v));
                    let k = choose|k: int| 0 <= k < r0.len() && r0[k] == v;
                    assert(r@[k] == v);
                } else {
                    assert(r@[r@.len() - 1] == v);
                }
            }
        }
        i += 1;
    }
    r
}

/// Appends `rhs` to the list of `lhs` unless it is there already, and counts it.
pub fn insert_edge(in_degree: &mut Vec<usize>, adj: &mut Vec<Vec<usize>>, lhs: usize, rhs: usize)
    requires
        degrees_consistent(old(in_degree)@, lists_view(old(adj)@)),
        lhs < old(adj)@.len(),
        rhs < old(adj)@.len(),
        !old(adj)@[lhs as int]@.contains(rhs) ==> old(in_degree)@[rhs as int] < usize::MAX,
    ensures
        degrees_consistent(final(in_degree)@, lists_view(final(adj)@)),
        final(in_degree)@ == if old(adj)@[lhs as int]@.contains(rhs) {
            old(in_degree)@
        } else {
            old(in_degree)@.update(rhs as int, (old(in_degree)@[rhs as int] + 1) as usize)
        },
        lists_view(final(adj)@) == if old(adj)@[lhs as int]@.contains(rhs) {
            lists_view(old(adj)@)
        } else {
            lists_view(old(adj)@).update(lhs as int, old(adj)@[lhs as int]@.push(rhs))
        },
{
    let ghost l0 = lists_view(adj@);
    if vec_contains(&adj[lhs], rhs) {
        return;
    }
    adj[lhs].push(rhs);
    let d = in_degree[rhs];
    in_degree.set(rhs, d + 1);
    proof {
        let l1 = lists_view(adj@);
        let newl = l0[lhs as int].push(rhs);
        assert(l1 =~= l0.update(lhs as int, newl));
        assert forall|v: usize| v < l1.len() implies #[trigger] in_degree@[v as int] == in_degree_of(l1, v)
            by {
            lemma_edges_into_update(l0, all_alive(l0.len()), lhs as int, newl, v, l0.len() as int);
            lemma_occ_push(l0[lhs as int], rhs, v);
            assert(all_alive(l0.len())[lhs as int]);
        }
        assert forall|u: int, j: int| 0 <= u < l1.len() && 0 <= j < l1[u].len() implies #[trigger] l1[u][j]
            < l1.len() by {
            if u == lhs && j == l0[u].len() {
            } else {
                assert(l1[u][j] == l0[u][j]);
            }
        }
    }
}

/// Whether `s` holds `x`.
pub fn vec_contains(s: &Vec<usize>, x: usize) -> (r: bool)
    ensures
        r == s@.contains(x),
{
    let mut i: usize = 0;
    while i < s.len()
        invariant
            i <= s@.len(),
            forall|j: int| 0 <= j < i ==> s@[j] != x,
        decreases s@.len() - i,
    {
        if s[i] == x {
            return true;
        }
        i += 1;
    }
    false
}

/// An owned copy of the slice `v`.
pub fn copy_slice(v: &[usize]) -> (r: Vec<usize>)
    ensures
        r@ == v@,
{
    let mut r: Vec<usize> = Vec::new();
    let mut i: usize = 0;
    while i < v.len()
        invariant
            i <= v@.len(),
            r@ == v@.take(i as int),
        decreases v@.len() - i,
    {
        r.push(v[i]);
        i += 1;
        assert(r@ =~= v@.take(i as int));
    }
    assert(v@.take(i as int) =~= v@);
    r
}

/// An independent copy of `v`.
pub fn copy_vec(v: &Vec<usize>) -> (r: Vec<usize>)
    ensures
        r@ == v@,
{
    let mut r: Vec<usize> = Vec::new();
    let mut i: usize = 0;
    while i < v.len()
        invariant
            i <= v@.len(),
            r@ == v@.take(i as int),
        decreases v@.len() - i,
    {
        r.push(v[i]);
        i += 1;
        assert(r@ =~= v@.take(i as int));
    }
    assert(v@.take(i as int) =~= v@);
    r
}

/// In a topological order, a prefix holds no node that still has a live node
/// with an edge into it, when every live node has one.
proof fn lemma_topo_prefix_dead(g: Seq<Seq<usize>>, alive: Seq<bool>, o: Seq<usize>, k: int)
    requires
        alive.len() == g.len(),
        g.len() <= usize::MAX,
        lists_in_bounds(g, g.len()),
        is_topological_order(g, o),
        forall|v: usize|
            v < g.len() && alive[v as int] ==> #[trigger] edges_into(g, alive, v, g.len() as int) > 0,
        0 <= k <= g.len(),
    ensures
        forall|i: int| 0 <= i < k ==> !alive[#[trigger] o[i] as int],
    decreases k,
{
    if k > 0 {
        lemma_topo_prefix_dead(g, alive, o, k - 1);
        let v = o[k - 1];
        if alive[v as int] {
            assert(edges_into(g, alive, v, g.len() as int) > 0);
            lemma_edges_into_witness(g, alive, v, g.len() as int);
            let u = choose|u: int| 0 <= u < g.len() && alive[u] && #[trigger] g[u].contains(v);
            lemma_distinct_full_covers(o, g.len(), u as usize);
            let i = choose|i: int| 0 <= i < o.len() && o[i] == u as usize;
            assert(g[o[i] as int].contains(o[k - 1]));
            assert(i < k - 1);
            assert(!alive[o[i] as int]);
        }
    }
}

/// If some node is live and every live node still has a live node with an edge
/// into it, no topological order exists.
proof fn lemma_blocked_not_acyclic(g: Seq<Seq<usize>>, alive: Seq<bool>, v0: usize)
    requires
        alive.len() == g.len(),
        g.len() <= usize::MAX,
        lists_in_bounds(g, g.len()),
        v0 < g.len(),
        alive[v0 as int],
        forall|v: usize|
            v < g.len() && alive[v as int] ==> #[trigger] edges_into(g, alive, v, g.len() as int) > 0,
    ensures
        !is_acyclic(g),
{
    if is_acyclic(g) {
        let o = choose|o: Seq<usize>| is_topological_order(g, o);
        lemma_topo_prefix_dead(g, alive, o, g.len() as int);
        lemma_distinct_full_covers(o, g.len(), v0);
        let k = choose|k: int| 0 <= k < o.len() && o[k] == v0;
        assert(!alive[o[k] as int]);
    }
}

/// Kahn's run from `order` (the queue, whose entries before `head` have left
/// it) and the pending counters `deg`: the node at `head` leaves, its edges are
/// released, the nodes whose counter reached zero join the queue in list order;
/// at most `fuel` steps.
pub open spec fn kahn_from(adj: Seq<Seq<usize>>, deg: Seq<usize>, order: Seq<usize>, head: int, fuel: nat) -> Seq<usize>
    decreases fuel,
{
    if fuel == 0 || head < 0 || head >= order.len() {
        order
    } else {
        let u = order[head];
        kahn_from(
            adj,
            released(deg, adj[u as int]),
            order + ready_nodes(deg, adj[u as int]),
            head + 1,
            (fuel - 1) as nat,
        )
    }
}

/// The nodes in the order Kahn's algorithm puts them: the queue starts with the
/// nodes whose in-degree is zero, in increasing order.
pub open spec fn kahn_sequence(adj: Seq<Seq<usize>>, in_degree: Seq<usize>) -> Seq<usize> {
    kahn_from(adj, in_degree, nodes_where(adj.len(), |v: usize| in_degree[v as int] == 0), 0, adj.len())
}

/// Kahn's algorithm: nodes leave a FIFO queue in order; a node joins the queue
/// when its last incoming edge is released. `None` when a cycle blocks it.
pub fn kahn_order(in_degree: &Vec<usize>, adj: &Vec<Vec<usize>>) -> (r: Option<Vec<usize>>)
    requires
        degrees_consistent(in_degree@, lists_view(adj@)),
    ensures
        r matches Some(o) ==> is_topological_order(lists_view(adj@), o@),
        r matches Some(o) ==> o@ == kahn_sequence(lists_view(adj@), in_degree@),
        r is None <==> !is_acyclic(lists_view(adj@)),
{
    let ghost g = lists_view(adj@);
    let n = adj.len();
    let mut deg = copy_vec(in_degree);
    let mut order = zero_in_degree_nodes(&deg);
    let mut head: usize = 0;
    assert(kahn_from(g, deg@, order@, 0, n as nat) == kahn_sequence(g, in_degree@));
    let ghost mut alive: Seq<bool> = all_alive(n as nat);
    proof {
        lemma_distinct_bounded(order@, n as nat);
        assert forall|i: int, u: int|
            0 <= i < order@.len() && 0 <= u < n && #[trigger] g[u].contains(order@[i]) implies exists|
                k: int,
            | 0 <= k < i && order@[k] == u by {
            let v = order@[i];
            assert(deg@[v as int] == 0);
            if g[u].contains(v) {
                assert(edges_into(g, alive, v, n as int) == 0);
                if edges_into(g, alive, v, n as int) == 0 {
                    assert(alive[u]);
                    lemma_occ_contains(g[u], v);
                    lemma_edges_into_pos(g, alive, v, u, n as int);
                }
            }
        }
        assert forall|v: usize| v < n implies (alive[v as int] <==> !order@.take(0).contains(v)) by {}
    }
    while head < order.len()
        invariant
            n == adj@.len(),
            g == lists_view(adj@),
            degrees_consistent(in_degree@, g),
            deg@.len() == n,
            head <= order@.len() <= n,
            forall|i: int| 0 <= i < order@.len() ==> #[trigger] order@[i] < n,
            order@.no_duplicates(),
            alive.len() == n,
            forall|v: usize| v < n ==> (alive[v as int] <==> !order@.take(head as int).contains(v)),
            forall|v: usize| v < n ==> #[trigger] deg@[v as int] == edges_into(g, alive, v, n as int),
            forall|v: usize|
                v < n && alive[v as int] ==> (#[trigger] order@.contains(v) <==> deg@[v as int] == 0),
            forall|i: int, u: int|
                0 <= i < order@.len() && 0 <= u < n && #[trigger] g[u].contains(order@[i]) ==> exists|
                    k: int,
                | 0 <= k < i && order@[k] == u,
            kahn_from(g, deg@, order@, head as int, (n - head) as nat) == kahn_sequence(g, in_degree@),
        decreases n - head,
    {
        let id = order[head];
        let ghost d_start = deg@;
        let ghost o_start = order@;
        let ghost step_head = head;
        assert(kahn_from(g, d_start, o_start, head as int, (n - head) as nat) == kahn_from(
            g,
            released(d_start, g[id as int]),
            o_start + ready_nodes(d_start, g[id as int]),
            head + 1,
            (n - head - 1) as nat,
        ));
        proof {
            assert(order@.take(head as int + 1) =~= order@.take(head as int).push(id));
            assert(!order@.take(head as int).contains(id)) by {
                if order@.take(head as int).contains(id) {
                    let k = choose|k: int| 0 <= k < head && order@.take(head as int)[k] == id;
                    assert(order@[k] == order@[head as int]);
                }
            }
            assert forall|v: usize| v < n implies #[trigger] deg@[v as int] == edges_into(
                g,
                alive.update(id as int, false),
                v,
                n as int,
            ) + occ(g[id as int].skip(0), v) by {
                lemma_edges_into_kill(g, alive, id as int, v, n as int);
                assert(g[id as int].skip(0) =~= g[id as int]);
            }
            alive = alive.update(id as int, false);
            assert forall|v: usize| v < n implies (alive[v as int] <==> !order@.take(
                head as int + 1,
            ).contains(v)) by {
                let t0 = order@.take(head as int);
                let t1 = order@.take(head as int + 1);
                if t1.contains(v) && v != id {
                    let k = choose|k: int| 0 <= k < t1.len() && t1[k] == v;
                    assert(t0[k] == v);
                }
                if t0.contains(v) {
                    let k = choose|k: int| 0 <= k < t0.len() && t0[k] == v;
                    assert(t1[k] == v);
                }
                if v == id {
                    assert(t1[head as int] == v);
                }
            }
        }
        head += 1;
        let list = &adj[id];
        let mut j: usize = 0;
        while j < list.len()
            invariant
                n == adj@.len(),
                g == lists_view(adj@),
                list@ == g[id as int],
                lists_in_bounds(g, n as nat),
                id < n,
                deg@.len() == n,
                0 < head <= order@.len() <= n,
                order@[head - 1] == id,
                j <= list@.len(),
                forall|i: int| 0 <= i < order@.len() ==> #[trigger] order@[i] < n,
                order@.no_duplicates(),
                alive.len() == n,
                forall|v: usize| v < n ==> (alive[v as int] <==> !order@.take(head as int).contains(v)),
                forall|v: usize|
                    v < n ==> #[trigger] deg@[v as int] == edges_into(g, alive, v, n as int) + occ(
                        g[id as int].skip(j as int),
                        v,
                    ),
                forall|v: usize|
                    v < n && alive[v as int] ==> (#[trigger] order@.contains(v) <==> deg@[v as int]
                        == 0),
                forall|i: int, u: int|
                    0 <= i < order@.len() && 0 <= u < n && #[trigger] g[u].contains(order@[i])
                        ==> exists|k: int| 0 <= k < i && order@[k] == u,
                d_start.len() == n,
                head == step_head + 1,
                deg@ == released(d_start, list@.take(j as int)),
                order@ == o_start + ready_nodes(d_start, list@.take(j as int)),
                kahn_from(g, d_start, o_start, step_head as int, (n - step_head) as nat) == kahn_sequence(
                    g,
                    in_degree@,
                ),
            decreases list@.len() - j,
        {
            let nbr = list[j];
            let ghost pre = list@.take(j as int);
            let ghost post = list@.take(j as int + 1);
            proof {
                assert(post =~= pre.push(nbr));
                assert(post.drop_last() =~= pre);
                lemma_occ_push(pre, nbr, nbr);
            }
            proof {
                assert(g[id as int][j as int] == nbr);
                assert(nbr < n);
                lemma_occ_skip(g[id as int], j as int, nbr);
                assert(alive[nbr as int]) by {
                    if !alive[nbr as int] {
                        assert(order@.take(head as int).contains(nbr));
                        let k = choose|k: int| 0 <= k < head && order@.take(head as int)[k] == nbr;
                        assert(order@[k] == nbr);
                        assert(g[id as int].contains(nbr));
                        assert(g[order@[head - 1] as int].contains(order@[k]));
                        let k2 = choose|k2: int| 0 <= k2 < k && order@[k2] == id;
                        assert(order@[k2] == order@[head - 1]);
                    }
                }
            }
            let d = deg[nbr].saturating_sub(1);
            let ghost order0 = order@;
            deg.set(nbr, d);
            if d == 0 {
                proof {
                    assert(!order@.contains(nbr));
                }
                order.push(nbr);
                proof {
                    assert(order@.no_duplicates()) by {
                        assert forall|a: int, b: int|
                            0 <= a < order@.len() && 0 <= b < order@.len() && a != b implies order@[a]
                            != order@[b] by {
                            if a == order0.len() {
                                assert(order0.contains(order0[b]) || b == order0.len());
                            } else if b == order0.len() {
                                assert(order0.contains(order0[a]));
                            }
                        }
                    }
                    lemma_distinct_bounded(order@, n as nat);
                }
            }
            proof {
                assert forall|v: usize| v < n implies #[trigger] deg@[v as int] == released(d_start, post)[v as int] by {
                    lemma_occ_push(pre, nbr, v);
                }
                assert(deg@ =~= released(d_start, post));
                assert(order@ =~= o_start + ready_nodes(d_start, post));
                assert(order@.take(head as int) =~= order0.take(head as int));
                assert forall|v: usize| v < n implies #[trigger] deg@[v as int] == edges_into(
                    g,
                    alive,
                    v,
                    n as int,
                ) + occ(g[id as int].skip(j as int + 1), v) by {
                    lemma_occ_skip(g[id as int], j as int, v);
                }
                assert forall|v: usize|
                    v < n && alive[v as int] implies (#[trigger] order@.contains(v) <==> deg@[v as int]
                    == 0) by {
                    if v != nbr {
                        if order@.contains(v) {
                            let k = choose|k: int| 0 <= k < order@.len() && order@[k] == v;
                            assert(order0.contains(v)) by {
                                assert(k < order0.len());
                                assert(order0[k] == v);
                            }
                        }
                        if order0.contains(v) {
                            let k = choose|k: int| 0 <= k < order0.len() && order0[k] == v;
                            assert(order@[k] == v);
                        }
                    } else if d == 0 {
                        assert(order@[order@.len() - 1] == v);
                    }
                }
                assert forall|i: int, u: int|
                    0 <= i < order@.len() && 0 <= u < n && #[trigger] g[u].contains(order@[i]) implies exists|
                        k: int,
                    | 0 <= k < i && order@[k] == u by {
                    if i < order0.len() {
                        assert(order@[i] == order0[i]);
                        let k = choose|k: int| 0 <= k < i && order0[k] == u;
                        assert(order@[k] == u);
                    } else {
                        assert(order@[i] == nbr);
                        lemma_occ_skip(g[id as int], j as int, nbr);
                        assert(edges_into(g, alive, nbr, n as int) == 0);
                        if alive[u] {
                            lemma_occ_contains(g[u], nbr);
                            lemma_edges_into_pos(g, alive, nbr, u, n as int);
                        }
                        assert(order@.take(head as int).contains(u as usize));
                        let k = choose|k: int|
                            0 <= k < head && order@.take(head as int)[k] == u as usize;
                        assert(order@[k] == u);
                    }
                }
            }
            j += 1;
        }
        proof {
            assert forall|v: usize| v < n implies #[trigger] deg@[v as int] == edges_into(
                g,
                alive,
                v,
                n as int,
            ) by {
                assert(g[id as int].skip(j as int).len() == 0);
            }
            assert(list@.take(j as int) =~= list@);
        }
    }
    if order.len() != n {
        proof {
            assert(order@.take(head as int) =~= order@);
            assert(exists|v: usize| v < n && !order@.contains(v)) by {
                if forall|v: usize| v < n ==> order@.contains(v) {
                    lemma_distinct_covering_long(order@, n as nat);
                }
            }
            let v0 = choose|v: usize| v < n && !order@.contains(v);
            assert forall|v: usize| v < n && alive[v as int] implies #[trigger] edges_into(
                g,
                alive,
                v,
                n as int,
            ) > 0 by {
                assert(deg@[v as int] == edges_into(g, alive, v, n as int));
            }
            lemma_blocked_not_acyclic(g, alive, v0);
        }
        return None;
    }
    proof {
        assert forall|i: int, j: int|
            0 <= i < order@.len() && 0 <= j < order@.len() && #[trigger] g[order@[i] as int].contains(
                #[trigger] order@[j],
            ) implies i < j by {
            let k = choose|k: int| 0 <= k < j && order@[k] == order@[i] as int;
            assert(k == i);
        }
        assert(is_topological_order(g, order@));
    }
    Some(order)
}

/// A live list holding `v` makes the count positive.
pub proof fn lemma_edges_into_pos(adj: Seq<Seq<usize>>, alive: Seq<bool>, v: usize, u: int, k: int)
    requires
        0 <= u < k,
        alive[u],
        occ(adj[u], v) > 0,
    ensures
        edges_into(adj, alive, v, k) > 0,
    decreases k,
{
    if k - 1 > u {
        lemma_edges_into_pos(adj, alive, v, u, k - 1);
    }
}

pub proof fn lemma_occ_shift(l: Seq<usize>, off: int, v: usize)
    requires
        0 <= off,
        v + off <= usize::MAX,
        forall|j: int| 0 <= j < l.len() ==> #[trigger] l[j] + off <= usize::MAX,
    ensures
        occ(shift_list(l, off), (v + off) as usize) == occ(l, v),
    decreases l.len(),
{
    if l.len() > 0 {
        assert(shift_list(l, off).drop_last() =~= shift_list(l.drop_last(), off));
        lemma_occ_shift(l.drop_last(), off, v);
    }
}

pub proof fn lemma_edges_into_shift(adj: Seq<Seq<usize>>, off: int, v: usize, k: int)
    requires
        0 <= off,
        v + off <= usize::MAX,
        k <= adj.len(),
        forall|u: int, j: int|
            0 <= u < adj.len() && 0 <= j < adj[u].len() ==> #[trigger] adj[u][j] + off <= usize::MAX,
    ensures
        edges_into(shift_lists(adj, off), all_alive(adj.len()), (v + off) as usize, k) == edges_into(
            adj,
            all_alive(adj.len()),
            v,
            k,
        ),
    decreases k,
{
    if k > 0 {
        lemma_edges_into_shift(adj, off, v, k - 1);
        assert forall|j: int| 0 <= j < adj[k - 1].len() implies #[trigger] adj[k - 1][j] + off
            <= usize::MAX by {}
        lemma_occ_shift(adj[k - 1], off, v);
    }
}

/// The list `l` with every entry moved up by `off`.
pub fn shifted(l: &Vec<usize>, off: usize) -> (r: Vec<usize>)
    requires
        forall|j: int| 0 <= j < l@.len() ==> #[trigger] l@[j] + off <= usize::MAX,
    ensures
        r@ == shift_list(l@, off as int),
{
    let mut r: Vec<usize> = Vec::new();
    let mut j: usize = 0;
    while j < l.len()
        invariant
            j <= l@.len(),
            forall|i: int| 0 <= i < l@.len() ==> #[trigger] l@[i] + off <= usize::MAX,
            r@ == shift_list(l@.take(j as int), off as int),
        decreases l@.len() - j,
    {
        r.push(l[j] + off);
        j += 1;
        assert(r@ =~= shift_list(l@.take(j as int), off as int));
    }
    assert(l@.take(j as int) =~= l@);
    r
}

/// Appends the nodes of another graph after the existing ones, moving their
/// edges up by the current node count.
pub fn append_shifted(
    in_degree: &mut Vec<usize>,
    adj: &mut Vec<Vec<usize>>,
    sub_in_degree: &Vec<usize>,
    sub_adj: &Vec<Vec<usize>>,
)
    requires
        degrees_consistent(old(in_degree)@, lists_view(old(adj)@)),
        degrees_consistent(sub_in_degree@, lists_view(sub_adj@)),
        old(adj)@.len() + sub_adj@.len() <= usize::MAX,
    ensures
        degrees_consistent(final(in_degree)@, lists_view(final(adj)@)),
        lists_view(final(adj)@) == lists_view(old(adj)@) + shift_lists(
            lists_view(sub_adj@),
            old(adj)@.len() as int,
        ),
        final(in_degree)@ == old(in_degree)@ + sub_in_degree@,
{
    let ghost a = lists_view(adj@);
    let ghost b = lists_view(sub_adj@);
    let ghost in0 = in_degree@;
    let off = adj.len();
    let mut k: usize = 0;
    while k < sub_adj.len()
        invariant
            a.len() == off,
            b == lists_view(sub_adj@),
            degrees_consistent(sub_in_degree@, b),
            off + sub_adj@.len() <= usize::MAX,
            k <= sub_adj@.len(),
            lists_view(adj@) == a + shift_lists(b.take(k as int), off as int),
            in_degree@ == in0 + sub_in_degree@.take(k as int),
        decreases sub_adj@.len() - k,
    {
        assert forall|j: int| 0 <= j < sub_adj@[k as int]@.len() implies #[trigger] sub_adj@[k as int]@[j]
            + off <= usize::MAX by {
            assert(b[k as int][j] < b.len());
        }
        let l = shifted(&sub_adj[k], off);
        let ghost prev = lists_view(adj@);
        assert(b[k as int] == sub_adj@[k as int]@);
        adj.push(l);
        in_degree.push(sub_in_degree[k]);
        assert(lists_view(adj@) =~= prev.push(shift_list(b[k as int], off as int)));
        assert(shift_lists(b.take(k as int + 1), off as int) =~= shift_lists(b.take(k as int), off as int).push(
            shift_list(b[k as int], off as int),
        ));
        k += 1;
        assert(lists_view(adj@) =~= a + shift_lists(b.take(k as int), off as int));
        assert(in_degree@ =~= in0 + sub_in_degree@.take(k as int));
    }
    assert(b.take(k as int) =~= b);
    assert(sub_in_degree@.take(k as int) =~= sub_in_degree@);
    proof {
        let bs = shift_lists(b, off as int);
        let full = a + bs;
        assert(lists_view(adj@) == full);
        assert forall|u: int, j: int| 0 <= u < full.len() && 0 <= j < full[u].len() implies #[trigger] full[u][j]
            < full.len() by {
            if u < a.len() {
                assert(full[u] == a[u]);
            } else {
                assert(full[u] == bs[u - a.len()]);
                assert(b[u - a.len()][j] < b.len());
            }
        }
        assert forall|u: int, j: int| 0 <= u < b.len() && 0 <= j < b[u].len() implies #[trigger] b[u][j]
            + off <= usize::MAX by {
            assert(b[u][j] < b.len());
        }
        assert forall|v: usize| v < full.len() implies #[trigger] in_degree@[v as int] == in_degree_of(
            full,
            v,
        ) by {
            lemma_edges_into_concat(a, bs, v, bs.len() as int);
            assert(all_alive(a.len() + bs.len()) == all_alive(full.len()));
            if v < off {
                assert forall|u: int| 0 <= u < bs.len() && all_alive(bs.len())[u] implies !(
                #[trigger] bs[u].contains(v)) by {
                    if bs[u].contains(v) {
                        let j = choose|j: int| 0 <= j < bs[u].len() && bs[u][j] == v;
                        assert(bs[u][j] == b[u][j] + off);
                    }
                }
                lemma_edges_into_none(bs, all_alive(bs.len()), v, bs.len() as int);
                assert(in_degree@[v as int] == in0[v as int]);
            } else {
                let w = (v - off) as usize;
                assert forall|u: int| 0 <= u < a.len() && all_alive(a.len())[u] implies !(
                #[trigger] a[u].contains(v)) by {
                    if a[u].contains(v) {
                        let j = choose|j: int| 0 <= j < a[u].len() && a[u][j] == v;
                        assert(a[u][j] < a.len());
                    }
                }
                lemma_edges_into_none(a, all_alive(a.len()), v, a.len() as int);
                lemma_edges_into_shift(b, off as int, w, b.len() as int);
                assert((w + off) as usize == v);
                assert(in_degree@[v as int] == sub_in_degree@[w as int]);
            }
        }
    }
}

// ---------------------------------------------------------------------------
// Lemmas on joined and deduplicated lists
// ---------------------------------------------------------------------------

pub proof fn lemma_concat_contains(a: Seq<usize>, b: Seq<usize>, x: usize)
    ensures
        (a + b).contains(x) <==> a.contains(x) || b.contains(x),
{
    if (a + b).contains(x) {
        let k = choose|k: int| 0 <= k < (a + b).len() && (a + b)[k] == x;
        if k < a.len() {
            assert(a[k] == x);
        } else {
            assert(b[k - a.len()] == x);
        }
    }
    if a.contains(x) {
        let k = choose|k: int| 0 <= k < a.len() && a[k] == x;
        assert((a + b)[k] == x);
    }
    if b.contains(x) {
        let k = choose|k: int| 0 <= k < b.len() && b[k] == x;
        assert((a + b)[a.len() + k] == x);
    }
}

pub proof fn lemma_concat_lists_contains(ls: Seq<Seq<usize>>, x: usize)
    ensures
        concat_lists(ls).contains(x) <==> exists|k: int| 0 <= k < ls.len() && #[trigger] ls[k].contains(x),
    decreases ls.len(),
{
    if ls.len() > 0 {
        lemma_concat_lists_contains(ls.drop_last(), x);
        lemma_concat_contains(concat_lists(ls.drop_last()), ls.last(), x);
        if exists|k: int| 0 <= k < ls.len() && #[trigger] ls[k].contains(x) {
            let k = choose|k: int| 0 <= k < ls.len() && #[trigger] ls[k].contains(x);
            if k < ls.len() - 1 {
                assert(ls.drop_last()[k] == ls[k]);
            }
        }
        if exists|k: int| 0 <= k < ls.drop_last().len() && #[trigger] ls.drop_last()[k].contains(x) {
            let k = choose|k: int| 0 <= k < ls.drop_last().len() && #[trigger] ls.drop_last()[k].contains(x);
            assert(ls[k] == ls.drop_last()[k]);
        }
    }
}

pub proof fn lemma_push_contains(t: Seq<usize>, y: usize, x: usize)
    ensures
        t.push(y).contains(x) <==> t.contains(x) || x == y,
{
    if t.push(y).contains(x) && x != y {
        let k = choose|k: int| 0 <= k < t.push(y).len() && t.push(y)[k] == x;
        assert(t[k] == x);
    }
    if t.contains(x) {
        let k = choose|k: int| 0 <= k < t.len() && t[k] == x;
        assert(t.push(y)[k] == x);
    }
    if x == y {
        assert(t.push(y)[t.len() as int] == x);
    }
}

pub proof fn lemma_dedup(s: Seq<usize>)
    ensures
        dedup(s).no_duplicates(),
        forall|x: usize| #[trigger] dedup(s).contains(x) <==> s.contains(x),
    decreases s.len(),
{
    if s.len() > 0 {
        let t = s.drop_last();
        let y = s.last();
        lemma_dedup(t);
        let d = dedup(t);
        assert(s =~= t.push(y));
        assert forall|x: usize| #[trigger] dedup(s).contains(x) <==> s.contains(x) by {
            lemma_push_contains(t, y, x);
            lemma_push_contains(d, y, x);
        }
        if !d.contains(y) {
            assert(dedup(s).no_duplicates()) by {
                let e = d.push(y);
                assert forall|i: int, j: int| 0 <= i < e.len() && 0 <= j < e.len() && i != j implies e[i]
                    != e[j] by {
                    if i == d.len() {
                        assert(d.contains(e[j]) || j == d.len());
                    } else if j == d.len() {
                        assert(d.contains(e[i]));
                    }
                }
            }
        }
    }
}

/// Joining values already present adds nothing to the deduplicated list.
pub proof fn lemma_dedup_absorb(s: Seq<usize>, t: Seq<usize>)
    requires
        forall|k: int| 0 <= k < t.len() ==> s.contains(#[trigger] t[k]),
    ensures
        dedup(s + t) == dedup(s),
    decreases t.len(),
{
    if t.len() == 0 {
        assert(s + t =~= s);
    } else {
        lemma_dedup_absorb(s, t.drop_last());
        assert((s + t).drop_last() =~= s + t.drop_last());
        assert((s + t).last() == t.last());
        lemma_dedup(s);
        assert(s.contains(t[t.len() - 1]));
    }
}

pub proof fn lemma_dedup_push(s: Seq<usize>, x: usize)
    ensures
        dedup(s.push(x)) == if dedup(s).contains(x) {
            dedup(s)
        } else {
            dedup(s).push(x)
        },
{
    assert(s.push(x).drop_last() =~= s);
}

// ---------------------------------------------------------------------------
// Cutting and stitching edges
// ---------------------------------------------------------------------------

/// The lists of `adj` with those of the nodes in `at` emptied.
pub open spec fn cleared(adj: Seq<Seq<usize>>, at: Seq<usize>) -> Seq<Seq<usize>> {
    Seq::new(
        adj.len(),
        |u: int|
            if at.contains(u as usize) {
                Seq::empty()
            } else {
                adj[u]
            },
    )
}

/// Empties the lists of the nodes `at`, uncounting their edges, and returns the
/// distinct downstream neighbours those lists held.
pub fn detach_downstream(in_degree: &mut Vec<usize>, adj: &mut Vec<Vec<usize>>, at: &Vec<usize>) -> (d:
    Vec<usize>)
    requires
        degrees_consistent(old(in_degree)@, lists_view(old(adj)@)),
        forall|i: int| 0 <= i < at@.len() ==> #[trigger] at@[i] < old(adj)@.len(),
    ensures
        degrees_consistent(final(in_degree)@, lists_view(final(adj)@)),
        lists_view(final(adj)@) == cleared(lists_view(old(adj)@), at@),
        d@ == downstream_of(lists_view(old(adj)@), at@),
        forall|v: int| 0 <= v < old(adj)@.len() ==> #[trigger] final(in_degree)@[v] <= old(in_degree)@[v],
{
    let ghost a0 = lists_view(adj@);
    let ghost in0 = in_degree@;
    let ghost f = |a: usize| a0[a as int];
    let n = adj.len();
    let mut d: Vec<usize> = Vec::new();
    let mut i: usize = 0;
    proof {
        assert(cleared(a0, at@.take(0)) =~= a0);
        assert(at@.take(0).map_values(f) =~= Seq::<Seq<usize>>::empty());
    }
    while i < at.len()
        invariant
            n == adj@.len(),
            a0.len() == n,
            f == (|a: usize| a0[a as int]),
            forall|k: int| 0 <= k < at@.len() ==> #[trigger] at@[k] < n,
            i <= at@.len(),
            lists_view(adj@) == cleared(a0, at@.take(i as int)),
            degrees_consistent(in_degree@, lists_view(adj@)),
            forall|v: int| 0 <= v < n ==> #[trigger] in_degree@[v] <= in0[v],
                in0.len() == n,
            d@ == dedup(concat_lists(at@.take(i as int).map_values(f))),
            lists_in_bounds(a0, n as nat),
        decreases at@.len() - i,
    {
        let a = at[i];
        let ghost before = lists_view(adj@);
        let ghost prefix = concat_lists(at@.take(i as int).map_values(f));
        let mut taken: Vec<usize> = Vec::new();
        std::mem::swap(&mut adj[a], &mut taken);
        let ghost t = taken@;
        proof {
            assert(t == before[a as int]);
            assert(at@.take(i as int + 1) =~= at@.take(i as int).push(a));
            assert(lists_view(adj@) =~= before.update(a as int, Seq::<usize>::empty()));
            assert(lists_view(adj@) =~= cleared(a0, at@.take(i as int + 1))) by {
                assert forall|u: int| 0 <= u < n implies lists_view(adj@)[u] == cleared(
                    a0,
                    at@.take(i as int + 1),
                )[u] by {
                    lemma_push_contains(at@.take(i as int), a, u as usize);
                }
            }
            assert forall|v: usize| v < n implies #[trigger] in_degree@[v as int] == in_degree_of(
                lists_view(adj@),
                v,
            ) + occ(t.skip(0), v) by {
                lemma_edges_into_update(before, all_alive(n as nat), a as int, Seq::empty(), v, n as int);
                assert(before.update(a as int, Seq::empty()) =~= lists_view(adj@));
                assert(t.skip(0) =~= t);
                assert(occ(Seq::<usize>::empty(), v) == 0);
            }
        }
        let mut j: usize = 0;
        while j < taken.len()
            invariant
                n == adj@.len(),
                a0.len() == n,
                t == taken@,
                forall|k: int| 0 <= k < t.len() ==> #[trigger] t[k] < n,
                j <= t.len(),
                degrees_consistent_but(in_degree@, lists_view(adj@), t.skip(j as int)),
                forall|v: int| 0 <= v < n ==> #[trigger] in_degree@[v] <= in0[v],
                in0.len() == n,
                d@ == dedup(prefix + t.take(j as int)),
            decreases t.len() - j,
        {
            let x = taken[j];
            proof {
                lemma_occ_skip(t, j as int, x);
                assert(in_degree@[x as int] >= 1);
            }
            let c = in_degree[x];
            in_degree.set(x, c - 1);
            let ghost d0 = d@;
            if !vec_contains(&d, x) {
                d.push(x);
            }
            proof {
                assert(t.take(j as int + 1) =~= t.take(j as int).push(x));
                assert(prefix + t.take(j as int + 1) =~= (prefix + t.take(j as int)).push(x));
                lemma_dedup_push(prefix + t.take(j as int), x);
                assert forall|v: usize| v < n implies #[trigger] in_degree@[v as int] == in_degree_of(
                    lists_view(adj@),
                    v,
                ) + occ(t.skip(j as int + 1), v) by {
                    lemma_occ_skip(t, j as int, v);
                }
            }
            j += 1;
        }
        proof {
            assert(t.skip(j as int) =~= Seq::<usize>::empty());
            assert(t.take(j as int) =~= t);
            assert forall|v: usize| v < n implies #[trigger] in_degree@[v as int] == in_degree_of(
                lists_view(adj@),
                v,
            ) by {
                assert(occ(Seq::<usize>::empty(), v) == 0);
            }
            let g = lists_view(adj@);
            assert forall|u: int, k: int| 0 <= u < g.len() && 0 <= k < g[u].len() implies #[trigger] g[u][k]
                < g.len() by {
                assert(g[u] == a0[u]);
            }
            assert(at@.take(i as int + 1).map_values(f) =~= at@.take(i as int).map_values(f).push(a0[a as int]));
            let full = concat_lists(at@.take(i as int + 1).map_values(f));
            assert(at@.take(i as int + 1).map_values(f).drop_last() =~= at@.take(i as int).map_values(f));
            assert(full == prefix + a0[a as int]);
            if at@.take(i as int).contains(a) {
                let k = choose|k: int| 0 <= k < i && at@.take(i as int)[k] == a;
                assert(before[a as int] == Seq::<usize>::empty());
                assert(t =~= Seq::<usize>::empty());
                assert(prefix + t =~= prefix);
                assert forall|m: int| 0 <= m < a0[a as int].len() implies prefix.contains(
                    #[trigger] a0[a as int][m],
                ) by {
                    let ls = at@.take(i as int).map_values(f);
                    assert(ls[k] == a0[a as int]);
                    assert(ls[k].contains(a0[a as int][m]));
                    lemma_concat_lists_contains(ls, a0[a as int][m]);
                }
                lemma_dedup_absorb(prefix, a0[a as int]);
            } else {
                assert(before[a as int] == a0[a as int]);
            }
        }
        i += 1;
    }
    proof {
        assert(at@.take(i as int) =~= at@);
    }
    d
}

/// The adjacency lists agree with `in_degree` except for entries of `pending`,
/// which are counted but no longer listed.
pub open spec fn degrees_consistent_but(in_degree: Seq<usize>, adj: Seq<Seq<usize>>, pending: Seq<usize>) -> bool {
    &&& in_degree.len() == adj.len()
    &&& lists_in_bounds(adj, adj.len())
    &&& forall|v: usize| v < adj.len() ==> #[trigger] in_degree[v as int] == in_degree_of(adj, v) + occ(pending, v)
}

/// Adds, for each entry `f` of `from` in turn, the edges from `f` to every node
/// of `to` in order.
pub fn attach_each(in_degree: &mut Vec<usize>, adj: &mut Vec<Vec<usize>>, from: &Vec<usize>, to: &Vec<usize>)
    requires
        degrees_consistent(old(in_degree)@, lists_view(old(adj)@)),
        forall|i: int| 0 <= i < from@.len() ==> #[trigger] from@[i] < old(adj)@.len(),
        forall|i: int| 0 <= i < to@.len() ==> #[trigger] to@[i] < old(adj)@.len(),
        to@.no_duplicates(),
        forall|i: int| 0 <= i < to@.len() ==> #[trigger] old(in_degree)@[to@[i] as int] + from@.len() <= usize::MAX,
    ensures
        degrees_consistent(final(in_degree)@, lists_view(final(adj)@)),
        lists_view(final(adj)@) == Seq::new(
            old(adj)@.len(),
            |u: int| lists_view(old(adj)@)[u] + repeat(to@, occ(from@, u as usize)),
        ),
        forall|v: int|
            0 <= v < old(adj)@.len() ==> #[trigger] final(in_degree)@[v] == old(in_degree)@[v] + if to@.contains(
                v as usize,
            ) {
                from@.len() as int
            } else {
                0
            },
{
    let ghost a0 = lists_view(adj@);
    let ghost in0 = in_degree@;
    let n = adj.len();
    let mut i: usize = 0;
    proof {
        assert(lists_view(adj@) =~= Seq::new(n as nat, |u: int| a0[u] + repeat(to@, occ(from@.take(0), u as usize))))
            by {
            assert forall|u: int| 0 <= u < n implies #[trigger] a0[u] =~= a0[u] + repeat(
                to@,
                occ(from@.take(0), u as usize),
            ) by {
                assert(from@.take(0).len() == 0);
                assert(repeat(to@, 0) =~= Seq::<usize>::empty());
            }
        }
    }
    while i < from.len()
        invariant
            n == adj@.len(),
            a0.len() == n,
            in0.len() == n,
            forall|k: int| 0 <= k < from@.len() ==> #[trigger] from@[k] < n,
            forall|k: int| 0 <= k < to@.len() ==> #[trigger] to@[k] < n,
            to@.no_duplicates(),
            forall|k: int| 0 <= k < to@.len() ==> #[trigger] in0[to@[k] as int] + from@.len() <= usize::MAX,
            i <= from@.len(),
            degrees_consistent(in_degree@, lists_view(adj@)),
            lists_view(adj@) == Seq::new(n as nat, |u: int| a0[u] + repeat(to@, occ(from@.take(i as int), u as usize))),
            forall|v: int| 0 <= v < n ==> #[trigger] in_degree@[v] == in0[v] + if to@.contains(v as usize) {
                i as int
            } else {
                0
            },
        decreases from@.len() - i,
    {
        let f = from[i];
        let ghost base = lists_view(adj@);
        let mut j: usize = 0;
        while j < to.len()
            invariant
                n == adj@.len(),
                a0.len() == n,
                in0.len() == n,
                f < n,
                forall|k: int| 0 <= k < to@.len() ==> #[trigger] to@[k] < n,
                to@.no_duplicates(),
                forall|k: int| 0 <= k < to@.len() ==> #[trigger] in0[to@[k] as int] + from@.len() <= usize::MAX,
                i < from@.len(),
                j <= to@.len(),
                base.len() == n,
                degrees_consistent(in_degree@, lists_view(adj@)),
                lists_view(adj@) == base.update(f as int, base[f as int] + to@.take(j as int)),
                forall|v: int| 0 <= v < n ==> #[trigger] in_degree@[v] == in0[v] + (if to@.contains(v as usize) {
                    i as int
                } else {
                    0
                }) + (if to@.take(j as int).contains(v as usize) {
                    1int
                } else {
                    0
                }),
            decreases to@.len() - j,
        {
            let t = to[j];
            let ghost before = lists_view(adj@);
            proof {
                assert(!to@.take(j as int).contains(t)) by {
                    if to@.take(j as int).contains(t) {
                        let k = choose|k: int| 0 <= k < j && to@.take(j as int)[k] == t;
                        assert(to@[k] == to@[j as int]);
                    }
                }
                assert(to@.contains(t)) by {
                    assert(to@[j as int] == t);
                }
            }
            adj[f].push(t);
            let c = in_degree[t];
            in_degree.set(t, c + 1);
            proof {
                let after = lists_view(adj@);
                let newl = before[f as int].push(t);
                assert(after =~= before.update(f as int, newl));
                assert(to@.take(j as int + 1) =~= to@.take(j as int).push(t));
                assert(base[f as int] + to@.take(j as int + 1) =~= (base[f as int] + to@.take(j as int)).push(t));
                assert(after =~= base.update(f as int, base[f as int] + to@.take(j as int + 1)));
                assert forall|v: usize| v < after.len() implies #[trigger] in_degree@[v as int] == in_degree_of(
                    after,
                    v,
                ) by {
                    lemma_edges_into_update(before, all_alive(n as nat), f as int, newl, v, n as int);
                    lemma_occ_push(before[f as int], t, v);
                }
                assert forall|u: int, k: int| 0 <= u < after.len() && 0 <= k < after[u].len() implies #[trigger] after[u][k]
                    < after.len() by {
                    if u == f && k == before[u].len() {
                    } else {
                        assert(after[u][k] == before[u][k]);
                    }
                }
                assert forall|v: int| 0 <= v < n implies #[trigger] in_degree@[v] == in0[v] + (if to@.contains(
                    v as usize,
                ) {
                    i as int
                } else {
                    0
                }) + (if to@.take(j as int + 1).contains(v as usize) {
                    1int
                } else {
                    0
                }) by {
                    lemma_push_contains(to@.take(j as int), t, v as usize);
                }
            }
            j += 1;
        }
        proof {
            assert(to@.take(j as int) =~= to@);
            assert(from@.take(i as int + 1) =~= from@.take(i as int).push(f));
            let after = lists_view(adj@);
            assert(after =~= Seq::new(n as nat, |u: int| a0[u] + repeat(to@, occ(from@.take(i as int + 1), u as usize))))
                by {
                assert forall|u: int| 0 <= u < n implies #[trigger] after[u] =~= a0[u] + repeat(
                    to@,
                    occ(from@.take(i as int + 1), u as usize),
                ) by {
                    lemma_occ_push(from@.take(i as int), f, u as usize);
                    if u == f {
                        let k = occ(from@.take(i as int), u as usize);
                        assert(repeat(to@, k + 1) == repeat(to@, k) + to@);
                    }
                }
            }
            assert forall|v: int| 0 <= v < n implies #[trigger] in_degree@[v] == in0[v] + if to@.contains(v as usize) {
                i as int + 1
            } else {
                0
            } by {}
        }
        i += 1;
    }
    proof {
        assert(from@.take(i as int) =~= from@);
    }
}

/// In a duplicate-free sequence a value occurs once if present, else never.
pub proof fn lemma_occ_distinct(s: Seq<usize>, v: usize)
    requires
        s.no_duplicates(),
    ensures
        occ(s, v) == if s.contains(v) {
            1nat
        } else {
            0nat
        },
    decreases s.len(),
{
    lemma_occ_contains(s, v);
    if s.len() > 0 {
        let t = s.drop_last();
        assert(t.no_duplicates());
        lemma_occ_distinct(t, v);
        assert(s =~= t.push(s.last()));
        lemma_push_contains(t, s.last(), v);
        if s.last() == v && t.contains(v) {
            let k = choose|k: int| 0 <= k < t.len() && t[k] == v;
            assert(s[k] == s[s.len() - 1]);
        }
    }
}

/// A strictly increasing sequence has no duplicates.
pub proof fn lemma_ascending_distinct(s: Seq<usize>)
    requires
        forall|i: int, j: int| 0 <= i < j < s.len() ==> s[i] < s[j],
    ensures
        s.no_duplicates(),
{
    assert forall|i: int, j: int| 0 <= i < s.len() && 0 <= j < s.len() && i != j implies s[i] != s[j] by {
        if i < j {
            assert(s[i] < s[j]);
        } else {
            assert(s[j] < s[i]);
        }
    }
}

/// With duplicate-free lists, a node has at most one incoming edge per node.
pub proof fn lemma_in_degree_at_most_nodes(adj: Seq<Seq<usize>>, v: usize, k: int)
    requires
        0 <= k <= adj.len(),
        forall|u: int| 0 <= u < adj.len() ==> (#[trigger] adj[u]).no_duplicates(),
    ensures
        edges_into(adj, all_alive(adj.len()), v, k) <= k,
    decreases k,
{
    if k > 0 {
        lemma_in_degree_at_most_nodes(adj, v, k - 1);
        lemma_occ_distinct(adj[k - 1], v);
    }
}

/// A duplicate-free sequence of `usize` values has at most `usize::MAX + 1` elements.
pub proof fn lemma_distinct_usize_count(s: Seq<usize>)
    requires
        s.no_duplicates(),
    ensures
        s.len() <= usize::MAX + 1,
{
    let top = usize::MAX;
    if s.contains(top) {
        let k = choose|k: int| 0 <= k < s.len() && s[k] == top;
        let t = s.remove(k);
        s.remove_ensures(k);
        assert forall|i: int| 0 <= i < t.len() implies #[trigger] t[i] < usize::MAX by {
            if i < k {
                assert(t[i] == s[i]);
            } else {
                assert(t[i] == s[i + 1]);
            }
        }
        assert(t.no_duplicates()) by {
            assert forall|i: int, j: int| 0 <= i < t.len() && 0 <= j < t.len() && i != j implies t[i] != t[j] by {
                let si = if i < k { i } else { i + 1 };
                let sj = if j < k { j } else { j + 1 };
                assert(t[i] == s[si]);
                assert(t[j] == s[sj]);
            }
        }
        lemma_distinct_bounded(t, usize::MAX as nat);
    } else {
        assert forall|i: int| 0 <= i < s.len() implies #[trigger] s[i] < usize::MAX by {
            assert(s[i] != top);
        }
        lemma_distinct_bounded(s, usize::MAX as nat);
    }
}

/// Adding a node without edges neither makes nor breaks a cycle (while the
/// new node can still be named by a `usize`).
pub proof fn lemma_acyclic_push_empty(adj: Seq<Seq<usize>>)
    ensures
        is_acyclic(adj.push(Seq::empty())) ==> is_acyclic(adj),
        adj.len() <= usize::MAX ==> (is_acyclic(adj) ==> is_acyclic(adj.push(Seq::empty()))),
{
    let g = adj.push(Seq::<usize>::empty());
    let m = adj.len();
    assert forall|u: int| 0 <= u < m implies #[trigger] g[u] == adj[u] by {}
    if is_acyclic(adj) && adj.len() <= usize::MAX {
        let o = choose|o: Seq<usize>| is_topological_order(adj, o);
        let o2 = o.push(m as usize);
        assert(o2.no_duplicates()) by {
            assert forall|i: int, j: int| 0 <= i < o2.len() && 0 <= j < o2.len() && i != j implies o2[i] != o2[j] by {
                if i < m && j < m {
                    assert(o2[i] == o[i] && o2[j] == o[j]);
                } else if i < m {
                    assert(o2[i] == o[i]);
                    assert(o[i] < m);
                } else {
                    assert(o2[j] == o[j]);
                    assert(o[j] < m);
                }
            }
        }
        assert forall|i: int, j: int|
            0 <= i < o2.len() && 0 <= j < o2.len() && #[trigger] g[o2[i] as int].contains(#[trigger] o2[j]) implies i < j by {
            if i == m {
                assert(g[m as int] == Seq::<usize>::empty());
            } else if j < m {
                assert(o2[i] == o[i] && o2[j] == o[j]);
                assert(adj[o[i] as int].contains(o[j]));
            }
        }
        assert(is_topological_order(g, o2));
    }
    if is_acyclic(g) {
        let o2 = choose|o: Seq<usize>| is_topological_order(g, o);
        lemma_distinct_usize_count(o2);
        let top = m as usize;
        if !o2.contains(top) {
            assert forall|i: int| 0 <= i < o2.len() implies #[trigger] o2[i] < m by {
                assert(o2[i] != top);
            }
            lemma_distinct_bounded(o2, m);
        }
        let k = choose|k: int| 0 <= k < o2.len() && o2[k] == top;
        let o = o2.remove(k);
        o2.remove_ensures(k);
        assert forall|i: int| 0 <= i < o.len() implies #[trigger] o[i] == o2[if i < k { i } else { i + 1 }] by {}
        assert(o.no_duplicates()) by {
            assert forall|i: int, j: int| 0 <= i < o.len() && 0 <= j < o.len() && i != j implies o[i] != o[j] by {
                let si = if i < k { i } else { i + 1 };
                let sj = if j < k { j } else { j + 1 };
                assert(o[i] == o2[si]);
                assert(o[j] == o2[sj]);
            }
        }
        assert forall|i: int| 0 <= i < o.len() implies #[trigger] o[i] < adj.len() by {
            let si = if i < k { i } else { i + 1 };
            assert(o[i] == o2[si]);
            assert(o2[si] != o2[k]);
        }
        assert forall|i: int, j: int|
            0 <= i < o.len() && 0 <= j < o.len() && #[trigger] adj[o[i] as int].contains(#[trigger] o[j]) implies i < j by {
            let si = if i < k { i } else { i + 1 };
            let sj = if j < k { j } else { j + 1 };
            assert(o[i] == o2[si]);
            assert(o[j] == o2[sj]);
            assert(o[i] < m);
            assert(g[o2[si] as int].contains(o2[sj]));
        }
        assert(is_topological_order(adj, o));
    }
}

/// A graph whose edges are among those of an acyclic graph on the same nodes
/// is acyclic.
pub proof fn lemma_acyclic_fewer_edges(adj: Seq<Seq<usize>>, more: Seq<Seq<usize>>)
    requires
        more.len() == adj.len(),
        forall|u: int, x: usize| 0 <= u < adj.len() && #[trigger] adj[u].contains(x) ==> more[u].contains(x),
        is_acyclic(more),
    ensures
        is_acyclic(adj),
{
    let o = choose|o: Seq<usize>| is_topological_order(more, o);
    assert forall|i: int, j: int|
        0 <= i < o.len() && 0 <= j < o.len() && #[trigger] adj[o[i] as int].contains(#[trigger] o[j]) implies i < j by {
        assert(more[o[i] as int].contains(o[j]));
    }
    assert(is_topological_order(adj, o));
}

/// No entry occurs twice in any list.
pub open spec fn lists_distinct(adj: Seq<Seq<usize>>) -> bool {
    forall|u: int| 0 <= u < adj.len() ==> (#[trigger] adj[u]).no_duplicates()
}

/// In a graph whose lists repeat no entry, a node that some list lacks has
/// an in-degree below the number of nodes.
pub proof fn lemma_in_degree_below_nodes(adj: Seq<Seq<usize>>, v: usize, lhs: int)
    requires
        lists_distinct(adj),
        0 <= lhs < adj.len(),
        !adj[lhs].contains(v),
    ensures
        in_degree_of(adj, v) < adj.len(),
{
    lemma_edges_into_skipping(adj, v, lhs, adj.len() as int);
}

proof fn lemma_edges_into_skipping(adj: Seq<Seq<usize>>, v: usize, lhs: int, k: int)
    requires
        lists_distinct(adj),
        0 <= lhs < adj.len(),
        !adj[lhs].contains(v),
        0 <= k <= adj.len(),
    ensures
        edges_into(adj, all_alive(adj.len()), v, k) + (if lhs < k { 1int } else { 0int }) <= k,
    decreases k,
{
    if k > 0 {
        lemma_edges_into_skipping(adj, v, lhs, k - 1);
        lemma_occ_distinct(adj[k - 1], v);
    }
}

} // verus!
