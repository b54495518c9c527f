//! Which way the statements of a plan point: a link `up -> down` adds edges
//! only from the exit points of `up` to the entry points of `down`, each pair
//! of them, and a parallel group's lists collect the entry and exit points of
//! its branches.
use vstd::prelude::*;

use crate::dsl::codegen::{
    edge_stmts, extend_stmt, names_text, stitch_stmts, ListVarV, MergeAtV, NameV, NodeBoundV, StmtV,
};

verus! {

/// Nodes of the built graph as the program names them: some variables, or the
/// ids held in a list.
pub enum Ends {
    Vars(Seq<Seq<char>>),
    List(ListVarV),
}

/// The entry points of a piece of graph: where edges into it land.
pub open spec fn entry_of(b: NodeBoundV) -> Ends {
    match b {
        NodeBoundV::Literal(ns) => Ends::Vars(names_text(ns)),
        NodeBoundV::Graph(g) => Ends::List(ListVarV::GraphSource(g.text)),
        NodeBoundV::ParallelGroup(l) => Ends::List(l),
    }
}

/// The exit points of a piece of graph: where edges out of it start.
pub open spec fn exit_of(b: NodeBoundV) -> Ends {
    match b {
        NodeBoundV::Literal(ns) => Ends::Vars(names_text(ns)),
        NodeBoundV::Graph(g) => Ends::List(ListVarV::GraphSink(g.text)),
        NodeBoundV::ParallelGroup(l) => Ends::List(l),
    }
}

/// The edges a statement adds, from every node of the first ends to every node
/// of the second; none for a statement that adds no edge. Merging an embedded
/// graph at some nodes adds edges from them to the graph's sources.
pub open spec fn stmt_edges(st: StmtV) -> Option<(Ends, Ends)> {
    match st {
        StmtV::AddEdge { from, to } => Some((Ends::Vars(seq![from]), Ends::Vars(seq![to]))),
        StmtV::Merge { sub, at } => Some(
            (
                match at {
                    MergeAtV::Nodes(ids) => Ends::Vars(ids),
                    MergeAtV::Moved(l) => Ends::List(l),
                    MergeAtV::Cloned(l) => Ends::List(l),
                },
                Ends::List(ListVarV::GraphSource(sub)),
            ),
        ),
        StmtV::EdgesFromList { from, to } => Some((Ends::List(from), Ends::Vars(seq![to]))),
        StmtV::EdgesToList { from, to } => Some((Ends::Vars(seq![from]), Ends::List(to))),
        StmtV::EdgesBetweenLists { from, to } => Some((Ends::List(from), Ends::List(to))),
        _ => Option::None,
    }
}

/// The list a statement extends, and with what.
pub open spec fn stmt_extends(st: StmtV) -> Option<(ListVarV, Ends)> {
    match st {
        StmtV::ExtendNodes { list, ids } => Some((list, Ends::Vars(ids))),
        StmtV::ExtendList { list, with } => Some((list, Ends::List(with))),
        _ => Option::None,
    }
}

/// Every node `part` names is one that `whole` names.
pub open spec fn within(part: Ends, whole: Ends) -> bool {
    match (part, whole) {
        (Ends::Vars(a), Ends::Vars(b)) => forall|i: int| 0 <= i < a.len() ==> b.contains(#[trigger] a[i]),
        (Ends::List(l), Ends::List(m)) => l == m,
        _ => false,
    }
}

/// `p` is one point of `e`: one of its variables, or its whole list.
pub open spec fn point_of(p: Ends, e: Ends) -> bool {
    match (p, e) {
        (Ends::Vars(a), Ends::Vars(b)) => a.len() == 1 && b.contains(a[0]),
        (Ends::List(l), Ends::List(m)) => l == m,
        _ => false,
    }
}

/// Statement `st` adds an edge from point `p` to point `q`.
pub open spec fn links_points(st: StmtV, p: Ends, q: Ends) -> bool {
    match stmt_edges(st) {
        Some((f, t)) => within(p, f) && within(q, t),
        Option::None => false,
    }
}

/// Statement `st` adds an edge, and only from exit points of `up` to entry
/// points of `down`.
pub open spec fn points_downstream(st: StmtV, up: NodeBoundV, down: NodeBoundV) -> bool {
    match stmt_edges(st) {
        Some((f, t)) => within(f, exit_of(up)) && within(t, entry_of(down)),
        Option::None => false,
    }
}

/// `st` is a plain edge between a name of `from` and a name of `to`.
spec fn edge_between(st: StmtV, from: Seq<Seq<char>>, to: Seq<Seq<char>>) -> bool {
    match st {
        StmtV::AddEdge { from: f, to: t } => from.contains(f) && to.contains(t),
        _ => false,
    }
}

proof fn lemma_text_in(ns: Seq<NameV>, i: int)
    requires
        0 <= i < ns.len(),
    ensures
        names_text(ns).contains(ns[i].text),
{
    assert(names_text(ns)[i] == ns[i].text);
}

proof fn lemma_edge_stmts_within(from: Seq<NameV>, to: Seq<NameV>)
    ensures
        forall|i: int|
            0 <= i < edge_stmts(from, to).len() ==> edge_between(
                #[trigger] edge_stmts(from, to)[i],
                names_text(from),
                names_text(to),
            ),
    decreases from.len(),
{
    if from.len() > 0 {
        let p = from.drop_last();
        lemma_edge_stmts_within(p, to);
        let head = edge_stmts(p, to);
        let last = from.last().text;
        let tail = to.map_values(|t: NameV| StmtV::AddEdge { from: last, to: t.text });
        let all = edge_stmts(from, to);
        assert(all == head + tail);
        lemma_text_in(from, from.len() - 1);
        assert forall|i: int| 0 <= i < all.len() implies edge_between(#[trigger] all[i], names_text(from), names_text(to)) by {
            if i < head.len() {
                assert(all[i] == head[i]);
                assert(edge_between(head[i], names_text(p), names_text(to)));
                if let StmtV::AddEdge { from: f, to: t } = head[i] {
                    let j = choose|j: int| 0 <= j < names_text(p).len() && names_text(p)[j] == f;
                    assert(names_text(from)[j] == f);
                }
            } else {
                let k = i - head.len();
                assert(all[i] == tail[k]);
                lemma_text_in(to, k);
            }
        }
    }
}

proof fn lemma_edge_stmts_cover(from: Seq<NameV>, to: Seq<NameV>, a: int, b: int)
    requires
        0 <= a < from.len(),
        0 <= b < to.len(),
    ensures
        exists|i: int|
            0 <= i < edge_stmts(from, to).len() && #[trigger] edge_stmts(from, to)[i] == (StmtV::AddEdge {
                from: from[a].text,
                to: to[b].text,
            }),
    decreases from.len(),
{
    let p = from.drop_last();
    let head = edge_stmts(p, to);
    let last = from.last().text;
    let tail = to.map_values(|t: NameV| StmtV::AddEdge { from: last, to: t.text });
    let all = edge_stmts(from, to);
    assert(all == head + tail);
    if a < p.len() {
        lemma_edge_stmts_cover(p, to, a, b);
        assert(p[a] == from[a]);
        let i = choose|i: int|
            0 <= i < head.len() && #[trigger] head[i] == (StmtV::AddEdge { from: p[a].text, to: to[b].text });
        assert(all[i] == head[i]);
    } else {
        assert(all[head.len() + b] == tail[b]);
    }
}

/// A link `up -> down` adds edges only from exit points of `up` to entry
/// points of `down`, and from each exit point to each entry point.
pub proof fn law_links_point_downstream(up: NodeBoundV, down: NodeBoundV)
    ensures
        forall|i: int|
            0 <= i < stitch_stmts(up, down).len() ==> points_downstream(#[trigger] stitch_stmts(up, down)[i], up, down),
        forall|p: Ends, q: Ends|
            point_of(p, exit_of(up)) && point_of(q, entry_of(down)) ==> exists|i: int|
                0 <= i < stitch_stmts(up, down).len() && links_points(#[trigger] stitch_stmts(up, down)[i], p, q),
{
    let s = stitch_stmts(up, down);
    match (up, down) {
        (NodeBoundV::Literal(from), NodeBoundV::Literal(to)) => {
            lemma_edge_stmts_within(from, to);
            assert forall|i: int| 0 <= i < s.len() implies points_downstream(#[trigger] s[i], up, down) by {
                if let StmtV::AddEdge { from: f, to: t } = s[i] {
                    assert(seq![f][0] == f);
                    assert(seq![t][0] == t);
                }
            }
            assert forall|p: Ends, q: Ends| point_of(p, exit_of(up)) && point_of(q, entry_of(down)) implies exists|i: int|
                0 <= i < s.len() && links_points(#[trigger] s[i], p, q) by {
                let (pa, qa) = (p->Vars_0, q->Vars_0);
                let a = choose|a: int| 0 <= a < names_text(from).len() && names_text(from)[a] == pa[0];
                let b = choose|b: int| 0 <= b < names_text(to).len() && names_text(to)[b] == qa[0];
                lemma_edge_stmts_cover(from, to, a, b);
                let i = choose|i: int|
                    0 <= i < s.len() && #[trigger] s[i] == (StmtV::AddEdge { from: from[a].text, to: to[b].text });
                assert(seq![from[a].text][0] == pa[0]);
                assert(seq![to[b].text][0] == qa[0]);
                assert(links_points(s[i], p, q));
            }
        },
        (NodeBoundV::Literal(from), NodeBoundV::Graph(g)) => {
            assert forall|i: int| 0 <= i < names_text(from).len() implies names_text(from).contains(
                #[trigger] names_text(from)[i],
            ) by {}
            assert forall|p: Ends, q: Ends| point_of(p, exit_of(up)) && point_of(q, entry_of(down)) implies exists|i: int|
                0 <= i < s.len() && links_points(#[trigger] s[i], p, q) by {
                assert(links_points(s[0], p, q));
            }
        },
        (NodeBoundV::Graph(f), NodeBoundV::Literal(to)) => {
            assert forall|i: int| 0 <= i < s.len() implies points_downstream(#[trigger] s[i], up, down) by {
                lemma_text_in(to, i);
            }
            assert forall|p: Ends, q: Ends| point_of(p, exit_of(up)) && point_of(q, entry_of(down)) implies exists|i: int|
                0 <= i < s.len() && links_points(#[trigger] s[i], p, q) by {
                let qa = q->Vars_0;
                let b = choose|b: int| 0 <= b < names_text(to).len() && names_text(to)[b] == qa[0];
                assert(seq![to[b].text][0] == qa[0]);
                assert(links_points(s[b], p, q));
            }
        },
        (NodeBoundV::ParallelGroup(f), NodeBoundV::Literal(to)) => {
            assert forall|i: int| 0 <= i < s.len() implies points_downstream(#[trigger] s[i], up, down) by {
                lemma_text_in(to, i);
            }
            assert forall|p: Ends, q: Ends| point_of(p, exit_of(up)) && point_of(q, entry_of(down)) implies exists|i: int|
                0 <= i < s.len() && links_points(#[trigger] s[i], p, q) by {
                let qa = q->Vars_0;
                let b = choose|b: int| 0 <= b < names_text(to).len() && names_text(to)[b] == qa[0];
                assert(seq![to[b].text][0] == qa[0]);
                assert(links_points(s[b], p, q));
            }
        },
        (NodeBoundV::Literal(from), NodeBoundV::ParallelGroup(t)) => {
            assert forall|i: int| 0 <= i < s.len() implies points_downstream(#[trigger] s[i], up, down) by {
                lemma_text_in(from, i);
            }
            assert forall|p: Ends, q: Ends| point_of(p, exit_of(up)) && point_of(q, entry_of(down)) implies exists|i: int|
                0 <= i < s.len() && links_points(#[trigger] s[i], p, q) by {
                let pa = p->Vars_0;
                let a = choose|a: int| 0 <= a < names_text(from).len() && names_text(from)[a] == pa[0];
                assert(seq![from[a].text][0] == pa[0]);
                assert(links_points(s[a], p, q));
            }
        },
        _ => {
            assert forall|p: Ends, q: Ends| point_of(p, exit_of(up)) && point_of(q, entry_of(down)) implies exists|i: int|
                0 <= i < s.len() && links_points(#[trigger] s[i], p, q) by {
                assert(links_points(s[0], p, q));
            }
        },
    }
}

/// A parallel group's source list is extended with the entry points of each
/// branch, its sink list with their exit points.
pub proof fn law_group_lists_collect_ends(list: ListVarV, b: NodeBoundV, source: bool)
    ensures
        stmt_extends(extend_stmt(list, b, source)) == Some(
            (
                list,
                if source {
                    entry_of(b)
                } else {
                    exit_of(b)
                },
            ),
        ),
{
}

} // verus!
