//! What a plan declares: one node per task declaration, in the order the
//! declarations are written.
use vstd::prelude::*;

use crate::dsl::ast::{GraphV, GroupBlockV, NodeExprV, SchedulingMode, SyntaxTreeV, TaskV};
use crate::dsl::codegen::{
    anon_name, cg_branches, cg_conns, cg_declare, cg_graph, cg_group, cg_link, cg_node, cg_program,
    cg_sequence, cg_track, extend_stmt, graph_size, graphs_size, lemma_graphs_size_split,
    lemma_nodes_size_split, node_size, nodes_size, plan_of, stitch_stmts, CtxV, ListVarV, MergeAtV,
    NodeBoundV, StmtV,
};

verus! {

/// The task declarations of a node, in the order they are written.
pub open spec fn node_tasks(n: NodeExprV) -> Seq<TaskV>
    decreases node_size(n), 1int,
{
    match n {
        NodeExprV::Declaration(t) => seq![t],
        NodeExprV::Group(b) => {
            proof {
                assert(b.graphs.subrange(0, b.graphs.len() as int) =~= b.graphs);
            }
            graphs_tasks(b.graphs, 0)
        },
        _ => Seq::empty(),
    }
}

/// The task declarations of a graph, in the order they are written.
pub open spec fn graph_tasks(g: GraphV) -> Seq<TaskV>
    decreases graph_size(g), 0int,
{
    proof {
        assert(g.conns.subrange(0, g.conns.len() as int) =~= g.conns);
    }
    node_tasks(g.entry) + nodes_tasks(g.conns, 0)
}

/// The task declarations of the nodes of `ns` from the `i`-th on.
pub open spec fn nodes_tasks(ns: Seq<NodeExprV>, i: int) -> Seq<TaskV>
    decreases nodes_size(ns.subrange(i, ns.len() as int)), 2int,
{
    if i < 0 || i >= ns.len() {
        Seq::empty()
    } else {
        proof {
            lemma_nodes_size_split(ns, i);
        }
        node_tasks(ns[i]) + nodes_tasks(ns, i + 1)
    }
}

/// The task declarations of the graphs of `gs` from the `i`-th on.
pub open spec fn graphs_tasks(gs: Seq<GraphV>, i: int) -> Seq<TaskV>
    decreases graphs_size(gs.subrange(i, gs.len() as int)), 2int,
{
    if i < 0 || i >= gs.len() {
        Seq::empty()
    } else {
        proof {
            lemma_graphs_size_split(gs, i);
        }
        graph_tasks(gs[i]) + graphs_tasks(gs, i + 1)
    }
}

/// How many of `ts` have no variable.
pub open spec fn anon_count(ts: Seq<TaskV>) -> nat
    decreases ts.len(),
{
    if ts.len() == 0 {
        0
    } else {
        anon_count(ts.drop_last()) + if ts.last().var is None {
            1nat
        } else {
            0nat
        }
    }
}

/// The variable of a task: its own, or `anon_k` when it has none.
pub open spec fn task_var(t: TaskV, k: nat) -> Seq<char> {
    match t.var {
        Some(v) => v.name,
        Option::None => anon_name(k),
    }
}

/// The declaration of each of `ts` in order, the anonymous ones numbered from `k`.
pub open spec fn decl_stmts(ts: Seq<TaskV>, k: nat) -> Seq<StmtV>
    decreases ts.len(),
{
    if ts.len() == 0 {
        Seq::empty()
    } else {
        decl_stmts(ts.drop_last(), k).push(
            StmtV::AddNode { var: task_var(ts.last(), k + anon_count(ts.drop_last())), typ: ts.last().typ },
        )
    }
}

/// The type keys of the anonymous tasks of `ts`, in order.
pub open spec fn anon_keys(ts: Seq<TaskV>) -> Seq<Seq<char>>
    decreases ts.len(),
{
    if ts.len() == 0 {
        Seq::empty()
    } else if ts.last().var is None {
        anon_keys(ts.drop_last()).push(ts.last().typ.key)
    } else {
        anon_keys(ts.drop_last())
    }
}

/// How many anonymous tasks of `ts` have a type already in `seen` or used by
/// an earlier anonymous task of `ts`.
pub open spec fn repeats(seen: Seq<Seq<char>>, ts: Seq<TaskV>) -> nat
    decreases ts.len(),
{
    if ts.len() == 0 {
        0
    } else {
        let t = ts.last();
        repeats(seen, ts.drop_last()) + if t.var is None && (seen.contains(t.typ.key) || anon_keys(
            ts.drop_last(),
        ).contains(t.typ.key)) {
            1nat
        } else {
            0nat
        }
    }
}

/// How many errors of `errors` report a repeated anonymous type.
pub open spec fn dup_errors(errors: Seq<crate::dsl::codegen::ErrorV>) -> nat
    decreases errors.len(),
{
    if errors.len() == 0 {
        0
    } else {
        dup_errors(errors.drop_last()) + if errors.last() is DuplicateUnboundType {
            1nat
        } else {
            0nat
        }
    }
}

/// Code generation declared the tasks `ts` from `cx` on, to reach `c`.
pub open spec fn declared(cx: CtxV, c: CtxV, ts: Seq<TaskV>) -> bool {
    &&& c.decls == cx.decls + decl_stmts(ts, cx.anons)
    &&& c.anons == cx.anons + anon_count(ts)
    &&& dup_errors(c.errors) == dup_errors(cx.errors) + repeats(cx.unbound, ts)
    &&& forall|k: Seq<char>| #[trigger] c.unbound.contains(k) <==> (cx.unbound.contains(k) || anon_keys(ts).contains(k))
}

proof fn lemma_dup_push(e: Seq<crate::dsl::codegen::ErrorV>, x: crate::dsl::codegen::ErrorV)
    ensures
        dup_errors(e.push(x)) == dup_errors(e) + if x is DuplicateUnboundType { 1nat } else { 0nat },
{
    assert(e.push(x).drop_last() =~= e);
}

proof fn lemma_keys_concat(a: Seq<TaskV>, b: Seq<TaskV>)
    ensures
        forall|k: Seq<char>| #[trigger] anon_keys(a + b).contains(k) <==> (anon_keys(a).contains(k) || anon_keys(b).contains(k)),
    decreases b.len(),
{
    if b.len() == 0 {
        assert(a + b =~= a);
    } else {
        lemma_keys_concat(a, b.drop_last());
        assert((a + b).drop_last() =~= a + b.drop_last());
        assert forall|k: Seq<char>| #[trigger] anon_keys(a + b).contains(k) <==> (anon_keys(a).contains(k)
            || anon_keys(b).contains(k)) by {
            let p = anon_keys(a + b.drop_last());
            let q = anon_keys(b.drop_last());
            if b.last().var is None {
                assert(anon_keys(a + b) == p.push(b.last().typ.key));
                assert(anon_keys(b) == q.push(b.last().typ.key));
                assert(p.push(b.last().typ.key).contains(k) <==> (p.contains(k) || k == b.last().typ.key)) by {
                    if p.push(b.last().typ.key).contains(k) {
                        let j = choose|j: int| 0 <= j < p.len() + 1 && p.push(b.last().typ.key)[j] == k;
                        if j < p.len() {
                            assert(p[j] == k);
                        }
                    }
                    if p.contains(k) {
                        let j = choose|j: int| 0 <= j < p.len() && p[j] == k;
                        assert(p.push(b.last().typ.key)[j] == k);
                    }
                    if k == b.last().typ.key {
                        assert(p.push(b.last().typ.key)[p.len() as int] == k);
                    }
                }
                assert(q.push(b.last().typ.key).contains(k) <==> (q.contains(k) || k == b.last().typ.key)) by {
                    if q.push(b.last().typ.key).contains(k) {
                        let j = choose|j: int| 0 <= j < q.len() + 1 && q.push(b.last().typ.key)[j] == k;
                        if j < q.len() {
                            assert(q[j] == k);
                        }
                    }
                    if q.contains(k) {
                        let j = choose|j: int| 0 <= j < q.len() && q[j] == k;
                        assert(q.push(b.last().typ.key)[j] == k);
                    }
                    if k == b.last().typ.key {
                        assert(q.push(b.last().typ.key)[q.len() as int] == k);
                    }
                }
            }
        }
    }
}

/// `repeats` reads `seen` only through what it contains.
proof fn lemma_repeats_ext(s1: Seq<Seq<char>>, s2: Seq<Seq<char>>, ts: Seq<TaskV>)
    requires
        forall|k: Seq<char>| #[trigger] s1.contains(k) <==> s2.contains(k),
    ensures
        repeats(s1, ts) == repeats(s2, ts),
    decreases ts.len(),
{
    if ts.len() > 0 {
        lemma_repeats_ext(s1, s2, ts.drop_last());
        assert(s1.contains(ts.last().typ.key) <==> s2.contains(ts.last().typ.key));
    }
}

/// Repeats over `a + b`: those of `a`, then those of `b` with the types of `a` seen.
proof fn lemma_repeats_concat(seen: Seq<Seq<char>>, both: Seq<Seq<char>>, a: Seq<TaskV>, b: Seq<TaskV>)
    requires
        forall|k: Seq<char>| #[trigger] both.contains(k) <==> (seen.contains(k) || anon_keys(a).contains(k)),
    ensures
        repeats(seen, a + b) == repeats(seen, a) + repeats(both, b),
    decreases b.len(),
{
    if b.len() == 0 {
        assert(a + b =~= a);
    } else {
        lemma_repeats_concat(seen, both, a, b.drop_last());
        assert((a + b).drop_last() =~= a + b.drop_last());
        assert((a + b).last() == b.last());
        lemma_keys_concat(a, b.drop_last());
        let k = b.last().typ.key;
        assert((seen.contains(k) || anon_keys(a + b.drop_last()).contains(k)) <==> (both.contains(k) || anon_keys(
            b.drop_last(),
        ).contains(k)));
    }
}

proof fn lemma_concat(a: Seq<TaskV>, b: Seq<TaskV>, k: nat)
    ensures
        anon_count(a + b) == anon_count(a) + anon_count(b),
        decl_stmts(a + b, k) == decl_stmts(a, k) + decl_stmts(b, k + anon_count(a)),
    decreases b.len(),
{
    if b.len() == 0 {
        assert(a + b =~= a);
        assert(decl_stmts(a, k) + decl_stmts(b, k + anon_count(a)) =~= decl_stmts(a, k));
    } else {
        lemma_concat(a, b.drop_last(), k);
        assert((a + b).drop_last() =~= a + b.drop_last());
        assert((a + b).last() == b.last());
        assert(decl_stmts(a + b, k) =~= decl_stmts(a, k) + decl_stmts(b, k + anon_count(a)));
    }
}

/// Declaring `a` then `b` declares `a + b`.
proof fn lemma_declared_trans(c0: CtxV, c1: CtxV, c2: CtxV, a: Seq<TaskV>, b: Seq<TaskV>)
    requires
        declared(c0, c1, a),
        declared(c1, c2, b),
    ensures
        declared(c0, c2, a + b),
{
    lemma_concat(a, b, c0.anons);
    assert(c2.decls =~= c0.decls + decl_stmts(a + b, c0.anons));
    lemma_repeats_concat(c0.unbound, c1.unbound, a, b);
    lemma_keys_concat(a, b);
}

proof fn lemma_declared_none(c0: CtxV, c1: CtxV)
    requires
        c1.decls == c0.decls,
        c1.anons == c0.anons,
        dup_errors(c1.errors) == dup_errors(c0.errors),
        c1.unbound == c0.unbound,
    ensures
        declared(c0, c1, Seq::empty()),
{
    assert(c1.decls =~= c0.decls + decl_stmts(Seq::empty(), c0.anons));
    assert(anon_keys(Seq::<TaskV>::empty()) =~= Seq::<Seq<char>>::empty());
}

proof fn lemma_add_links(cx: CtxV, span: crate::dsl::ast::SpanInfo, from: NodeBoundV, to: NodeBoundV, f: Seq<usize>, t: Seq<usize>)
    ensures
        declared(cx, crate::dsl::codegen::cg_add_links(cx, span, from, to, f, t), Seq::empty()),
{
    let c = crate::dsl::codegen::cg_add_links(cx, span, from, to, f, t);
    lemma_dup_push(
        cx.errors,
        crate::dsl::codegen::ErrorV::CircularDependency {
            from: crate::dsl::codegen::from_name(cx, from),
            to: crate::dsl::codegen::to_name(to),
            span,
        },
    );
    lemma_declared_none(cx, c);
}

proof fn lemma_link(cx: CtxV, span: crate::dsl::ast::SpanInfo, from: NodeBoundV, to: NodeBoundV)
    ensures
        declared(cx, cg_link(cx, span, from, to), Seq::empty()),
{
    let (cx1, f) = crate::dsl::codegen::cg_bound_ids_found(cx, from);
    let (cx2, t) = crate::dsl::codegen::cg_bound_ids_found(cx1, to);
    lemma_add_links(cx2, span, from, to, f, t);
    lemma_declared_none(cx, cx2);
    lemma_declared_trans(cx, cx2, cg_link(cx, span, from, to), Seq::empty(), Seq::empty());
    assert(Seq::<TaskV>::empty() + Seq::<TaskV>::empty() =~= Seq::<TaskV>::empty());
}

proof fn lemma_track(cx: CtxV, span: crate::dsl::ast::SpanInfo, from: NodeBoundV, to: NodeBoundV)
    ensures
        cg_track(cx, span, from, to) matches Ok(c) ==> declared(cx, c, Seq::empty()),
{
    if let Some((cx1, f)) = crate::dsl::codegen::cg_bound_ids(cx, from) {
        if let Some((cx2, t)) = crate::dsl::codegen::cg_bound_ids(cx1, to) {
            lemma_add_links(cx2, span, from, to, f, t);
            lemma_declared_none(cx, cx2);
            lemma_declared_trans(cx, cx2, crate::dsl::codegen::cg_add_links(cx2, span, from, to, f, t), Seq::empty(), Seq::empty());
            assert(Seq::<TaskV>::empty() + Seq::<TaskV>::empty() =~= Seq::<TaskV>::empty());
        }
    }
}

proof fn lemma_node(cx: CtxV, n: NodeExprV)
    ensures
        cg_node(cx, n) matches Ok((c, _, _)) ==> declared(cx, c, node_tasks(n)),
    decreases node_size(n), 1int,
{
    match n {
        NodeExprV::Declaration(t) => {
            let c = cg_declare(cx, t).0;
            let one = seq![t];
            assert(one.drop_last() =~= Seq::<TaskV>::empty());
            assert(one.last() == t);
            assert(decl_stmts(Seq::<TaskV>::empty(), cx.anons) =~= Seq::<StmtV>::empty());
            assert(anon_count(Seq::<TaskV>::empty()) == 0);
            assert(decl_stmts(one, cx.anons) =~= seq![StmtV::AddNode { var: task_var(t, cx.anons), typ: t.typ }]);
            let key = t.typ.key;
            let e0 = cx.errors;
            let e1 = if t.var is None && cx.unbound.contains(key) {
                e0.push(crate::dsl::codegen::ErrorV::DuplicateUnboundType { type_key: key, span: t.typ.span })
            } else {
                e0
            };
            lemma_dup_push(e0, crate::dsl::codegen::ErrorV::DuplicateUnboundType { type_key: key, span: t.typ.span });
            let name = cg_declare(cx, t).1;
            lemma_dup_push(e1, crate::dsl::codegen::ErrorV::VariableCollision { var: name.text, span: name.span });
            assert(anon_keys(Seq::<TaskV>::empty()) =~= Seq::<Seq<char>>::empty());
            assert(!anon_keys(Seq::<TaskV>::empty()).contains(key));
            assert(repeats(cx.unbound, Seq::<TaskV>::empty()) == 0);
            let u = cx.unbound;
            assert forall|k: Seq<char>| #[trigger] c.unbound.contains(k) <==> (u.contains(k) || anon_keys(one).contains(k)) by {
                if t.var is None {
                    assert(anon_keys(one) =~= seq![key]);
                    if anon_keys(one).contains(k) {
                        assert(seq![key][0] == k);
                    }
                    if k == key {
                        assert(anon_keys(one)[0] == k);
                    }
                    if !u.contains(key) {
                        assert(c.unbound == u.push(key));
                        if u.push(key).contains(k) {
                            let j = choose|j: int| 0 <= j < u.len() + 1 && u.push(key)[j] == k;
                            if j < u.len() {
                                assert(u[j] == k);
                            }
                        }
                        if u.contains(k) {
                            let j = choose|j: int| 0 <= j < u.len() && u[j] == k;
                            assert(u.push(key)[j] == k);
                        }
                        if k == key {
                            assert(u.push(key)[u.len() as int] == k);
                        }
                    }
                } else {
                    assert(anon_keys(one) =~= Seq::<Seq<char>>::empty());
                }
            }
            assert(repeats(cx.unbound, one) == if t.var is None && cx.unbound.contains(key) { 1nat } else { 0nat });
            assert(c.decls =~= cx.decls + decl_stmts(seq![t], cx.anons));
        },
        NodeExprV::Group(b) => lemma_group(cx, b),
        _ => {
            if let Ok((c, _, _)) = cg_node(cx, n) {
                lemma_declared_none(cx, c);
            }
        },
    }
}

proof fn lemma_group(cx: CtxV, b: GroupBlockV)
    ensures
        cg_group(cx, b) matches Ok((c, _, _)) ==> declared(cx, c, node_tasks(NodeExprV::Group(b))),
    decreases 1 + graphs_size(b.graphs), 0int,
{
    assert(b.graphs.subrange(0, b.graphs.len() as int) =~= b.graphs);
    match b.mode {
        SchedulingMode::Parallel => {
            let id = cx.groups as usize;
            let cx1 = CtxV { groups: cx.groups + 1, links: cx.links.push(StmtV::NewGroup { id }), ..cx };
            lemma_branches(cx1, b.graphs, 0, id);
        },
        SchedulingMode::Sequence => {
            if b.graphs.len() > 0 {
                lemma_graphs_size_split(b.graphs, 0);
                lemma_graph(cx, b.graphs[0]);
                if let Ok((cx1, _, sink)) = cg_graph(cx, b.graphs[0]) {
                    lemma_sequence(cx1, b.graphs, 1, sink);
                    if let Ok((c, _)) = cg_sequence(cx1, b.graphs, 1, sink) {
                        lemma_declared_trans(cx, cx1, c, graph_tasks(b.graphs[0]), graphs_tasks(b.graphs, 1));
                    }
                }
            }
        },
    }
}

proof fn lemma_branches(cx: CtxV, gs: Seq<GraphV>, i: int, id: usize)
    requires
        0 <= i <= gs.len(),
    ensures
        cg_branches(cx, gs, i, id) matches Ok(c) ==> declared(cx, c, graphs_tasks(gs, i)),
    decreases graphs_size(gs.subrange(i, gs.len() as int)), 1int,
{
    if i < gs.len() {
        lemma_graphs_size_split(gs, i);
        lemma_graph(cx, gs[i]);
        if let Ok((cx1, source, sink)) = cg_graph(cx, gs[i]) {
            let span = gs[i].span_info;
            let src = NodeBoundV::ParallelGroup(ListVarV::GroupSource(id));
            let snk = NodeBoundV::ParallelGroup(ListVarV::GroupSink(id));
            let cx2 = cg_link(cx1, span, src, source);
            let cx3 = cg_link(cx2, span, sink, snk);
            lemma_link(cx1, span, src, source);
            lemma_link(cx2, span, sink, snk);
            lemma_declared_trans(cx1, cx2, cx3, Seq::empty(), Seq::empty());
            assert(Seq::<TaskV>::empty() + Seq::<TaskV>::empty() =~= Seq::<TaskV>::empty());
            lemma_declared_none(cx3, CtxV {
                links: cx3.links.push(extend_stmt(ListVarV::GroupSource(id), source, true)).push(
                    extend_stmt(ListVarV::GroupSink(id), sink, false),
                ),
                ..cx3
            });
            lemma_declared_trans(cx1, cx3, CtxV {
                links: cx3.links.push(extend_stmt(ListVarV::GroupSource(id), source, true)).push(
                    extend_stmt(ListVarV::GroupSink(id), sink, false),
                ),
                ..cx3
            }, Seq::empty(), Seq::empty());
            let cx4 = CtxV {
                links: cx3.links.push(extend_stmt(ListVarV::GroupSource(id), source, true)).push(
                    extend_stmt(ListVarV::GroupSink(id), sink, false),
                ),
                ..cx3
            };
            lemma_branches(cx4, gs, i + 1, id);
            if let Ok(c) = cg_branches(cx4, gs, i + 1, id) {
                lemma_declared_trans(cx, cx1, cx4, graph_tasks(gs[i]), Seq::empty());
                assert(graph_tasks(gs[i]) + Seq::<TaskV>::empty() =~= graph_tasks(gs[i]));
                lemma_declared_trans(cx, cx4, c, graph_tasks(gs[i]), graphs_tasks(gs, i + 1));
            }
        }
    } else {
        lemma_declared_none(cx, cx);
    }
}

proof fn lemma_sequence(cx: CtxV, gs: Seq<GraphV>, i: int, prev: NodeBoundV)
    requires
        0 <= i <= gs.len(),
    ensures
        cg_sequence(cx, gs, i, prev) matches Ok((c, _)) ==> declared(cx, c, graphs_tasks(gs, i)),
    decreases graphs_size(gs.subrange(i, gs.len() as int)), 1int,
{
    if i < gs.len() {
        lemma_graphs_size_split(gs, i);
        lemma_graph(cx, gs[i]);
        if let Ok((cx1, source, sink)) = cg_graph(cx, gs[i]) {
            lemma_track(cx1, gs[i].span_info, prev, source);
            if let Ok(cx2) = cg_track(cx1, gs[i].span_info, prev, source) {
                let cx3 = CtxV { links: cx2.links + stitch_stmts(prev, source), ..cx2 };
                lemma_declared_none(cx2, cx3);
                lemma_declared_trans(cx1, cx2, cx3, Seq::empty(), Seq::empty());
                assert(Seq::<TaskV>::empty() + Seq::<TaskV>::empty() =~= Seq::<TaskV>::empty());
                lemma_sequence(cx3, gs, i + 1, sink);
                if let Ok((c, _)) = cg_sequence(cx3, gs, i + 1, sink) {
                    lemma_declared_trans(cx, cx1, cx3, graph_tasks(gs[i]), Seq::empty());
                    assert(graph_tasks(gs[i]) + Seq::<TaskV>::empty() =~= graph_tasks(gs[i]));
                    lemma_declared_trans(cx, cx3, c, graph_tasks(gs[i]), graphs_tasks(gs, i + 1));
                }
            }
        }
    } else {
        lemma_declared_none(cx, cx);
    }
}

proof fn lemma_graph(cx: CtxV, g: GraphV)
    ensures
        cg_graph(cx, g) matches Ok((c, _, _)) ==> declared(cx, c, graph_tasks(g)),
    decreases graph_size(g), 0int,
{
    assert(g.conns.subrange(0, g.conns.len() as int) =~= g.conns);
    lemma_node(cx, g.entry);
    if let Ok((cx1, source, sink)) = cg_node(cx, g.entry) {
        let cx2 = match source {
            NodeBoundV::Graph(sub) => CtxV {
                links: cx1.links.push(StmtV::Merge { sub: sub.text, at: MergeAtV::Nodes(Seq::empty()) }),
                ..cx1
            },
            _ => cx1,
        };
        lemma_conns(cx2, g.conns, 0, sink);
        if let Ok((c, _)) = cg_conns(cx2, g.conns, 0, sink) {
            lemma_declared_trans(cx, cx2, c, node_tasks(g.entry), nodes_tasks(g.conns, 0));
        }
    }
}

proof fn lemma_conns(cx: CtxV, ns: Seq<NodeExprV>, i: int, prev: NodeBoundV)
    requires
        0 <= i <= ns.len(),
    ensures
        cg_conns(cx, ns, i, prev) matches Ok((c, _)) ==> declared(cx, c, nodes_tasks(ns, i)),
    decreases nodes_size(ns.subrange(i, ns.len() as int)), 2int,
{
    if i < ns.len() {
        lemma_nodes_size_split(ns, i);
        lemma_node(cx, ns[i]);
        if let Ok((cx1, source, sink)) = cg_node(cx, ns[i]) {
            lemma_track(cx1, crate::dsl::codegen::node_span(ns[i]), prev, source);
            if let Ok(cx2) = cg_track(cx1, crate::dsl::codegen::node_span(ns[i]), prev, source) {
                let cx3 = CtxV { links: cx2.links + stitch_stmts(prev, source), ..cx2 };
                lemma_declared_none(cx2, cx3);
                lemma_declared_trans(cx1, cx2, cx3, Seq::empty(), Seq::empty());
                assert(Seq::<TaskV>::empty() + Seq::<TaskV>::empty() =~= Seq::<TaskV>::empty());
                lemma_conns(cx3, ns, i + 1, sink);
                if let Ok((c, _)) = cg_conns(cx3, ns, i + 1, sink) {
                    lemma_declared_trans(cx, cx1, cx3, node_tasks(ns[i]), Seq::empty());
                    assert(node_tasks(ns[i]) + Seq::<TaskV>::empty() =~= node_tasks(ns[i]));
                    lemma_declared_trans(cx, cx3, c, node_tasks(ns[i]), nodes_tasks(ns, i + 1));
                }
            }
        }
    } else {
        lemma_declared_none(cx, cx);
    }
}

proof fn lemma_program(cx: CtxV, gs: Seq<GraphV>, i: int)
    requires
        0 <= i <= gs.len(),
    ensures
        cg_program(cx, gs, i) matches Ok(c) ==> declared(cx, c, graphs_tasks(gs, i)),
    decreases gs.len() - i,
{
    if i < gs.len() {
        lemma_graphs_size_split(gs, i);
        lemma_graph(cx, gs[i]);
        if let Ok((cx1, _, _)) = cg_graph(cx, gs[i]) {
            lemma_program(cx1, gs, i + 1);
            if let Ok(c) = cg_program(cx1, gs, i + 1) {
                lemma_declared_trans(cx, cx1, c, graph_tasks(gs[i]), graphs_tasks(gs, i + 1));
            }
        }
    } else {
        lemma_declared_none(cx, cx);
    }
}

/// Every task declaration of a program is declared once, in the order it is
/// written: with its own variable or, when it has none, as `anon_k` for the
/// `k`-th anonymous declaration, counted from zero. And a repeated anonymous
/// type is reported once for each anonymous declaration whose type an earlier
/// anonymous declaration already has.
pub proof fn law_declarations_in_order(ast: SyntaxTreeV)
    ensures
        plan_of(ast) matches Ok(p) ==> p.decls == decl_stmts(graphs_tasks(ast.graphs, 0), 0),
        plan_of(ast) matches Ok(p) ==> dup_errors(p.errors) == repeats(Seq::empty(), graphs_tasks(ast.graphs, 0)),
{
    let cx = crate::dsl::codegen::empty_ctx();
    lemma_program(cx, ast.graphs, 0);
    if let Ok(c) = cg_program(cx, ast.graphs, 0) {
        assert(c.decls =~= decl_stmts(graphs_tasks(ast.graphs, 0), 0));
        assert(dup_errors(cx.errors) == 0);
    }
}

} // verus!
