//! What code generation promises about circular dependencies: a plan reports
//! one exactly when the links of the program form a cycle.
use vstd::prelude::*;

use crate::adjacency::{is_acyclic, is_topological_order, lemma_acyclic_fewer_edges, lemma_acyclic_push_empty};
use crate::dsl::ast::{GraphV, GroupBlockV, NodeExprV, SchedulingMode, SpanInfo, SyntaxTreeV, TaskV};
use crate::dsl::codegen::{
    cg_bound_ids, cg_branches, cg_conns, cg_declare, cg_graph, cg_graph_as_node, cg_group, cg_node,
    cg_program, cg_sequence, cg_track, cg_add_links, cg_bound_ids_found, empty_ctx, graph_size, graphs_size, lemma_graphs_size_split,
    lemma_lookup_all, lemma_lookup_below, lemma_nodes_size_split, node_size, nodes_size, plan_of,
    with_edge, with_edges, with_edges_from, CtxV, ErrorV, NodeBoundV,
};

verus! {

/// Some error of `errors` reports a circular dependency.
pub open spec fn has_cycle_error(errors: Seq<ErrorV>) -> bool {
    exists|i: int| 0 <= i < errors.len() && (#[trigger] errors[i]) is CircularDependency
}

/// A circular dependency has been reported exactly when the compile-time graph
/// has a cycle, and every name's node is in that graph.
pub open spec fn cycles_flagged(cx: CtxV) -> bool {
    &&& has_cycle_error(cx.errors) <==> !is_acyclic(cx.adj)
    &&& forall|i: int| 0 <= i < cx.ids.len() ==> (#[trigger] cx.ids[i]).1 < cx.adj.len()
}

/// The compile-time graph of a program: one node per variable, per embedded
/// graph and per source or sink list of a parallel group; an edge per link
/// between them, and from a group's source list to the entry of each branch
/// and from each branch's exit to the group's sink list.
pub open spec fn link_graph(ast: SyntaxTreeV) -> Seq<Seq<usize>> {
    match cg_program(empty_ctx(), ast.graphs, 0) {
        Ok(cx) => cx.adj,
        Err(_) => Seq::empty(),
    }
}

/// The lists of `more` hold those of `adj`, node for node.
pub open spec fn includes(adj: Seq<Seq<usize>>, more: Seq<Seq<usize>>) -> bool {
    &&& more.len() == adj.len()
    &&& forall|u: int, x: usize| 0 <= u < adj.len() && #[trigger] adj[u].contains(x) ==> more[u].contains(x)
}

proof fn lemma_errors_push(e: Seq<ErrorV>, x: ErrorV)
    ensures
        has_cycle_error(e.push(x)) == (has_cycle_error(e) || x is CircularDependency),
{
    let f = e.push(x);
    if has_cycle_error(e) {
        let i = choose|i: int| 0 <= i < e.len() && (#[trigger] e[i]) is CircularDependency;
        assert(f[i] == e[i]);
    }
    if x is CircularDependency {
        assert(f[e.len() as int] == x);
    }
    if has_cycle_error(f) {
        let i = choose|i: int| 0 <= i < f.len() && (#[trigger] f[i]) is CircularDependency;
        if i < e.len() {
            assert(f[i] == e[i]);
        }
    }
}

proof fn lemma_with_edge_includes(adj: Seq<Seq<usize>>, f: usize, t: usize)
    requires
        f < adj.len(),
    ensures
        includes(adj, with_edge(adj, f, t)),
{
    let m = with_edge(adj, f, t);
    assert forall|u: int, x: usize| 0 <= u < adj.len() && #[trigger] adj[u].contains(x) implies m[u].contains(x) by {
        if u == f && !adj[u].contains(t) {
            let j = choose|j: int| 0 <= j < adj[u].len() && adj[u][j] == x;
            assert(m[u] == adj[u].push(t));
            assert(m[u][j] == x);
        }
    }
}

proof fn lemma_with_edges_from_includes(adj: Seq<Seq<usize>>, f: usize, to: Seq<usize>)
    requires
        f < adj.len(),
    ensures
        includes(adj, with_edges_from(adj, f, to)),
    decreases to.len(),
{
    if to.len() > 0 {
        lemma_with_edges_from_includes(adj, f, to.drop_last());
        let mid = with_edges_from(adj, f, to.drop_last());
        lemma_with_edge_includes(mid, f, to.last());
    }
}

proof fn lemma_with_edges_includes(adj: Seq<Seq<usize>>, from: Seq<usize>, to: Seq<usize>)
    requires
        forall|i: int| 0 <= i < from.len() ==> #[trigger] from[i] < adj.len(),
    ensures
        includes(adj, with_edges(adj, from, to)),
    decreases from.len(),
{
    if from.len() > 0 {
        let p = from.drop_last();
        assert forall|i: int| 0 <= i < p.len() implies #[trigger] p[i] < adj.len() by {
            assert(p[i] == from[i]);
        }
        lemma_with_edges_includes(adj, p, to);
        let mid = with_edges(adj, p, to);
        assert(from[from.len() - 1] < adj.len());
        lemma_with_edges_from_includes(mid, from.last(), to);
    }
}

proof fn lemma_declare(cx: CtxV, t: TaskV)
    requires
        cycles_flagged(cx),
        cx.adj.len() < usize::MAX,
    ensures
        cycles_flagged(cg_declare(cx, t).0),
        cg_declare(cx, t).0.adj.len() == cx.adj.len() + 1,
{
    let key = t.typ.key;
    lemma_errors_push(cx.errors, ErrorV::DuplicateUnboundType { type_key: key, span: t.typ.span });
    let (c, name) = cg_declare(cx, t);
    lemma_acyclic_push_empty(cx.adj);
    let before = c.errors.drop_last();
    if c.errors.len() > 0 {
        lemma_errors_push(before, c.errors.last());
        assert(before.push(c.errors.last()) =~= c.errors);
    }
    lemma_errors_push(cx.errors, ErrorV::VariableCollision { var: name.text, span: name.span });
    let cx1_errors = if t.var is None && cx.unbound.contains(key) {
        cx.errors.push(ErrorV::DuplicateUnboundType { type_key: key, span: t.typ.span })
    } else {
        cx.errors
    };
    lemma_errors_push(cx1_errors, ErrorV::VariableCollision { var: name.text, span: name.span });
    assert(has_cycle_error(c.errors) == has_cycle_error(cx.errors));
}

proof fn lemma_graph_as_node(cx: CtxV, text: Seq<char>)
    requires
        cycles_flagged(cx),
        cx.adj.len() < usize::MAX,
    ensures
        cycles_flagged(cg_graph_as_node(cx, text).0),
        cg_graph_as_node(cx, text).1 < cg_graph_as_node(cx, text).0.adj.len(),
        cx.adj.len() <= cg_graph_as_node(cx, text).0.adj.len() <= cx.adj.len() + 1,
{
    lemma_lookup_below(cx.ids, text, cx.adj.len());
    lemma_acyclic_push_empty(cx.adj);
}

proof fn lemma_bound_ids(cx: CtxV, b: NodeBoundV)
    requires
        cycles_flagged(cx),
        cx.adj.len() < usize::MAX,
    ensures
        cg_bound_ids(cx, b) matches Some((c, s)) ==> cycles_flagged(c) && cx.adj.len() <= c.adj.len() <= cx.adj.len() + 1
            && forall|i: int| 0 <= i < s.len() ==> #[trigger] s[i] < c.adj.len(),
{
    match b {
        NodeBoundV::Literal(names) => {
            lemma_lookup_all(cx.ids, names);
            if let Some((c, s)) = cg_bound_ids(cx, b) {
                assert forall|i: int| 0 <= i < s.len() implies #[trigger] s[i] < c.adj.len() by {
                    lemma_lookup_below(cx.ids, names[i].text, cx.adj.len());
                    assert(Some(s[i]) == crate::dsl::codegen::lookup(cx.ids, names[i].text));
                }
            }
        },
        NodeBoundV::Graph(g) => lemma_graph_as_node(cx, g.text),
        NodeBoundV::ParallelGroup(l) => lemma_graph_as_node(cx, crate::dsl::codegen::list_name(l)),
    }
}

proof fn lemma_add_links(cx: CtxV, span: SpanInfo, from: NodeBoundV, to: NodeBoundV, f: Seq<usize>, t: Seq<usize>)
    requires
        cycles_flagged(cx),
        forall|i: int| 0 <= i < f.len() ==> #[trigger] f[i] < cx.adj.len(),
    ensures
        cycles_flagged(cg_add_links(cx, span, from, to, f, t)),
        cg_add_links(cx, span, from, to, f, t).adj.len() == cx.adj.len(),
{
    lemma_with_edges_includes(cx.adj, f, t);
    let adj = with_edges(cx.adj, f, t);
    if is_acyclic(adj) {
        lemma_acyclic_fewer_edges(cx.adj, adj);
    } else {
        lemma_errors_push(
            cx.errors,
            ErrorV::CircularDependency {
                from: crate::dsl::codegen::from_name(cx, from),
                to: crate::dsl::codegen::to_name(to),
                span,
            },
        );
    }
}

proof fn lemma_track(cx: CtxV, span: SpanInfo, from: NodeBoundV, to: NodeBoundV)
    requires
        cycles_flagged(cx),
        cx.adj.len() + 3 <= usize::MAX,
    ensures
        cg_track(cx, span, from, to) matches Ok(c) ==> cycles_flagged(c) && c.adj.len() <= cx.adj.len() + 2,
{
    lemma_bound_ids(cx, from);
    if let Some((cx1, f)) = cg_bound_ids(cx, from) {
        lemma_bound_ids(cx1, to);
        if let Some((cx2, t)) = cg_bound_ids(cx1, to) {
            lemma_add_links(cx2, span, from, to, f, t);
        }
    }
}

proof fn lemma_bound_ids_found(cx: CtxV, b: NodeBoundV)
    requires
        cycles_flagged(cx),
        cx.adj.len() < usize::MAX,
    ensures
        cycles_flagged(cg_bound_ids_found(cx, b).0),
        cx.adj.len() <= cg_bound_ids_found(cx, b).0.adj.len() <= cx.adj.len() + 1,
        forall|i: int|
            0 <= i < cg_bound_ids_found(cx, b).1.len() ==> #[trigger] cg_bound_ids_found(cx, b).1[i]
                < cg_bound_ids_found(cx, b).0.adj.len(),
{
    match b {
        NodeBoundV::Literal(names) => lemma_lookup_some_below(cx.ids, names, cx.adj.len()),
        NodeBoundV::Graph(g) => lemma_graph_as_node(cx, g.text),
        NodeBoundV::ParallelGroup(l) => lemma_graph_as_node(cx, crate::dsl::codegen::list_name(l)),
    }
}

proof fn lemma_lookup_some_below(ids: Seq<(Seq<char>, usize)>, names: Seq<crate::dsl::codegen::NameV>, n: nat)
    requires
        forall|i: int| 0 <= i < ids.len() ==> (#[trigger] ids[i]).1 < n,
    ensures
        forall|i: int|
            0 <= i < crate::dsl::codegen::lookup_some(ids, names).len() ==> #[trigger] crate::dsl::codegen::lookup_some(
                ids,
                names,
            )[i] < n,
    decreases names.len(),
{
    if names.len() > 0 {
        let prev = crate::dsl::codegen::lookup_some(ids, names.drop_last());
        lemma_lookup_some_below(ids, names.drop_last(), n);
        lemma_lookup_below(ids, names.last().text, n);
        let all = crate::dsl::codegen::lookup_some(ids, names);
        assert forall|i: int| 0 <= i < all.len() implies #[trigger] all[i] < n by {
            if i < prev.len() {
                assert(all[i] == prev[i]);
            }
        }
    }
}

proof fn lemma_link(cx: CtxV, span: SpanInfo, from: NodeBoundV, to: NodeBoundV)
    requires
        cycles_flagged(cx),
        cx.adj.len() + 3 <= usize::MAX,
    ensures
        cycles_flagged(crate::dsl::codegen::cg_link(cx, span, from, to)),
        crate::dsl::codegen::cg_link(cx, span, from, to).adj.len() <= cx.adj.len() + 2,
{
    lemma_bound_ids_found(cx, from);
    let (cx1, f) = cg_bound_ids_found(cx, from);
    lemma_bound_ids_found(cx1, to);
    let (cx2, t) = cg_bound_ids_found(cx1, to);
    lemma_add_links(cx2, span, from, to, f, t);
}

proof fn lemma_node(cx: CtxV, n: NodeExprV)
    requires
        cycles_flagged(cx),
        cx.adj.len() + 5 * node_size(n) <= usize::MAX,
    ensures
        cg_node(cx, n) matches Ok((c, _, _)) ==> cycles_flagged(c) && c.adj.len() + 3 <= cx.adj.len() + 5 * node_size(n),
    decreases node_size(n), 1int,
{
    match n {
        NodeExprV::Declaration(t) => lemma_declare(cx, t),
        NodeExprV::Group(b) => lemma_group(cx, b),
        _ => {},
    }
}

proof fn lemma_group(cx: CtxV, b: GroupBlockV)
    requires
        cycles_flagged(cx),
        cx.adj.len() + 5 * (1 + graphs_size(b.graphs)) <= usize::MAX,
    ensures
        cg_group(cx, b) matches Ok((c, _, _)) ==> cycles_flagged(c) && c.adj.len() + 3 <= cx.adj.len() + 5 * (1
            + graphs_size(b.graphs)),
    decreases 1 + graphs_size(b.graphs), 0int,
{
    assert(b.graphs.subrange(0, b.graphs.len() as int) =~= b.graphs);
    match b.mode {
        SchedulingMode::Parallel => {
            let id = cx.groups as usize;
            let cx1 = CtxV {
                groups: cx.groups + 1,
                links: cx.links.push(crate::dsl::codegen::StmtV::NewGroup { id }),
                ..cx
            };
            lemma_branches(cx1, b.graphs, 0, id);
        },
        SchedulingMode::Sequence => {
            if b.graphs.len() > 0 {
                lemma_graphs_size_split(b.graphs, 0);
                lemma_graph(cx, b.graphs[0]);
                if let Ok((cx1, _, sink)) = cg_graph(cx, b.graphs[0]) {
                    lemma_sequence(cx1, b.graphs, 1, sink);
                }
            }
        },
    }
}

proof fn lemma_branches(cx: CtxV, gs: Seq<GraphV>, i: int, id: usize)
    requires
        cycles_flagged(cx),
        0 <= i <= gs.len(),
        cx.adj.len() + 5 * graphs_size(gs.subrange(i, gs.len() as int)) <= usize::MAX,
    ensures
        cg_branches(cx, gs, i, id) matches Ok(c) ==> cycles_flagged(c) && c.adj.len() <= cx.adj.len() + 5
            * graphs_size(gs.subrange(i, gs.len() as int)),
    decreases graphs_size(gs.subrange(i, gs.len() as int)), 1int,
{
    if i < gs.len() {
        lemma_graphs_size_split(gs, i);
        lemma_graph(cx, gs[i]);
        if let Ok((cx1, source, sink)) = cg_graph(cx, gs[i]) {
            let span = gs[i].span_info;
            let src = NodeBoundV::ParallelGroup(crate::dsl::codegen::ListVarV::GroupSource(id));
            let snk = NodeBoundV::ParallelGroup(crate::dsl::codegen::ListVarV::GroupSink(id));
            lemma_link(cx1, span, src, source);
            let cx2 = crate::dsl::codegen::cg_link(cx1, span, src, source);
            lemma_link(cx2, span, sink, snk);
            let cx3 = crate::dsl::codegen::cg_link(cx2, span, sink, snk);
            let cx4 = CtxV {
                links: cx3.links.push(
                    crate::dsl::codegen::extend_stmt(crate::dsl::codegen::ListVarV::GroupSource(id), source, true),
                ).push(crate::dsl::codegen::extend_stmt(crate::dsl::codegen::ListVarV::GroupSink(id), sink, false)),
                ..cx3
            };
            lemma_branches(cx4, gs, i + 1, id);
        }
    }
}

proof fn lemma_sequence(cx: CtxV, gs: Seq<GraphV>, i: int, prev: NodeBoundV)
    requires
        cycles_flagged(cx),
        0 <= i <= gs.len(),
        cx.adj.len() + 5 * graphs_size(gs.subrange(i, gs.len() as int)) <= usize::MAX,
    ensures
        cg_sequence(cx, gs, i, prev) matches Ok((c, _)) ==> cycles_flagged(c) && c.adj.len() <= cx.adj.len() + 5
            * graphs_size(gs.subrange(i, gs.len() as int)),
    decreases graphs_size(gs.subrange(i, gs.len() as int)), 1int,
{
    if i < gs.len() {
        lemma_graphs_size_split(gs, i);
        lemma_graph(cx, gs[i]);
        if let Ok((cx1, source, sink)) = cg_graph(cx, gs[i]) {
            lemma_track(cx1, gs[i].span_info, prev, source);
            if let Ok(cx2) = cg_track(cx1, gs[i].span_info, prev, source) {
                let cx3 = CtxV { links: cx2.links + crate::dsl::codegen::stitch_stmts(prev, source), ..cx2 };
                lemma_sequence(cx3, gs, i + 1, sink);
            }
        }
    }
}

proof fn lemma_graph(cx: CtxV, g: GraphV)
    requires
        cycles_flagged(cx),
        cx.adj.len() + 5 * graph_size(g) <= usize::MAX,
    ensures
        cg_graph(cx, g) matches Ok((c, _, _)) ==> cycles_flagged(c) && c.adj.len() + 8 <= cx.adj.len() + 5
            * graph_size(g),
    decreases graph_size(g), 0int,
{
    assert(g.conns.subrange(0, g.conns.len() as int) =~= g.conns);
    lemma_node(cx, g.entry);
    if let Ok((cx1, source, sink)) = cg_node(cx, g.entry) {
        let cx2 = match source {
            NodeBoundV::Graph(sub) => CtxV {
                links: cx1.links.push(
                    crate::dsl::codegen::StmtV::Merge {
                        sub: sub.text,
                        at: crate::dsl::codegen::MergeAtV::Nodes(Seq::empty()),
                    },
                ),
                ..cx1
            },
            _ => cx1,
        };
        lemma_conns(cx2, g.conns, 0, sink);
    }
}

proof fn lemma_conns(cx: CtxV, ns: Seq<NodeExprV>, i: int, prev: NodeBoundV)
    requires
        cycles_flagged(cx),
        0 <= i <= ns.len(),
        cx.adj.len() + 5 * nodes_size(ns.subrange(i, ns.len() as int)) <= usize::MAX,
    ensures
        cg_conns(cx, ns, i, prev) matches Ok((c, _)) ==> cycles_flagged(c) && c.adj.len() <= cx.adj.len() + 5
            * nodes_size(ns.subrange(i, ns.len() as int)),
    decreases nodes_size(ns.subrange(i, ns.len() as int)), 2int,
{
    if i < ns.len() {
        lemma_nodes_size_split(ns, i);
        lemma_node(cx, ns[i]);
        if let Ok((cx1, source, sink)) = cg_node(cx, ns[i]) {
            lemma_track(cx1, crate::dsl::codegen::node_span(ns[i]), prev, source);
            if let Ok(cx2) = cg_track(cx1, crate::dsl::codegen::node_span(ns[i]), prev, source) {
                let cx3 = CtxV { links: cx2.links + crate::dsl::codegen::stitch_stmts(prev, source), ..cx2 };
                lemma_conns(cx3, ns, i + 1, sink);
            }
        }
    }
}

proof fn lemma_program(cx: CtxV, gs: Seq<GraphV>, i: int)
    requires
        cycles_flagged(cx),
        0 <= i <= gs.len(),
        cx.adj.len() + 5 * graphs_size(gs.subrange(i, gs.len() as int)) <= usize::MAX,
    ensures
        cg_program(cx, gs, i) matches Ok(c) ==> cycles_flagged(c),
    decreases gs.len() - i,
{
    if i < gs.len() {
        lemma_graphs_size_split(gs, i);
        lemma_graph(cx, gs[i]);
        if let Ok((cx1, _, _)) = cg_graph(cx, gs[i]) {
            lemma_program(cx1, gs, i + 1);
        }
    }
}

/// Circular dependencies are caught when the plan is made: it reports one
/// exactly when the program's link graph has a cycle, each embedded graph
/// taken as one node and each parallel group as its source and sink lists
/// joined through its branches.
pub proof fn law_cycles_reported(ast: SyntaxTreeV)
    requires
        5 * graphs_size(ast.graphs) <= usize::MAX,
    ensures
        plan_of(ast) matches Ok(p) ==> (has_cycle_error(p.errors) <==> !is_acyclic(link_graph(ast))),
{
    let cx = empty_ctx();
    assert(is_topological_order(cx.adj, Seq::<usize>::empty()));
    assert(ast.graphs.subrange(0, ast.graphs.len() as int) =~= ast.graphs);
    lemma_program(cx, ast.graphs, 0);
}

/// The names that stand for one end of a link in the compile-time graph.
pub open spec fn bound_names(b: NodeBoundV) -> Seq<Seq<char>> {
    match b {
        NodeBoundV::Literal(ns) => crate::dsl::codegen::names_text(ns),
        NodeBoundV::Graph(g) => seq![g.text],
        NodeBoundV::ParallelGroup(l) => seq![crate::dsl::codegen::list_name(l)],
    }
}

/// Both names have a compile-time node, with an edge from the first to the second.
pub open spec fn linked_in(c: CtxV, x: Seq<char>, y: Seq<char>) -> bool {
    &&& crate::dsl::codegen::lookup(c.ids, x) is Some
    &&& crate::dsl::codegen::lookup(c.ids, y) is Some
    &&& c.adj[crate::dsl::codegen::lookup(c.ids, x).unwrap() as int].contains(
        crate::dsl::codegen::lookup(c.ids, y).unwrap(),
    )
}

/// Every name's node is in the compile-time graph.
pub open spec fn ids_in_graph(cx: CtxV) -> bool {
    forall|i: int| 0 <= i < cx.ids.len() ==> (#[trigger] cx.ids[i]).1 < cx.adj.len()
}

proof fn lemma_with_edges_from_has(adj: Seq<Seq<usize>>, f: usize, to: Seq<usize>, b: int)
    requires
        f < adj.len(),
        0 <= b < to.len(),
    ensures
        with_edges_from(adj, f, to)[f as int].contains(to[b]),
    decreases to.len(),
{
    let p = to.drop_last();
    let mid = with_edges_from(adj, f, p);
    lemma_with_edges_from_includes(adj, f, p);
    lemma_with_edge_includes(mid, f, to.last());
    if b < p.len() {
        lemma_with_edges_from_has(adj, f, p, b);
        assert(p[b] == to[b]);
    } else {
        let m = with_edge(mid, f, to.last());
        if !mid[f as int].contains(to.last()) {
            assert(m[f as int] == mid[f as int].push(to.last()));
            assert(m[f as int][mid[f as int].len() as int] == to.last());
        }
    }
}

proof fn lemma_with_edges_has(adj: Seq<Seq<usize>>, from: Seq<usize>, to: Seq<usize>, a: int, b: int)
    requires
        forall|i: int| 0 <= i < from.len() ==> #[trigger] from[i] < adj.len(),
        0 <= a < from.len(),
        0 <= b < to.len(),
    ensures
        with_edges(adj, from, to)[from[a] as int].contains(to[b]),
    decreases from.len(),
{
    let p = from.drop_last();
    assert forall|i: int| 0 <= i < p.len() implies #[trigger] p[i] < adj.len() by {
        assert(p[i] == from[i]);
    }
    lemma_with_edges_includes(adj, p, to);
    let mid = with_edges(adj, p, to);
    assert(from[from.len() - 1] < adj.len());
    lemma_with_edges_from_includes(mid, from.last(), to);
    if a < p.len() {
        lemma_with_edges_has(adj, p, to, a, b);
        assert(p[a] == from[a]);
        assert(from[a] < adj.len());
    } else {
        lemma_with_edges_from_has(mid, from.last(), to, b);
    }
}

proof fn lemma_bound_lookup(cx: CtxV, b: NodeBoundV)
    requires
        ids_in_graph(cx),
    ensures
        cg_bound_ids(cx, b) matches Some((c, s)) ==> {
            &&& ids_in_graph(c)
            &&& c.adj.len() >= cx.adj.len()
            &&& forall|u: int| 0 <= u < cx.adj.len() ==> #[trigger] c.adj[u] == cx.adj[u]
            &&& s.len() == bound_names(b).len()
            &&& forall|k: int| 0 <= k < s.len() ==> crate::dsl::codegen::lookup(c.ids, #[trigger] bound_names(b)[k]) == Some(s[k])
            &&& forall|k: int| 0 <= k < s.len() ==> #[trigger] s[k] < c.adj.len()
            &&& forall|n: Seq<char>| #[trigger] crate::dsl::codegen::lookup(cx.ids, n) is Some
                ==> crate::dsl::codegen::lookup(c.ids, n) == crate::dsl::codegen::lookup(cx.ids, n)
        },
{
    match b {
        NodeBoundV::Literal(names) => {
            lemma_lookup_all(cx.ids, names);
            if let Some((c, s)) = cg_bound_ids(cx, b) {
                assert forall|k: int| 0 <= k < s.len() implies crate::dsl::codegen::lookup(c.ids, #[trigger] bound_names(b)[k]) == Some(s[k]) by {
                    assert(bound_names(b)[k] == names[k].text);
                }
                assert forall|k: int| 0 <= k < s.len() implies #[trigger] s[k] < c.adj.len() by {
                    lemma_lookup_below(cx.ids, names[k].text, cx.adj.len());
                    assert(Some(s[k]) == crate::dsl::codegen::lookup(cx.ids, names[k].text));
                }
            }
        },
        _ => {
            let text = match b {
                NodeBoundV::Graph(g) => g.text,
                NodeBoundV::ParallelGroup(l) => crate::dsl::codegen::list_name(l),
                _ => Seq::empty(),
            };
            lemma_lookup_below(cx.ids, text, cx.adj.len());
            assert(bound_names(b)[0] == text);
            let (c, i) = cg_graph_as_node(cx, text);
            if crate::dsl::codegen::lookup(cx.ids, text) is None {
                let ids2 = cx.ids.push((text, i));
                assert(ids2.drop_last() =~= cx.ids);
                assert forall|n: Seq<char>| #[trigger] crate::dsl::codegen::lookup(cx.ids, n) is Some
                    implies crate::dsl::codegen::lookup(c.ids, n) == crate::dsl::codegen::lookup(cx.ids, n) by {
                    assert(n != text);
                }
                assert forall|j: int| 0 <= j < c.ids.len() implies (#[trigger] c.ids[j]).1 < c.adj.len() by {
                    if j < cx.ids.len() {
                        assert(c.ids[j] == cx.ids[j]);
                    }
                }
            }
        },
    }
}

/// Every link the program writes, between any two kinds of ends (named nodes,
/// embedded graphs, parallel groups), is mirrored in the compile-time graph
/// whose cycles are reported: afterwards every name of its upstream end and
/// every name of its downstream end has a node, with an edge from the first to
/// the second.
pub proof fn law_links_mirrored(cx: CtxV, span: SpanInfo, from: NodeBoundV, to: NodeBoundV)
    requires
        ids_in_graph(cx),
    ensures
        cg_track(cx, span, from, to) matches Ok(c) ==> forall|i: int, j: int|
            #![trigger bound_names(from)[i], bound_names(to)[j]]
            0 <= i < bound_names(from).len() && 0 <= j < bound_names(to).len() ==> linked_in(
                c,
                bound_names(from)[i],
                bound_names(to)[j],
            ),
{
    lemma_bound_lookup(cx, from);
    if let Some((cx1, f)) = cg_bound_ids(cx, from) {
        lemma_bound_lookup(cx1, to);
        if let Some((cx2, t)) = cg_bound_ids(cx1, to) {
            let c = cg_add_links(cx2, span, from, to, f, t);
            assert forall|i: int, j: int|
                #![trigger bound_names(from)[i], bound_names(to)[j]]
                0 <= i < bound_names(from).len() && 0 <= j < bound_names(to).len() implies linked_in(
                c,
                bound_names(from)[i],
                bound_names(to)[j],
            ) by {
                let x = bound_names(from)[i];
                let y = bound_names(to)[j];
                assert(crate::dsl::codegen::lookup(cx1.ids, x) == Some(f[i]));
                assert(crate::dsl::codegen::lookup(cx1.ids, x) is Some);
                assert(crate::dsl::codegen::lookup(cx2.ids, x) == Some(f[i]));
                assert(crate::dsl::codegen::lookup(cx2.ids, y) == Some(t[j]));
                assert forall|k: int| 0 <= k < f.len() implies #[trigger] f[k] < cx2.adj.len() by {
                    assert(f[k] < cx1.adj.len());
                }
                lemma_with_edges_has(cx2.adj, f, t, i, j);
            }
        }
    }
}

} // verus!
