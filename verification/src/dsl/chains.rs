//! What a plan links: in a chain of named tasks, each task to the next.
use vstd::prelude::*;

use crate::dsl::ast::{GraphV, NodeExprV};
use crate::dsl::codegen::{
    cg_conns, cg_graph, cg_node, cg_track, edge_stmts, stitch_stmts, CtxV, NameV, NodeBoundV, StmtV,
};

verus! {

/// A node that names one task: a declaration with a variable, or a binding.
pub open spec fn named_node(n: NodeExprV) -> bool {
    match n {
        NodeExprV::Declaration(t) => t.var is Some,
        NodeExprV::Binding(_) => true,
        _ => false,
    }
}

/// The variable a named node stands for.
pub open spec fn node_var(n: NodeExprV) -> Seq<char> {
    match n {
        NodeExprV::Declaration(t) => match t.var {
            Some(v) => v.name,
            Option::None => Seq::empty(),
        },
        NodeExprV::Binding(v) => v.name,
        _ => Seq::empty(),
    }
}

/// A chain of named tasks: `a: A -> [b] -> c: C`.
pub open spec fn named_chain(g: GraphV) -> bool {
    &&& named_node(g.entry)
    &&& forall|i: int| 0 <= i < g.conns.len() ==> named_node(#[trigger] g.conns[i])
}

/// An edge from `prev` to the first of `ns` from the `i`-th on, then from each
/// to the next.
pub open spec fn chain_edges(ns: Seq<NodeExprV>, i: int, prev: Seq<char>) -> Seq<StmtV>
    decreases ns.len() - i,
{
    if i < 0 || i >= ns.len() {
        Seq::empty()
    } else {
        seq![StmtV::AddEdge { from: prev, to: node_var(ns[i]) }] + chain_edges(ns, i + 1, node_var(ns[i]))
    }
}

proof fn lemma_named_node(cx: CtxV, n: NodeExprV)
    requires
        named_node(n),
    ensures
        match cg_node(cx, n) {
            Ok((c, so, si)) => c.links == cx.links && so == si && (so matches NodeBoundV::Literal(names)
                && names.len() == 1 && names[0].text == node_var(n)),
            Err(_) => true,
        },
{
}

proof fn lemma_conns(cx: CtxV, ns: Seq<NodeExprV>, i: int, prev: NameV)
    requires
        0 <= i <= ns.len(),
        forall|j: int| 0 <= j < ns.len() ==> named_node(#[trigger] ns[j]),
    ensures
        cg_conns(cx, ns, i, NodeBoundV::Literal(seq![prev])) matches Ok((c, _)) ==> c.links == cx.links
            + chain_edges(ns, i, prev.text),
    decreases ns.len() - i,
{
    if i < ns.len() {
        crate::dsl::codegen::lemma_nodes_size_split(ns, i);
        assert(named_node(ns[i]));
        lemma_named_node(cx, ns[i]);
        let up = NodeBoundV::Literal(seq![prev]);
        if let Ok((cx1, source, sink)) = cg_node(cx, ns[i]) {
            if let Ok(cx2) = cg_track(cx1, crate::dsl::codegen::node_span(ns[i]), up, source) {
                let names = source->Literal_0;
                let next = names[0];
                assert(names =~= seq![next]);
                let one = seq![prev];
                assert(one.drop_last() =~= Seq::<NameV>::empty());
                assert(edge_stmts(Seq::<NameV>::empty(), names) =~= Seq::<StmtV>::empty());
                assert(edge_stmts(one, names) =~= seq![StmtV::AddEdge { from: prev.text, to: next.text }]);
                let cx3 = CtxV { links: cx2.links + stitch_stmts(up, source), ..cx2 };
                lemma_conns(cx3, ns, i + 1, next);
                if let Ok((c, _)) = cg_conns(cx3, ns, i + 1, sink) {
                    assert(c.links =~= cx.links + chain_edges(ns, i, prev.text));
                }
            }
        }
    } else {
        assert(cx.links + chain_edges(ns, i, prev.text) =~= cx.links);
    }
}

/// In a chain of named tasks, the plan links each task to the next, in order,
/// and nothing else.
pub proof fn law_chain_links(cx: CtxV, g: GraphV)
    requires
        named_chain(g),
    ensures
        cg_graph(cx, g) matches Ok((c, _, _)) ==> c.links == cx.links + chain_edges(g.conns, 0, node_var(g.entry)),
{
    assert(g.conns.subrange(0, g.conns.len() as int) =~= g.conns);
    lemma_named_node(cx, g.entry);
    if let Ok((cx1, source, sink)) = cg_node(cx, g.entry) {
        let names = sink->Literal_0;
        assert(names =~= seq![names[0]]);
        lemma_conns(cx1, g.conns, 0, names[0]);
    }
}

} // verus!
