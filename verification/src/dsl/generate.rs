//! Code generation itself: walks a [`SyntaxTree`] and produces the plan that
//! [`plan_of`](crate::dsl::codegen::plan_of) describes.
use vstd::prelude::*;

use crate::adjacency::{lemma_in_degree_at_most_nodes, lists_distinct};
use crate::dsl::ast::{
    SpanInfo, Task, TypeRef, Ident, NodeExpr, GroupBlock, SchedulingMode, SyntaxTree, node_view,
    graph_view, nodes_view, graphs_view, lemma_graphs_view_index, lemma_nodes_view_index,
};
use crate::dsl::ast::Graph as GraphExpr;
use crate::dsl::codegen::{
    cg_bound_ids, cg_graph_as_node, errors_view, from_name, lookup, lookup_all, stmts_view,
    texts_view, to_name, with_edge, with_edges, with_edges_from, CodegenError, CodegenFailure,
    CtxV, NameV, NodeBound, Stmt, cg_track, cg_link, cg_add_links, lookup_some, cg_bound_ids_found, copy_name, list_text, push_literal, same_text,
    cg_declare, name_of, anon_text, ErrorV, StmtV, Name, names_view, edge_stmts, stitch_stmts,
    extend_stmt, ListVar, MergeAt, texts_of, copy_list_var, cg_node, cg_branches, cg_sequence,
    cg_graph, cg_conns, cg_program, node_span, node_size, graph_size, nodes_size, graphs_size,
    lemma_nodes_size_split, lemma_graphs_size_split, plan_of, Plan, empty_ctx, lemma_lookup_below,
    lemma_lookup_all,
};
use crate::dsl::parser::{copy_chars, push_chars_pub};
use crate::adjacency::copy_vec;
use crate::graph::Graph;

verus! {

/// The compile-time node of each name, as pairs of texts and node ids.
pub open spec fn id_entries(s: Seq<(Vec<char>, usize)>) -> Seq<(Seq<char>, usize)> {
    s.map_values(|p: (Vec<char>, usize)| (p.0@, p.1))
}

/// The type of each anonymous variable, as pairs of texts.
pub open spec fn type_entries(s: Seq<(Vec<char>, Vec<char>)>) -> Seq<(Seq<char>, Seq<char>)> {
    s.map_values(|p: (Vec<char>, Vec<char>)| (p.0@, p.1@))
}

/// The latest entry for `k`.
fn lookup_id(m: &Vec<(Vec<char>, usize)>, k: &Vec<char>) -> (r: Option<usize>)
    ensures
        r == lookup(id_entries(m@), k@),
{
    let mut i: usize = m.len();
    assert(m@.take(i as int) =~= m@);
    while i > 0
        invariant
            i <= m@.len(),
            lookup(id_entries(m@), k@) == lookup(id_entries(m@.take(i as int)), k@),
        decreases i,
    {
        let ghost t = id_entries(m@.take(i as int));
        assert(t.last() == (m@[i - 1].0@, m@[i - 1].1));
        if same_text(&m[i - 1].0, k) {
            return Some(m[i - 1].1);
        }
        i = i - 1;
        assert(t.drop_last() =~= id_entries(m@.take(i as int)));
    }
    assert(id_entries(m@.take(0)) =~= Seq::<(Seq<char>, usize)>::empty());
    None
}

/// The type of the anonymous variable `k`, if it is one.
fn lookup_type(m: &Vec<(Vec<char>, Vec<char>)>, k: &Vec<char>) -> (r: Option<Vec<char>>)
    ensures
        match lookup(type_entries(m@), k@) {
            Some(v) => r matches Some(x) && x@ == v,
            Option::None => r is None,
        },
{
    let mut i: usize = m.len();
    assert(m@.take(i as int) =~= m@);
    while i > 0
        invariant
            i <= m@.len(),
            lookup(type_entries(m@), k@) == lookup(type_entries(m@.take(i as int)), k@),
        decreases i,
    {
        let ghost t = type_entries(m@.take(i as int));
        assert(t.last() == (m@[i - 1].0@, m@[i - 1].1@));
        if same_text(&m[i - 1].0, k) {
            return Some(copy_chars(&m[i - 1].1));
        }
        i = i - 1;
        assert(t.drop_last() =~= type_entries(m@.take(i as int)));
    }
    assert(type_entries(m@.take(0)) =~= Seq::<(Seq<char>, Seq<char>)>::empty());
    None
}

/// Whether `k` is among the texts of `v`.
fn contains_text(v: &Vec<Vec<char>>, k: &Vec<char>) -> (r: bool)
    ensures
        r == texts_view(v@).contains(k@),
{
    let mut i: usize = 0;
    while i < v.len()
        invariant
            i <= v@.len(),
            forall|j: int| 0 <= j < i ==> texts_view(v@)[j] != k@,
        decreases v@.len() - i,
    {
        if same_text(&v[i], k) {
            assert(texts_view(v@)[i as int] == k@);
            return true;
        }
        i += 1;
    }
    false
}

/// Adds the edges from each of `from` to each of `to`, `from` outermost, as
/// [`with_edges`] does.
fn add_edges(g: &mut Graph, from: &Vec<usize>, to: &Vec<usize>)
    requires
        old(g)@.wf(),
        lists_distinct(old(g)@.adj),
        old(g)@.len() < usize::MAX,
        forall|i: int| 0 <= i < from@.len() ==> #[trigger] from@[i] < old(g)@.len(),
        forall|i: int| 0 <= i < to@.len() ==> #[trigger] to@[i] < old(g)@.len(),
    ensures
        final(g)@.wf(),
        lists_distinct(final(g)@.adj),
        final(g)@.len() == old(g)@.len(),
        final(g)@.adj == with_edges(old(g)@.adj, from@, to@),
{
    let ghost adj0 = g@.adj;
    let ghost n = g@.len();
    let mut a: usize = 0;
    while a < from.len()
        invariant
            a <= from@.len(),
            g@.wf(),
            lists_distinct(g@.adj),
            g@.len() == n,
            n < usize::MAX,
            forall|i: int| 0 <= i < from@.len() ==> #[trigger] from@[i] < n,
            forall|i: int| 0 <= i < to@.len() ==> #[trigger] to@[i] < n,
            g@.adj == with_edges(adj0, from@.take(a as int), to@),
        decreases from@.len() - a,
    {
        let ghost start = g@.adj;
        let mut b: usize = 0;
        assert(to@.take(0) =~= Seq::<usize>::empty());
        while b < to.len()
            invariant
                a < from@.len(),
                b <= to@.len(),
                g@.wf(),
                lists_distinct(g@.adj),
                g@.len() == n,
                n < usize::MAX,
                forall|i: int| 0 <= i < from@.len() ==> #[trigger] from@[i] < n,
                forall|i: int| 0 <= i < to@.len() ==> #[trigger] to@[i] < n,
                g@.adj == with_edges_from(start, from@[a as int], to@.take(b as int)),
            decreases to@.len() - b,
        {
            let f = from[a];
            let t = to[b];
            proof {
                lemma_in_degree_at_most_nodes(g@.adj, t, g@.adj.len() as int);
            }
            let ghost before = g@.adj;
            g.add_edge(f, t);
            proof {
                assert(g@.adj == with_edge(before, f, t));
                assert forall|u: int| 0 <= u < g@.adj.len() implies (#[trigger] g@.adj[u]).no_duplicates() by {
                    if u == f && !before[u].contains(t) {
                        assert(g@.adj[u] =~= before[u].push(t));
                    }
                }
                assert(to@.take(b + 1).drop_last() =~= to@.take(b as int));
            }
            b += 1;
        }
        proof {
            assert(to@.take(b as int) =~= to@);
            assert(from@.take(a + 1).drop_last() =~= from@.take(a as int));
        }
        a += 1;
    }
    assert(from@.take(a as int) =~= from@);
}

/// The symbols `text` between `open` and `close`.
fn enclosed(open: &str, text: &Vec<char>, close: &str) -> (r: Vec<char>)
    ensures
        r@ == open@ + text@ + close@,
{
    let mut r: Vec<char> = Vec::new();
    push_literal(&mut r, open);
    push_chars_pub(&mut r, text);
    push_literal(&mut r, close);
    r
}

/// The word used for a missing name.
fn word_node() -> (r: Vec<char>)
    ensures
        r@ == crate::dsl::codegen::word_node(),
{
    let mut r: Vec<char> = Vec::new();
    push_literal(&mut r, "node");
    proof {
        reveal_strlit("node");
    }
    assert(r@ =~= crate::dsl::codegen::word_node());
    r
}

/// How the downstream end of a cyclic link is reported.
fn to_text(b: &NodeBound) -> (r: Vec<char>)
    ensures
        r@ == to_name(b.view()),
{
    match b {
        NodeBound::Literal(names) => {
            if names.len() > 0 {
                copy_chars(&names[0].text)
            } else {
                word_node()
            }
        },
        NodeBound::Graph(g) => {
            let r = enclosed("#[", &g.text, "]");
            proof {
                reveal_strlit("#[");
                reveal_strlit("]");
            }
            r
        },
        NodeBound::ParallelGroup(l) => {
            let r = enclosed("(group: ", &list_text(l), ")");
            proof {
                reveal_strlit("(group: ");
                reveal_strlit(")");
            }
            r
        },
    }
}

/// A copy of a type reference.
fn copy_type_ref(t: &TypeRef) -> (r: TypeRef)
    ensures
        r.view() == t.view(),
{
    TypeRef { path: copy_vec(&t.path), start: t.start, len: t.len, key: copy_chars(&t.key), span: t.span }
}

/// The name written as `v`.
fn name_from(v: &Ident) -> (r: Name)
    ensures
        r.view() == name_of(v.view()),
{
    Name { text: copy_chars(&v.name), span: SpanInfo { span: v.span, at_call_site: false } }
}

/// Appends one statement.
fn push_stmt(links: &mut Vec<Stmt>, st: Stmt)
    ensures
        stmts_view(final(links)@) == stmts_view(old(links)@).push(st.view()),
{
    links.push(st);
    assert(stmts_view(links@) =~= stmts_view(old(links)@).push(st.view()));
}

/// Appends an edge statement from every name of `from` to every name of `to`.
fn push_edges(links: &mut Vec<Stmt>, from: &Vec<Name>, to: &Vec<Name>)
    ensures
        stmts_view(final(links)@) == stmts_view(old(links)@) + edge_stmts(names_view(from@), names_view(to@)),
{
    let ghost l0 = stmts_view(links@);
    let ghost fv = names_view(from@);
    let ghost tv = names_view(to@);
    let mut a: usize = 0;
    assert(l0 + edge_stmts(fv.take(0), tv) =~= l0);
    while a < from.len()
        invariant
            a <= from@.len(),
            fv == names_view(from@),
            tv == names_view(to@),
            stmts_view(links@) == l0 + edge_stmts(fv.take(a as int), tv),
        decreases from@.len() - a,
    {
        let ghost base = stmts_view(links@);
        let ghost f = fv[a as int];
        let mut b: usize = 0;
        assert(base + tv.take(0).map_values(|t: NameV| StmtV::AddEdge { from: f.text, to: t.text }) =~= base);
        while b < to.len()
            invariant
                a < from@.len(),
                b <= to@.len(),
                fv == names_view(from@),
                tv == names_view(to@),
                f == fv[a as int],
                stmts_view(links@) == base + tv.take(b as int).map_values(
                    |t: NameV| StmtV::AddEdge { from: f.text, to: t.text },
                ),
            decreases to@.len() - b,
        {
            let ghost prev = stmts_view(links@);
            push_stmt(links, Stmt::AddEdge { from: copy_chars(&from[a].text), to: copy_chars(&to[b].text) });
            proof {
                assert(tv.take(b + 1).map_values(|t: NameV| StmtV::AddEdge { from: f.text, to: t.text })
                    =~= tv.take(b as int).map_values(|t: NameV| StmtV::AddEdge { from: f.text, to: t.text }).push(
                    StmtV::AddEdge { from: f.text, to: tv[b as int].text },
                ));
                assert(stmts_view(links@) =~= base + tv.take(b + 1).map_values(
                    |t: NameV| StmtV::AddEdge { from: f.text, to: t.text },
                ));
            }
            b += 1;
        }
        proof {
            assert(tv.take(b as int) =~= tv);
            assert(fv.take(a + 1).drop_last() =~= fv.take(a as int));
            assert(fv.take(a + 1).last() == f);
            assert(l0 + edge_stmts(fv.take(a + 1), tv) =~= base + tv.map_values(
                |t: NameV| StmtV::AddEdge { from: f.text, to: t.text },
            ));
        }
        a += 1;
    }
    assert(fv.take(a as int) =~= fv);
}

/// Appends, for every name of `to`, an edge statement from every id of the list `from`.
fn push_edges_from_list(links: &mut Vec<Stmt>, from: &ListVar, to: &Vec<Name>)
    ensures
        stmts_view(final(links)@) == stmts_view(old(links)@) + names_view(to@).map_values(
            |t: NameV| StmtV::EdgesFromList { from: from.view(), to: t.text },
        ),
{
    let ghost l0 = stmts_view(links@);
    let ghost tv = names_view(to@);
    let ghost fl = from.view();
    let mut b: usize = 0;
    assert(l0 + tv.take(0).map_values(|t: NameV| StmtV::EdgesFromList { from: fl, to: t.text }) =~= l0);
    while b < to.len()
        invariant
            b <= to@.len(),
            tv == names_view(to@),
            fl == from.view(),
            stmts_view(links@) == l0 + tv.take(b as int).map_values(
                |t: NameV| StmtV::EdgesFromList { from: fl, to: t.text },
            ),
        decreases to@.len() - b,
    {
        push_stmt(links, Stmt::EdgesFromList { from: copy_list_var(from), to: copy_chars(&to[b].text) });
        proof {
            assert(tv.take(b + 1).map_values(|t: NameV| StmtV::EdgesFromList { from: fl, to: t.text })
                =~= tv.take(b as int).map_values(|t: NameV| StmtV::EdgesFromList { from: fl, to: t.text }).push(
                StmtV::EdgesFromList { from: fl, to: tv[b as int].text },
            ));
            assert(stmts_view(links@) =~= l0 + tv.take(b + 1).map_values(
                |t: NameV| StmtV::EdgesFromList { from: fl, to: t.text },
            ));
        }
        b += 1;
    }
    assert(tv.take(b as int) =~= tv);
}

/// Appends, for every name of `from`, an edge statement to every id of the list `to`.
fn push_edges_to_list(links: &mut Vec<Stmt>, from: &Vec<Name>, to: &ListVar)
    ensures
        stmts_view(final(links)@) == stmts_view(old(links)@) + names_view(from@).map_values(
            |f: NameV| StmtV::EdgesToList { from: f.text, to: to.view() },
        ),
{
    let ghost l0 = stmts_view(links@);
    let ghost fv = names_view(from@);
    let ghost tl = to.view();
    let mut a: usize = 0;
    assert(l0 + fv.take(0).map_values(|f: NameV| StmtV::EdgesToList { from: f.text, to: tl }) =~= l0);
    while a < from.len()
        invariant
            a <= from@.len(),
            fv == names_view(from@),
            tl == to.view(),
            stmts_view(links@) == l0 + fv.take(a as int).map_values(
                |f: NameV| StmtV::EdgesToList { from: f.text, to: tl },
            ),
        decreases from@.len() - a,
    {
        push_stmt(links, Stmt::EdgesToList { from: copy_chars(&from[a].text), to: copy_list_var(to) });
        proof {
            assert(fv.take(a + 1).map_values(|f: NameV| StmtV::EdgesToList { from: f.text, to: tl })
                =~= fv.take(a as int).map_values(|f: NameV| StmtV::EdgesToList { from: f.text, to: tl }).push(
                StmtV::EdgesToList { from: fv[a as int].text, to: tl },
            ));
            assert(stmts_view(links@) =~= l0 + fv.take(a + 1).map_values(
                |f: NameV| StmtV::EdgesToList { from: f.text, to: tl },
            ));
        }
        a += 1;
    }
    assert(fv.take(a as int) =~= fv);
}

/// Appends the statements that link every exit point of `up` to every entry
/// point of `down`.
fn push_stitch(links: &mut Vec<Stmt>, up: &NodeBound, down: &NodeBound)
    ensures
        stmts_view(final(links)@) == stmts_view(old(links)@) + stitch_stmts(up.view(), down.view()),
{
    let ghost l0 = stmts_view(links@);
    match (up, down) {
        (NodeBound::Literal(from), NodeBound::Literal(to)) => push_edges(links, from, to),
        (NodeBound::Graph(f), NodeBound::Graph(t)) => {
            push_stmt(
                links,
                Stmt::Merge { sub: copy_chars(&t.text), at: MergeAt::Moved(ListVar::GraphSink(copy_chars(&f.text))) },
            );
            assert(stmts_view(links@) =~= l0 + stitch_stmts(up.view(), down.view()));
        },
        (NodeBound::Literal(from), NodeBound::Graph(t)) => {
            push_stmt(links, Stmt::Merge { sub: copy_chars(&t.text), at: MergeAt::Nodes(texts_of(from)) });
            assert(stmts_view(links@) =~= l0 + stitch_stmts(up.view(), down.view()));
        },
        (NodeBound::Graph(f), NodeBound::Literal(to)) => {
            push_edges_from_list(links, &ListVar::GraphSink(copy_chars(&f.text)), to);
        },
        (NodeBound::ParallelGroup(f), NodeBound::Literal(to)) => {
            push_edges_from_list(links, f, to);
        },
        (NodeBound::Literal(from), NodeBound::ParallelGroup(t)) => {
            push_edges_to_list(links, from, t);
        },
        (NodeBound::ParallelGroup(f), NodeBound::Graph(t)) => {
            push_stmt(links, Stmt::Merge { sub: copy_chars(&t.text), at: MergeAt::Cloned(copy_list_var(f)) });
            assert(stmts_view(links@) =~= l0 + stitch_stmts(up.view(), down.view()));
        },
        (NodeBound::Graph(f), NodeBound::ParallelGroup(t)) => {
            push_stmt(
                links,
                Stmt::EdgesBetweenLists { from: ListVar::GraphSink(copy_chars(&f.text)), to: copy_list_var(t) },
            );
            assert(stmts_view(links@) =~= l0 + stitch_stmts(up.view(), down.view()));
        },
        (NodeBound::ParallelGroup(f), NodeBound::ParallelGroup(t)) => {
            push_stmt(links, Stmt::EdgesBetweenLists { from: copy_list_var(f), to: copy_list_var(t) });
            assert(stmts_view(links@) =~= l0 + stitch_stmts(up.view(), down.view()));
        },
    }
}

/// The statement that adds one end of a branch to a group list.
fn extend_of(list: ListVar, b: &NodeBound, source: bool) -> (r: Stmt)
    ensures
        r.view() == extend_stmt(list.view(), b.view(), source),
{
    match b {
        NodeBound::Literal(ids) => Stmt::ExtendNodes { list, ids: texts_of(ids) },
        NodeBound::Graph(g) => Stmt::ExtendList {
            list,
            with: if source {
                ListVar::GraphSource(copy_chars(&g.text))
            } else {
                ListVar::GraphSink(copy_chars(&g.text))
            },
        },
        NodeBound::ParallelGroup(l) => Stmt::ExtendList { list, with: copy_list_var(l) },
    }
}

/// Where a node is reported when a link to it closes a cycle.
fn span_of(n: &NodeExpr) -> (r: SpanInfo)
    ensures
        r == node_span(node_view(*n)),
{
    match n {
        NodeExpr::Declaration(t) => match &t.var {
            Some(v) => SpanInfo { span: v.span, at_call_site: false },
            None => SpanInfo { span: t.typ.span, at_call_site: false },
        },
        NodeExpr::Binding(v) => SpanInfo { span: v.span, at_call_site: false },
        NodeExpr::Embedding(v) => SpanInfo { span: v.span, at_call_site: false },
        NodeExpr::Group(b) => b.span_info,
    }
}

/// The type that tags the nodes of the compile-time graph.
struct CompileNode;

/// The state of code generation; its model is a [`CtxV`].
struct Context {
    graph: Graph,
    decls: Vec<Stmt>,
    links: Vec<Stmt>,
    groups: usize,
    anons: usize,
    ids: Vec<(Vec<char>, usize)>,
    anon_types: Vec<(Vec<char>, Vec<char>)>,
    unbound: Vec<Vec<char>>,
    embeddings: Vec<Vec<char>>,
    errors: Vec<CodegenError>,
}


impl Context {
    spec fn view(&self) -> CtxV {
        CtxV {
            adj: self.graph@.adj,
            decls: stmts_view(self.decls@),
            links: stmts_view(self.links@),
            groups: self.groups as nat,
            anons: self.anons as nat,
            ids: id_entries(self.ids@),
            anon_types: type_entries(self.anon_types@),
            unbound: texts_view(self.unbound@),
            embeddings: texts_view(self.embeddings@),
            errors: errors_view(self.errors@),
        }
    }

    /// The compile-time graph is well formed, without repeated edges, and every
    /// name's node is in it.
    spec fn wf(&self) -> bool {
        &&& self.graph@.wf()
        &&& lists_distinct(self.graph@.adj)
        &&& forall|i: int| 0 <= i < self.ids@.len() ==> (#[trigger] self.ids@[i]).1 < self.graph@.len()
    }

    /// What the counters and the compile-time graph have used up.
    spec fn used(&self) -> nat {
        self.graph@.len() + self.groups as nat + self.anons as nat
    }

    /// The node of the latest entry for `k`, which is in the graph.
    fn node_of(&self, k: &Vec<char>) -> (r: Option<usize>)
        requires
            self.wf(),
        ensures
            r == lookup(self@.ids, k@),
            r matches Some(v) ==> v < self.graph@.len(),
    {
        let r = lookup_id(&self.ids, k);
        proof {
            lemma_lookup_below(self@.ids, k@, self.graph@.len());
        }
        r
    }

    /// The compile-time node of a group list or embedded graph, made on first use.
    fn graph_as_node(&mut self, text: &Vec<char>) -> (id: usize)
        requires
            old(self).wf(),
            old(self).used() + 1 <= usize::MAX,
        ensures
            (final(self)@, id) == cg_graph_as_node(old(self)@, text@),
            final(self).wf(),
            id < final(self).graph@.len(),
            final(self).used() <= old(self).used() + 1,
    {
        match self.node_of(text) {
            Some(i) => i,
            None => {
                let i = self.graph.add_node::<CompileNode>("CompileNode");
                self.ids.push((copy_chars(text), i));
                proof {
                    assert(id_entries(self.ids@) =~= id_entries(old(self).ids@).push((text@, i)));
                }
                i
            },
        }
    }
    /// How the upstream end of a cyclic link is reported.
    fn from_text(&self, b: &NodeBound) -> (r: Vec<char>)
        ensures
            r@ == from_name(self@, b.view()),
    {
        match b {
            NodeBound::Literal(names) => {
                if names.len() > 0 {
                    match lookup_type(&self.anon_types, &names[0].text) {
                        Some(k) => k,
                        None => word_node(),
                    }
                } else {
                    word_node()
                }
            },
            _ => to_text(b),
        }
    }

    /// The compile-time nodes of declared names, if all are declared.
    fn nodes_of(&self, names: &Vec<crate::dsl::codegen::Name>) -> (r: Option<Vec<usize>>)
        requires
            self.wf(),
        ensures
            match lookup_all(self@.ids, crate::dsl::codegen::names_view(names@)) {
                Some(s) => r matches Some(v) && v@ == s,
                Option::None => r is None,
            },
            r matches Some(v) ==> forall|i: int| 0 <= i < v@.len() ==> #[trigger] v@[i] < self.graph@.len(),
    {
        let ghost nv = crate::dsl::codegen::names_view(names@);
        let mut r: Vec<usize> = Vec::new();
        let mut i: usize = 0;
        while i < names.len()
            invariant
                self.wf(),
                nv == crate::dsl::codegen::names_view(names@),
                i <= names@.len(),
                r@.len() == i,
                forall|j: int| 0 <= j < i ==> Some(#[trigger] r@[j]) == lookup(self@.ids, nv[j].text),
                forall|j: int| 0 <= j < i ==> #[trigger] r@[j] < self.graph@.len(),
            decreases names@.len() - i,
        {
            assert(nv[i as int].text == names@[i as int].text@);
            match self.node_of(&names[i].text) {
                Some(v) => r.push(v),
                None => {
                    proof {
                        lemma_lookup_all(self@.ids, nv);
                    }
                    assert(lookup(self@.ids, nv[i as int].text) is None);
                    return None;
                },
            }
            i += 1;
        }
        proof {
            lemma_lookup_all(self@.ids, nv);
            assert forall|j: int| 0 <= j < nv.len() implies (#[trigger] lookup(self@.ids, nv[j].text)) is Some by {
                assert(Some(r@[j]) == lookup(self@.ids, nv[j].text));
            }
            let s = lookup_all(self@.ids, nv).unwrap();
            assert forall|j: int| 0 <= j < s.len() implies s[j] == r@[j] by {
                assert(Some(s[j]) == lookup(self@.ids, nv[j].text));
            }
            assert(r@ =~= s);
        }
        Some(r)
    }

    /// The compile-time nodes that stand for one end of a link.
    fn bound_ids(&mut self, b: &NodeBound) -> (r: Option<Vec<usize>>)
        requires
            old(self).wf(),
            old(self).used() + 1 <= usize::MAX,
        ensures
            match cg_bound_ids(old(self)@, b.view()) {
                Some((c, s)) => r matches Some(v) && v@ == s && final(self)@ == c,
                Option::None => r is None,
            },
            final(self).wf(),
            final(self).used() <= old(self).used() + 1,
            r matches Some(v) ==> forall|i: int| 0 <= i < v@.len() ==> #[trigger] v@[i] < final(self).graph@.len(),
    {
        match b {
            NodeBound::Literal(names) => self.nodes_of(names),
            NodeBound::Graph(g) => {
                let i = self.graph_as_node(&g.text);
                let v = vec![i];
                assert(v@ =~= seq![i]);
                Some(v)
            },
            NodeBound::ParallelGroup(l) => {
                let i = self.graph_as_node(&list_text(l));
                let v = vec![i];
                assert(v@ =~= seq![i]);
                Some(v)
            },
        }
    }

    /// Mirrors a link in the compile-time graph, and reports a cycle if the
    /// graph has one afterwards.
    fn track(&mut self, span: SpanInfo, from: &NodeBound, to: &NodeBound) -> (r: Result<(), CodegenFailure>)
        requires
            old(self).wf(),
            old(self).used() + 3 <= usize::MAX,
        ensures
            match cg_track(old(self)@, span, from.view(), to.view()) {
                Ok(c) => r is Ok && final(self)@ == c && final(self).wf() && final(self).used() <= old(self).used() + 2,
                Err(e) => r == Err::<(), CodegenFailure>(e),
            },
    {
        let f = match self.bound_ids(from) {
            Some(f) => f,
            None => {
                return Err(CodegenFailure::MissingSourceNode);
            },
        };
        let t = match self.bound_ids(to) {
            Some(t) => t,
            None => {
                return Err(CodegenFailure::MissingTargetNode);
            },
        };
        self.add_links(span, from, to, &f, &t);
        Ok(())
    }

    /// Adds the edges from each of `f` to each of `t`, and reports a cycle if
    /// the compile-time graph has one afterwards.
    fn add_links(&mut self, span: SpanInfo, from: &NodeBound, to: &NodeBound, f: &Vec<usize>, t: &Vec<usize>)
        requires
            old(self).wf(),
            old(self).graph@.len() < usize::MAX,
            forall|i: int| 0 <= i < f@.len() ==> #[trigger] f@[i] < old(self).graph@.len(),
            forall|i: int| 0 <= i < t@.len() ==> #[trigger] t@[i] < old(self).graph@.len(),
        ensures
            final(self)@ == cg_add_links(old(self)@, span, from.view(), to.view(), f@, t@),
            final(self).wf(),
            final(self).used() == old(self).used(),
    {
        let ghost cx2 = self@;
        let fname = self.from_text(from);
        let tname = to_text(to);
        add_edges(&mut self.graph, f, t);
        match self.graph.sort_ordered() {
            Ok(_) => {},
            Err(_) => {
                self.errors.push(CodegenError::CircularDependency { from: fname, to: tname, span });
                proof {
                    assert(errors_view(self.errors@) =~= cx2.errors.push(
                        crate::dsl::codegen::ErrorV::CircularDependency { from: fname@, to: tname@, span },
                    ));
                }
            },
        }
    }

    /// The compile-time nodes of the declared names among `names`, in order.
    fn nodes_found(&self, names: &Vec<Name>) -> (r: Vec<usize>)
        requires
            self.wf(),
        ensures
            r@ == lookup_some(self@.ids, names_view(names@)),
            forall|i: int| 0 <= i < r@.len() ==> #[trigger] r@[i] < self.graph@.len(),
    {
        let ghost nv = names_view(names@);
        let mut r: Vec<usize> = Vec::new();
        let mut i: usize = 0;
        assert(nv.take(0) =~= Seq::<NameV>::empty());
        while i < names.len()
            invariant
                self.wf(),
                nv == names_view(names@),
                i <= names@.len(),
                r@ == lookup_some(self@.ids, nv.take(i as int)),
                forall|j: int| 0 <= j < r@.len() ==> #[trigger] r@[j] < self.graph@.len(),
            decreases names@.len() - i,
        {
            assert(nv[i as int].text == names@[i as int].text@);
            assert(nv.take(i + 1).drop_last() =~= nv.take(i as int));
            match self.node_of(&names[i].text) {
                Some(v) => {
                    r.push(v);
                    assert(r@ =~= lookup_some(self@.ids, nv.take(i + 1)));
                },
                None => {
                    assert(r@ =~= lookup_some(self@.ids, nv.take(i + 1)));
                },
            }
            i += 1;
        }
        assert(nv.take(i as int) =~= nv);
        r
    }

    /// The compile-time nodes that stand for one end of a link inside a group.
    fn bound_ids_found(&mut self, b: &NodeBound) -> (r: Vec<usize>)
        requires
            old(self).wf(),
            old(self).used() + 1 <= usize::MAX,
        ensures
            (final(self)@, r@) == cg_bound_ids_found(old(self)@, b.view()),
            final(self).wf(),
            final(self).used() <= old(self).used() + 1,
            forall|i: int| 0 <= i < r@.len() ==> #[trigger] r@[i] < final(self).graph@.len(),
    {
        match b {
            NodeBound::Literal(names) => self.nodes_found(names),
            NodeBound::Graph(g) => {
                let i = self.graph_as_node(&g.text);
                let v = vec![i];
                assert(v@ =~= seq![i]);
                v
            },
            NodeBound::ParallelGroup(l) => {
                let i = self.graph_as_node(&list_text(l));
                let v = vec![i];
                assert(v@ =~= seq![i]);
                v
            },
        }
    }

    /// Mirrors a link between a group's source or sink list and one end of a
    /// branch, and reports a cycle if the graph has one afterwards.
    fn link(&mut self, span: SpanInfo, from: &NodeBound, to: &NodeBound)
        requires
            old(self).wf(),
            old(self).used() + 3 <= usize::MAX,
        ensures
            final(self)@ == cg_link(old(self)@, span, from.view(), to.view()),
            final(self).wf(),
            final(self).used() <= old(self).used() + 2,
    {
        let f = self.bound_ids_found(from);
        let t = self.bound_ids_found(to);
        self.add_links(span, from, to, &f, &t);
    }

    /// Declares a task: notes a repeated anonymous type, names the variable
    /// (`anon_n` when none is written), adds the declaration and a compile-time
    /// node, and notes a repeated variable.
    fn declare(&mut self, t: &Task) -> (name: Name)
        requires
            old(self).wf(),
            old(self).used() + 2 <= usize::MAX,
        ensures
            (final(self)@, name.view()) == cg_declare(old(self)@, t.view()),
            final(self).wf(),
            final(self).used() <= old(self).used() + 2,
    {
        let ghost cx = self@;
        let key = &t.typ.key;
        if t.var.is_none() {
            if contains_text(&self.unbound, key) {
                self.errors.push(CodegenError::DuplicateUnboundType { type_key: copy_chars(key), span: t.typ.span });
                proof {
                    assert(errors_view(self.errors@) =~= cx.errors.push(
                        ErrorV::DuplicateUnboundType { type_key: key@, span: t.typ.span },
                    ));
                }
            } else {
                self.unbound.push(copy_chars(key));
                proof {
                    assert(texts_view(self.unbound@) =~= cx.unbound.push(key@));
                }
            }
        }
        let ghost cx1 = self@;
        let name = match &t.var {
            Some(v) => name_from(v),
            None => {
                let a = anon_text(self.anons);
                self.anon_types.push((copy_chars(&a), copy_chars(key)));
                proof {
                    assert(type_entries(self.anon_types@) =~= cx1.anon_types.push((a@, key@)));
                }
                self.anons = self.anons + 1;
                Name { text: a, span: SpanInfo { span: 0, at_call_site: true } }
            },
        };
        let ghost cx2 = self@;
        self.decls.push(Stmt::AddNode { var: copy_chars(&name.text), typ: copy_type_ref(&t.typ) });
        proof {
            assert(stmts_view(self.decls@) =~= cx2.decls.push(StmtV::AddNode { var: name.text@, typ: t.typ.view() }));
        }
        let id = self.graph.add_node::<CompileNode>("CompileNode");
        let ghost cx3 = self@;
        if self.node_of(&name.text).is_some() {
            self.errors.push(CodegenError::VariableCollision { var: copy_chars(&name.text), span: name.span });
            proof {
                assert(errors_view(self.errors@) =~= cx3.errors.push(
                    ErrorV::VariableCollision { var: name.text@, span: name.span },
                ));
            }
        }
        self.ids.push((copy_chars(&name.text), id));
        proof {
            assert(id_entries(self.ids@) =~= cx3.ids.push((name.text@, id)));
        }
        name
    }
    fn new() -> (cx: Context)
        ensures
            cx@ == empty_ctx(),
            cx.wf(),
            cx.used() == 0,
    {
        let cx = Context {
            graph: Graph::new(),
            decls: Vec::new(),
            links: Vec::new(),
            groups: 0,
            anons: 0,
            ids: Vec::new(),
            anon_types: Vec::new(),
            unbound: Vec::new(),
            embeddings: Vec::new(),
            errors: Vec::new(),
        };
        assert(cx@.adj =~= Seq::<Seq<usize>>::empty());
        assert(cx@.decls =~= Seq::<StmtV>::empty());
        assert(cx@.links =~= Seq::<StmtV>::empty());
        assert(cx@.ids =~= Seq::<(Seq<char>, usize)>::empty());
        assert(cx@.anon_types =~= Seq::<(Seq<char>, Seq<char>)>::empty());
        assert(cx@.unbound =~= Seq::<Seq<char>>::empty());
        assert(cx@.embeddings =~= Seq::<Seq<char>>::empty());
        assert(cx@.errors =~= Seq::<ErrorV>::empty());
        cx
    }

    /// A node: its statements and its two ends.
    fn gen_node(&mut self, n: &NodeExpr) -> (r: Result<(NodeBound, NodeBound), CodegenFailure>)
        requires
            old(self).wf(),
            old(self).used() + 5 * node_size(node_view(*n)) <= usize::MAX,
        ensures
            match cg_node(old(self)@, node_view(*n)) {
                Ok((c, so, si)) => r matches Ok((a, b)) && final(self)@ == c && a.view() == so && b.view() == si
                    && final(self).wf() && final(self).used() + 3 <= old(self).used() + 5 * node_size(node_view(*n)),
                Err(e) => r == Err::<(NodeBound, NodeBound), CodegenFailure>(e),
            },
        decreases node_size(node_view(*n)), 1int,
    {
        match n {
            NodeExpr::Declaration(t) => {
                let name = self.declare(t);
                let other = copy_name(&name);
                let a = vec![name];
                let b = vec![other];
                assert(names_view(a@) =~= seq![name.view()]);
                assert(names_view(b@) =~= seq![name.view()]);
                Ok((NodeBound::Literal(a), NodeBound::Literal(b)))
            },
            NodeExpr::Binding(v) => {
                let a = vec![name_from(v)];
                let b = vec![name_from(v)];
                assert(names_view(a@) =~= seq![name_of(v.view())]);
                assert(names_view(b@) =~= seq![name_of(v.view())]);
                Ok((NodeBound::Literal(a), NodeBound::Literal(b)))
            },
            NodeExpr::Embedding(e) => {
                if !contains_text(&self.embeddings, &e.name) {
                    let ghost before = self.embeddings@;
                    self.embeddings.push(copy_chars(&e.name));
                    assert(texts_view(self.embeddings@) =~= texts_view(before).push(e.name@));
                }
                Ok((NodeBound::Graph(name_from(e)), NodeBound::Graph(name_from(e))))
            },
            NodeExpr::Group(b) => self.gen_group(b),
        }
    }

    /// A group: a parallel group collects the ends of its branches in two
    /// lists; a sequence links each branch to the next.
    fn gen_group(&mut self, b: &GroupBlock) -> (r: Result<(NodeBound, NodeBound), CodegenFailure>)
        requires
            old(self).wf(),
            old(self).used() + 5 * (1 + graphs_size(graphs_view(b.graphs@))) <= usize::MAX,
        ensures
            match cg_node(old(self)@, node_view(NodeExpr::Group(*b))) {
                Ok((c, so, si)) => r matches Ok((a, k)) && final(self)@ == c && a.view() == so && k.view() == si
                    && final(self).wf() && final(self).used() + 3 <= old(self).used() + 5 * (1 + graphs_size(graphs_view(b.graphs@))),
                Err(e) => r == Err::<(NodeBound, NodeBound), CodegenFailure>(e),
            },
        decreases 1 + graphs_size(graphs_view(b.graphs@)), 0int,
    {
        let ghost gs = graphs_view(b.graphs@);
        proof {
            assert(gs.subrange(0, gs.len() as int) =~= gs);
            lemma_graphs_view_index(b.graphs@);
        }
        match b.mode {
            SchedulingMode::Parallel => {
                let id = self.groups;
                self.groups = self.groups + 1;
                let ghost before = self.links@;
                self.links.push(Stmt::NewGroup { id });
                assert(stmts_view(self.links@) =~= stmts_view(before).push(StmtV::NewGroup { id }));
                match self.gen_branches(&b.graphs, 0, id) {
                    Err(e) => Err(e),
                    Ok(()) => Ok(
                        (
                            NodeBound::ParallelGroup(ListVar::GroupSource(id)),
                            NodeBound::ParallelGroup(ListVar::GroupSink(id)),
                        ),
                    ),
                }
            },
            SchedulingMode::Sequence => {
                if b.graphs.len() == 0 {
                    return Err(CodegenFailure::EmptySequence);
                }
                proof {
                    lemma_graphs_size_split(gs, 0);
                }
                match self.gen_graph(&b.graphs[0]) {
                    Err(e) => Err(e),
                    Ok((source, sink)) => match self.gen_sequence(&b.graphs, 1, sink) {
                        Err(e) => Err(e),
                        Ok(last) => Ok((source, last)),
                    },
                }
            },
        }
    }

    /// The branches of parallel group `id` from the `i`-th on.
    fn gen_branches(&mut self, gs: &Vec<GraphExpr>, i: usize, id: usize) -> (r: Result<(), CodegenFailure>)
        requires
            old(self).wf(),
            i <= gs@.len(),
            old(self).used() + 5 * graphs_size(graphs_view(gs@).subrange(i as int, gs@.len() as int)) <= usize::MAX,
        ensures
            match cg_branches(old(self)@, graphs_view(gs@), i as int, id) {
                Ok(c) => r is Ok && final(self)@ == c && final(self).wf()
                    && final(self).used() <= old(self).used() + 5 * graphs_size(graphs_view(gs@).subrange(i as int, gs@.len() as int)),
                Err(e) => r == Err::<(), CodegenFailure>(e),
            },
        decreases graphs_size(graphs_view(gs@).subrange(i as int, gs@.len() as int)), 1int,
    {
        proof {
            lemma_graphs_view_index(gs@);
        }
        if i >= gs.len() {
            return Ok(());
        }
        proof {
            lemma_graphs_size_split(graphs_view(gs@), i as int);
        }
        match self.gen_graph(&gs[i]) {
            Err(e) => Err(e),
            Ok((source, sink)) => {
                self.link(gs[i].span_info, &NodeBound::ParallelGroup(ListVar::GroupSource(id)), &source);
                self.link(gs[i].span_info, &sink, &NodeBound::ParallelGroup(ListVar::GroupSink(id)));
                let s1 = extend_of(ListVar::GroupSource(id), &source, true);
                push_stmt(&mut self.links, s1);
                let s2 = extend_of(ListVar::GroupSink(id), &sink, false);
                push_stmt(&mut self.links, s2);
                self.gen_branches(gs, i + 1, id)
            },
        }
    }

    /// The graphs of a sequence from the `i`-th on, each linked from the exit
    /// points `prev` of the one before; gives the exit points of the last.
    fn gen_sequence(&mut self, gs: &Vec<GraphExpr>, i: usize, prev: NodeBound) -> (r: Result<NodeBound, CodegenFailure>)
        requires
            old(self).wf(),
            i <= gs@.len(),
            old(self).used() + 5 * graphs_size(graphs_view(gs@).subrange(i as int, gs@.len() as int)) <= usize::MAX,
        ensures
            match cg_sequence(old(self)@, graphs_view(gs@), i as int, prev.view()) {
                Ok((c, last)) => r matches Ok(l) && final(self)@ == c && l.view() == last && final(self).wf()
                    && final(self).used() <= old(self).used() + 5 * graphs_size(graphs_view(gs@).subrange(i as int, gs@.len() as int)),
                Err(e) => r == Err::<NodeBound, CodegenFailure>(e),
            },
        decreases graphs_size(graphs_view(gs@).subrange(i as int, gs@.len() as int)), 1int,
    {
        proof {
            lemma_graphs_view_index(gs@);
        }
        if i >= gs.len() {
            return Ok(prev);
        }
        proof {
            lemma_graphs_size_split(graphs_view(gs@), i as int);
        }
        match self.gen_graph(&gs[i]) {
            Err(e) => Err(e),
            Ok((source, sink)) => match self.track(gs[i].span_info, &prev, &source) {
                Err(e) => Err(e),
                Ok(()) => {
                    push_stitch(&mut self.links, &prev, &source);
                    self.gen_sequence(gs, i + 1, sink)
                },
            },
        }
    }

    /// A graph: its entry, merged at once when it is an embedded graph, then
    /// each following node linked from the exit points of the one before.
    fn gen_graph(&mut self, g: &GraphExpr) -> (r: Result<(NodeBound, NodeBound), CodegenFailure>)
        requires
            old(self).wf(),
            old(self).used() + 5 * graph_size(graph_view(*g)) <= usize::MAX,
        ensures
            match cg_graph(old(self)@, graph_view(*g)) {
                Ok((c, so, si)) => r matches Ok((a, b)) && final(self)@ == c && a.view() == so && b.view() == si
                    && final(self).wf() && final(self).used() + 8 <= old(self).used() + 5 * graph_size(graph_view(*g)),
                Err(e) => r == Err::<(NodeBound, NodeBound), CodegenFailure>(e),
            },
        decreases graph_size(graph_view(*g)), 0int,
    {
        let ghost ns = nodes_view(g.conns@);
        proof {
            lemma_nodes_view_index(g.conns@);
            assert(ns.subrange(0, ns.len() as int) =~= ns);
            assert(graph_size(graph_view(*g)) == 1 + node_size(node_view(g.entry)) + nodes_size(ns));
        }
        match self.gen_node(&g.entry) {
            Err(e) => Err(e),
            Ok((source, sink)) => {
                match &source {
                    NodeBound::Graph(sub) => {
                        let none: Vec<Vec<char>> = Vec::new();
                        assert(texts_view(none@) =~= Seq::<Seq<char>>::empty());
                        push_stmt(&mut self.links, Stmt::Merge { sub: copy_chars(&sub.text), at: MergeAt::Nodes(none) });
                    },
                    _ => {},
                }
                match self.gen_conns(&g.conns, 0, sink) {
                    Err(e) => Err(e),
                    Ok(last) => Ok((source, last)),
                }
            },
        }
    }

    /// The nodes of `ns` from the `i`-th on, each linked from the exit points
    /// `prev` of the one before; gives the exit points of the last.
    fn gen_conns(&mut self, ns: &Vec<NodeExpr>, i: usize, prev: NodeBound) -> (r: Result<NodeBound, CodegenFailure>)
        requires
            old(self).wf(),
            i <= ns@.len(),
            old(self).used() + 5 * nodes_size(nodes_view(ns@).subrange(i as int, ns@.len() as int)) <= usize::MAX,
        ensures
            match cg_conns(old(self)@, nodes_view(ns@), i as int, prev.view()) {
                Ok((c, last)) => r matches Ok(l) && final(self)@ == c && l.view() == last && final(self).wf()
                    && final(self).used() <= old(self).used() + 5 * nodes_size(nodes_view(ns@).subrange(i as int, ns@.len() as int)),
                Err(e) => r == Err::<NodeBound, CodegenFailure>(e),
            },
        decreases nodes_size(nodes_view(ns@).subrange(i as int, ns@.len() as int)), 2int,
    {
        proof {
            lemma_nodes_view_index(ns@);
        }
        if i >= ns.len() {
            return Ok(prev);
        }
        proof {
            lemma_nodes_size_split(nodes_view(ns@), i as int);
        }
        match self.gen_node(&ns[i]) {
            Err(e) => Err(e),
            Ok((source, sink)) => match self.track(span_of(&ns[i]), &prev, &source) {
                Err(e) => Err(e),
                Ok(()) => {
                    push_stitch(&mut self.links, &prev, &source);
                    self.gen_conns(ns, i + 1, sink)
                },
            },
        }
    }

    /// The statements of a program, graph after graph from the `i`-th on.
    fn gen_program(&mut self, gs: &Vec<GraphExpr>, i: usize) -> (r: Result<(), CodegenFailure>)
        requires
            old(self).wf(),
            i <= gs@.len(),
            old(self).used() + 5 * graphs_size(graphs_view(gs@).subrange(i as int, gs@.len() as int)) <= usize::MAX,
        ensures
            match cg_program(old(self)@, graphs_view(gs@), i as int) {
                Ok(c) => r is Ok && final(self)@ == c,
                Err(e) => r == Err::<(), CodegenFailure>(e),
            },
        decreases gs@.len() - i,
    {
        proof {
            lemma_graphs_view_index(gs@);
        }
        if i >= gs.len() {
            return Ok(());
        }
        proof {
            lemma_graphs_size_split(graphs_view(gs@), i as int);
        }
        match self.gen_graph(&gs[i]) {
            Err(e) => Err(e),
            Ok(_) => self.gen_program(gs, i + 1),
        }
    }
}

/// Turns a syntax tree into the plan that builds the graph it describes, with
/// the errors found on the way; fails where the program uses a variable before
/// declaring it. The size bound keeps the counters of the compile-time graph
/// within `usize`.
pub fn generate(ast: SyntaxTree) -> (r: Result<Plan, CodegenFailure>)
    requires
        5 * graphs_size(ast.view().graphs) <= usize::MAX,
    ensures
        match plan_of(ast.view()) {
            Ok(p) => r matches Ok(q) && q.view() == p,
            Err(e) => r == Err::<Plan, CodegenFailure>(e),
        },
{
    let mut cx = Context::new();
    let ghost gs = graphs_view(ast.graphs@);
    proof {
        lemma_graphs_view_index(ast.graphs@);
    }
    assert(gs.subrange(0, gs.len() as int) =~= gs);
    match cx.gen_program(&ast.graphs, 0) {
        Err(e) => Err(e),
        Ok(()) => Ok(Plan { decls: cx.decls, links: cx.links, errors: cx.errors }),
    }
}

/// The size of a node, if it fits in `usize`.
fn size_of_node(n: &NodeExpr) -> (r: Option<usize>)
    ensures
        r matches Some(k) ==> k == node_size(node_view(*n)),
        r is None ==> node_size(node_view(*n)) > usize::MAX,
    decreases node_size(node_view(*n)), 1int,
{
    match n {
        NodeExpr::Group(b) => {
            let ghost gs = graphs_view(b.graphs@);
            proof {
                lemma_graphs_view_index(b.graphs@);
                assert(gs.subrange(0, gs.len() as int) =~= gs);
            }
            match size_of_graphs(&b.graphs, 0) {
                Some(k) => k.checked_add(1),
                None => None,
            }
        },
        _ => Some(1),
    }
}

/// The size of a graph, if it fits in `usize`.
fn size_of_graph(g: &GraphExpr) -> (r: Option<usize>)
    ensures
        r matches Some(k) ==> k == graph_size(graph_view(*g)),
        r is None ==> graph_size(graph_view(*g)) > usize::MAX,
    decreases graph_size(graph_view(*g)), 0int,
{
    let ghost ns = nodes_view(g.conns@);
    proof {
        lemma_nodes_view_index(g.conns@);
        assert(ns.subrange(0, ns.len() as int) =~= ns);
    }
    match (size_of_node(&g.entry), size_of_nodes(&g.conns, 0)) {
        (Some(e), Some(c)) => match e.checked_add(c) {
            Some(t) => t.checked_add(1),
            None => None,
        },
        _ => None,
    }
}

/// The size of the nodes of `ns` from the `i`-th on, if it fits in `usize`.
fn size_of_nodes(ns: &Vec<NodeExpr>, i: usize) -> (r: Option<usize>)
    requires
        i <= ns@.len(),
    ensures
        r matches Some(k) ==> k == nodes_size(nodes_view(ns@).subrange(i as int, ns@.len() as int)),
        r is None ==> nodes_size(nodes_view(ns@).subrange(i as int, ns@.len() as int)) > usize::MAX,
    decreases nodes_size(nodes_view(ns@).subrange(i as int, ns@.len() as int)), 2int,
{
    proof {
        lemma_nodes_view_index(ns@);
    }
    if i >= ns.len() {
        assert(nodes_view(ns@).subrange(i as int, ns@.len() as int) =~= Seq::<crate::dsl::ast::NodeExprV>::empty());
        return Some(0);
    }
    proof {
        lemma_nodes_size_split(nodes_view(ns@), i as int);
    }
    match (size_of_node(&ns[i]), size_of_nodes(ns, i + 1)) {
        (Some(a), Some(b)) => a.checked_add(b),
        _ => None,
    }
}

/// The size of the graphs of `gs` from the `i`-th on, if it fits in `usize`.
fn size_of_graphs(gs: &Vec<GraphExpr>, i: usize) -> (r: Option<usize>)
    requires
        i <= gs@.len(),
    ensures
        r matches Some(k) ==> k == graphs_size(graphs_view(gs@).subrange(i as int, gs@.len() as int)),
        r is None ==> graphs_size(graphs_view(gs@).subrange(i as int, gs@.len() as int)) > usize::MAX,
    decreases graphs_size(graphs_view(gs@).subrange(i as int, gs@.len() as int)), 2int,
{
    proof {
        lemma_graphs_view_index(gs@);
    }
    if i >= gs.len() {
        assert(graphs_view(gs@).subrange(i as int, gs@.len() as int) =~= Seq::<crate::dsl::ast::GraphV>::empty());
        return Some(0);
    }
    proof {
        lemma_graphs_size_split(graphs_view(gs@), i as int);
    }
    match (size_of_graph(&gs[i]), size_of_graphs(gs, i + 1)) {
        (Some(a), Some(b)) => a.checked_add(b),
        _ => None,
    }
}

/// Whether [`generate`] accepts the tree: its size, counted over every node,
/// group and graph, is at most a fifth of `usize::MAX`.
pub fn within_limits(ast: &SyntaxTree) -> (r: bool)
    ensures
        r == (5 * graphs_size(ast.view().graphs) <= usize::MAX),
{
    let ghost gs = graphs_view(ast.graphs@);
    proof {
        lemma_graphs_view_index(ast.graphs@);
        assert(gs.subrange(0, gs.len() as int) =~= gs);
    }
    match size_of_graphs(&ast.graphs, 0) {
        Some(n) => n <= usize::MAX / 5,
        None => false,
    }
}

} // verus!
