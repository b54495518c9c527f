//! Turning a [`SyntaxTree`] into a plan: the statements that build the graph it
//! describes, and the errors found on the way. Circular dependencies are found
//! by mirroring every link in a compile-time graph and ordering it after each one.
use vstd::prelude::*;

use crate::adjacency::is_acyclic;
use crate::dsl::ast::{SyntaxTree, Task};
use crate::dsl::parser::copy_chars;
use crate::graph::Graph;
use crate::dsl::ast::{
    GraphV, GroupBlockV, IdentV, NodeExprV, SchedulingMode, SpanInfo, SyntaxTreeV, TaskV, TypeRefV,
};

verus! {

// ---------------------------------------------------------------------------
// The plan
// ---------------------------------------------------------------------------

/// A list of node ids that the built program keeps in a variable: the sources
/// or sinks of an embedded graph, or of a parallel group.
pub enum ListVar {
    GraphSource(Vec<char>),
    GraphSink(Vec<char>),
    GroupSource(usize),
    GroupSink(usize),
}

/// Where an embedded graph is attached.
pub enum MergeAt {
    /// At the nodes held by these variables (none: appended apart).
    Nodes(Vec<Vec<char>>),
    /// At the ids of a list, handing the list over.
    Moved(ListVar),
    /// At the ids of a list, keeping a copy of it.
    Cloned(ListVar),
}

/// One statement of the plan; `G` is the graph being built.
pub enum Stmt {
    /// `let var = G.add_node::<typ>();`
    AddNode { var: Vec<char>, typ: crate::dsl::ast::TypeRef },
    /// `G.add_edge(from, to);`
    AddEdge { from: Vec<char>, to: Vec<char> },
    /// `let merged = G.merge(&sub, at);` then `sub`'s source and sink lists are
    /// set from `merged`.
    Merge { sub: Vec<char>, at: MergeAt },
    /// Two empty lists, the source and sink lists of parallel group `id`.
    NewGroup { id: usize },
    /// `list.extend(vec![ids..])`
    ExtendNodes { list: ListVar, ids: Vec<Vec<char>> },
    /// `list.extend(with)`
    ExtendList { list: ListVar, with: ListVar },
    /// An edge from every id of `from` to `to`.
    EdgesFromList { from: ListVar, to: Vec<char> },
    /// An edge from `from` to every id of `to`.
    EdgesToList { from: Vec<char>, to: ListVar },
    /// An edge from every id of `from` to every id of `to`.
    EdgesBetweenLists { from: ListVar, to: ListVar },
}

/// An error found in the program.
pub enum CodegenError {
    /// A type declared twice without a variable; `span` is the second one's.
    DuplicateUnboundType { type_key: Vec<char>, span: usize },
    /// Linking `from` to `to` closes a cycle.
    CircularDependency { from: Vec<char>, to: Vec<char>, span: SpanInfo },
    /// A variable declared twice.
    VariableCollision { var: Vec<char>, span: SpanInfo },
}

/// Declarations first, then links, then the errors to report.
pub struct Plan {
    pub decls: Vec<Stmt>,
    pub links: Vec<Stmt>,
    pub errors: Vec<CodegenError>,
}

/// Why no plan can be made: a lookup that the program needs fails (a binding
/// `[var]` used in a link before any declaration of `var`), or a sequence group
/// is empty.
#[derive(Debug, Clone, Copy, PartialEq, Eq, Structural)]
pub enum CodegenFailure {
    MissingSourceNode,
    MissingTargetNode,
    /// A sequence group without any graph, which the parser never produces.
    EmptySequence,
}

// ---------------------------------------------------------------------------
// The model of the plan
// ---------------------------------------------------------------------------

pub enum ListVarV {
    GraphSource(Seq<char>),
    GraphSink(Seq<char>),
    GroupSource(usize),
    GroupSink(usize),
}

pub enum MergeAtV {
    Nodes(Seq<Seq<char>>),
    Moved(ListVarV),
    Cloned(ListVarV),
}

pub enum StmtV {
    AddNode { var: Seq<char>, typ: TypeRefV },
    AddEdge { from: Seq<char>, to: Seq<char> },
    Merge { sub: Seq<char>, at: MergeAtV },
    NewGroup { id: usize },
    ExtendNodes { list: ListVarV, ids: Seq<Seq<char>> },
    ExtendList { list: ListVarV, with: ListVarV },
    EdgesFromList { from: ListVarV, to: Seq<char> },
    EdgesToList { from: Seq<char>, to: ListVarV },
    EdgesBetweenLists { from: ListVarV, to: ListVarV },
}

pub enum ErrorV {
    DuplicateUnboundType { type_key: Seq<char>, span: usize },
    CircularDependency { from: Seq<char>, to: Seq<char>, span: SpanInfo },
    VariableCollision { var: Seq<char>, span: SpanInfo },
}

pub struct PlanV {
    pub decls: Seq<StmtV>,
    pub links: Seq<StmtV>,
    pub errors: Seq<ErrorV>,
}

pub open spec fn texts_view(s: Seq<Vec<char>>) -> Seq<Seq<char>> {
    s.map_values(|t: Vec<char>| t@)
}

impl ListVar {
    pub open spec fn view(&self) -> ListVarV {
        match self {
            ListVar::GraphSource(n) => ListVarV::GraphSource(n@),
            ListVar::GraphSink(n) => ListVarV::GraphSink(n@),
            ListVar::GroupSource(i) => ListVarV::GroupSource(*i),
            ListVar::GroupSink(i) => ListVarV::GroupSink(*i),
        }
    }
}

impl MergeAt {
    pub open spec fn view(&self) -> MergeAtV {
        match self {
            MergeAt::Nodes(ids) => MergeAtV::Nodes(texts_view(ids@)),
            MergeAt::Moved(l) => MergeAtV::Moved(l.view()),
            MergeAt::Cloned(l) => MergeAtV::Cloned(l.view()),
        }
    }
}

impl Stmt {
    pub open spec fn view(&self) -> StmtV {
        match self {
            Stmt::AddNode { var, typ } => StmtV::AddNode { var: var@, typ: typ.view() },
            Stmt::AddEdge { from, to } => StmtV::AddEdge { from: from@, to: to@ },
            Stmt::Merge { sub, at } => StmtV::Merge { sub: sub@, at: at.view() },
            Stmt::NewGroup { id } => StmtV::NewGroup { id: *id },
            Stmt::ExtendNodes { list, ids } => StmtV::ExtendNodes { list: list.view(), ids: texts_view(ids@) },
            Stmt::ExtendList { list, with } => StmtV::ExtendList { list: list.view(), with: with.view() },
            Stmt::EdgesFromList { from, to } => StmtV::EdgesFromList { from: from.view(), to: to@ },
            Stmt::EdgesToList { from, to } => StmtV::EdgesToList { from: from@, to: to.view() },
            Stmt::EdgesBetweenLists { from, to } => StmtV::EdgesBetweenLists { from: from.view(), to: to.view() },
        }
    }
}

impl CodegenError {
    pub open spec fn view(&self) -> ErrorV {
        match self {
            CodegenError::DuplicateUnboundType { type_key, span } => ErrorV::DuplicateUnboundType {
                type_key: type_key@,
                span: *span,
            },
            CodegenError::CircularDependency { from, to, span } => ErrorV::CircularDependency {
                from: from@,
                to: to@,
                span: *span,
            },
            CodegenError::VariableCollision { var, span } => ErrorV::VariableCollision { var: var@, span: *span },
        }
    }
}

pub open spec fn stmts_view(s: Seq<Stmt>) -> Seq<StmtV> {
    s.map_values(|t: Stmt| t.view())
}

pub open spec fn errors_view(s: Seq<CodegenError>) -> Seq<ErrorV> {
    s.map_values(|e: CodegenError| e.view())
}

impl Plan {
    pub open spec fn view(&self) -> PlanV {
        PlanV { decls: stmts_view(self.decls@), links: stmts_view(self.links@), errors: errors_view(self.errors@) }
    }
}

// ---------------------------------------------------------------------------
// Names
// ---------------------------------------------------------------------------

/// The decimal digits of `n`.
pub open spec fn decimal(n: nat) -> Seq<char>
    decreases n,
{
    if n < 10 {
        seq![digit(n)]
    } else {
        decimal(n / 10).push(digit(n % 10))
    }
}

pub open spec fn digit(d: nat) -> char {
    if d == 0 { '0' } else if d == 1 { '1' } else if d == 2 { '2' } else if d == 3 { '3' }
    else if d == 4 { '4' } else if d == 5 { '5' } else if d == 6 { '6' } else if d == 7 { '7' }
    else if d == 8 { '8' } else { '9' }
}

/// The variable of the `n`-th anonymous declaration: `anon_n`.
pub open spec fn anon_name(n: nat) -> Seq<char> {
    seq!['a', 'n', 'o', 'n', '_'] + decimal(n)
}

/// The name of a list variable, as the built program spells it.
pub open spec fn list_name(l: ListVarV) -> Seq<char> {
    match l {
        ListVarV::GraphSource(g) => seq!['_'] + g + seq!['_', 's', 'o', 'u', 'r', 'c', 'e'],
        ListVarV::GraphSink(g) => seq!['_'] + g + seq!['_', 's', 'i', 'n', 'k'],
        ListVarV::GroupSource(i) => seq!['g', 'r', 'o', 'u', 'p', '_'] + decimal(i as nat) + seq![
            '_',
            's',
            'o',
            'u',
            'r',
            'c',
            'e',
        ],
        ListVarV::GroupSink(i) => seq!['g', 'r', 'o', 'u', 'p', '_'] + decimal(i as nat) + seq![
            '_',
            's',
            'i',
            'n',
            'k',
        ],
    }
}

// ---------------------------------------------------------------------------
// Sizes of the syntax, which bound the recursion
// ---------------------------------------------------------------------------

pub open spec fn node_size(n: NodeExprV) -> nat
    decreases n,
{
    match n {
        NodeExprV::Group(b) => 1 + graphs_size(b.graphs),
        _ => 1,
    }
}

pub open spec fn graph_size(g: GraphV) -> nat
    decreases g,
{
    1 + node_size(g.entry) + nodes_size(g.conns)
}

pub open spec fn nodes_size(ns: Seq<NodeExprV>) -> nat
    decreases ns,
{
    if ns.len() == 0 {
        0
    } else {
        nodes_size(ns.drop_last()) + node_size(ns.last())
    }
}

pub open spec fn graphs_size(gs: Seq<GraphV>) -> nat
    decreases gs,
{
    if gs.len() == 0 {
        0
    } else {
        graphs_size(gs.drop_last()) + graph_size(gs.last())
    }
}

pub proof fn lemma_nodes_size_split(ns: Seq<NodeExprV>, i: int)
    requires
        0 <= i < ns.len(),
    ensures
        nodes_size(ns.subrange(i, ns.len() as int)) == node_size(ns[i]) + nodes_size(ns.subrange(i + 1, ns.len() as int)),
        node_size(ns[i]) >= 1,
    decreases ns.len() - i,
{
    let a = ns.subrange(i, ns.len() as int);
    if i == ns.len() - 1 {
        assert(a.drop_last() =~= Seq::<NodeExprV>::empty());
        assert(ns.subrange(i + 1, ns.len() as int) =~= Seq::<NodeExprV>::empty());
    } else {
        lemma_nodes_size_split(ns.drop_last(), i);
        assert(a.drop_last() =~= ns.drop_last().subrange(i, ns.len() - 1));
        assert(ns.subrange(i + 1, ns.len() as int).drop_last() =~= ns.drop_last().subrange(i + 1, ns.len() - 1));
    }
}

pub proof fn lemma_graphs_size_split(gs: Seq<GraphV>, i: int)
    requires
        0 <= i < gs.len(),
    ensures
        graphs_size(gs.subrange(i, gs.len() as int)) == graph_size(gs[i]) + graphs_size(gs.subrange(i + 1, gs.len() as int)),
        graph_size(gs[i]) >= 1,
    decreases gs.len() - i,
{
    let a = gs.subrange(i, gs.len() as int);
    if i == gs.len() - 1 {
        assert(a.drop_last() =~= Seq::<GraphV>::empty());
        assert(gs.subrange(i + 1, gs.len() as int) =~= Seq::<GraphV>::empty());
    } else {
        lemma_graphs_size_split(gs.drop_last(), i);
        assert(a.drop_last() =~= gs.drop_last().subrange(i, gs.len() - 1));
        assert(gs.subrange(i + 1, gs.len() as int).drop_last() =~= gs.drop_last().subrange(i + 1, gs.len() - 1));
    }
}

// ---------------------------------------------------------------------------
// The model of code generation
// ---------------------------------------------------------------------------

/// A name in the program, and where it was written.
pub struct NameV {
    pub text: Seq<char>,
    pub span: SpanInfo,
}

/// One end of a piece of graph: plain nodes, an embedded graph, or a parallel
/// group's list.
pub enum NodeBoundV {
    Literal(Seq<NameV>),
    Graph(NameV),
    ParallelGroup(ListVarV),
}

/// The state of code generation.
pub struct CtxV {
    /// The compile-time graph: one node per declared variable, embedded graph
    /// and group list, one edge per link between them.
    pub adj: Seq<Seq<usize>>,
    pub decls: Seq<StmtV>,
    pub links: Seq<StmtV>,
    pub groups: nat,
    pub anons: nat,
    /// The compile-time node of each name, the latest entry winning.
    pub ids: Seq<(Seq<char>, usize)>,
    /// The type of each anonymous variable.
    pub anon_types: Seq<(Seq<char>, Seq<char>)>,
    /// The types declared without a variable.
    pub unbound: Seq<Seq<char>>,
    pub embeddings: Seq<Seq<char>>,
    pub errors: Seq<ErrorV>,
}

/// The value of the latest entry for `k`.
pub open spec fn lookup<V>(m: Seq<(Seq<char>, V)>, k: Seq<char>) -> Option<V>
    decreases m.len(),
{
    if m.len() == 0 {
        Option::None
    } else if m.last().0 == k {
        Some(m.last().1)
    } else {
        lookup(m.drop_last(), k)
    }
}

/// A value found by [`lookup`] is one of the entries' values.
pub proof fn lemma_lookup_below(m: Seq<(Seq<char>, usize)>, k: Seq<char>, n: nat)
    requires
        forall|i: int| 0 <= i < m.len() ==> (#[trigger] m[i]).1 < n,
    ensures
        lookup(m, k) matches Some(v) ==> v < n,
    decreases m.len(),
{
    if m.len() > 0 {
        lemma_lookup_below(m.drop_last(), k, n);
    }
}

/// [`lookup_all`] succeeds exactly when every name is found, and then gives
/// what [`lookup`] gives for each.
pub proof fn lemma_lookup_all(ids: Seq<(Seq<char>, usize)>, names: Seq<NameV>)
    ensures
        lookup_all(ids, names) is Some <==> forall|j: int| 0 <= j < names.len() ==> (#[trigger] lookup(ids, names[j].text)) is Some,
        lookup_all(ids, names) matches Some(s) ==> s.len() == names.len() && forall|j: int|
            0 <= j < names.len() ==> Some(#[trigger] s[j]) == lookup(ids, names[j].text),
    decreases names.len(),
{
    if names.len() > 0 {
        let p = names.drop_last();
        let n = names.len() - 1;
        lemma_lookup_all(ids, p);
        assert forall|j: int| 0 <= j < p.len() implies #[trigger] p[j] == names[j] by {}
        if forall|j: int| 0 <= j < names.len() ==> (#[trigger] lookup(ids, names[j].text)) is Some {
            assert forall|j: int| 0 <= j < p.len() implies (#[trigger] lookup(ids, p[j].text)) is Some by {
                assert(lookup(ids, names[j].text) is Some);
            }
            assert(lookup(ids, names[n].text) is Some);
            assert(lookup_all(ids, names) is Some);
        }
        if lookup_all(ids, names) is Some {
            assert forall|j: int| 0 <= j < names.len() implies (#[trigger] lookup(ids, names[j].text)) is Some by {
                if j < n {
                    assert(lookup(ids, p[j].text) is Some);
                }
            }
        }
    }
}

/// `adj` with the edge `f -> t`, unless it is there already.
pub open spec fn with_edge(adj: Seq<Seq<usize>>, f: usize, t: usize) -> Seq<Seq<usize>> {
    if adj[f as int].contains(t) {
        adj
    } else {
        adj.update(f as int, adj[f as int].push(t))
    }
}

/// `adj` with the edges from `f` to each of `to`, in order.
pub open spec fn with_edges_from(adj: Seq<Seq<usize>>, f: usize, to: Seq<usize>) -> Seq<Seq<usize>>
    decreases to.len(),
{
    if to.len() == 0 {
        adj
    } else {
        with_edge(with_edges_from(adj, f, to.drop_last()), f, to.last())
    }
}

/// `adj` with the edges from each of `from` to each of `to`, `from` outermost.
pub open spec fn with_edges(adj: Seq<Seq<usize>>, from: Seq<usize>, to: Seq<usize>) -> Seq<Seq<usize>>
    decreases from.len(),
{
    if from.len() == 0 {
        adj
    } else {
        with_edges_from(with_edges(adj, from.drop_last(), to), from.last(), to)
    }
}

pub open spec fn empty_ctx() -> CtxV {
    CtxV {
        adj: Seq::empty(),
        decls: Seq::empty(),
        links: Seq::empty(),
        groups: 0,
        anons: 0,
        ids: Seq::empty(),
        anon_types: Seq::empty(),
        unbound: Seq::empty(),
        embeddings: Seq::empty(),
        errors: Seq::empty(),
    }
}

pub open spec fn name_of(id: IdentV) -> NameV {
    NameV { text: id.name, span: SpanInfo { span: id.span, at_call_site: false } }
}

/// Declares a task: notes a repeated anonymous type, names the variable
/// (`anon_n` when none is written), adds the declaration and a compile-time
/// node, and notes a repeated variable.
pub open spec fn cg_declare(cx: CtxV, t: TaskV) -> (CtxV, NameV) {
    let key = t.typ.key;
    let cx1 = if t.var is None {
        CtxV {
            errors: if cx.unbound.contains(key) {
                cx.errors.push(ErrorV::DuplicateUnboundType { type_key: key, span: t.typ.span })
            } else {
                cx.errors
            },
            unbound: if cx.unbound.contains(key) {
                cx.unbound
            } else {
                cx.unbound.push(key)
            },
            ..cx
        }
    } else {
        cx
    };
    let (cx2, name) = match t.var {
        Some(v) => (cx1, name_of(v)),
        Option::None => {
            let a = anon_name(cx1.anons);
            (
                CtxV { anon_types: cx1.anon_types.push((a, key)), anons: cx1.anons + 1, ..cx1 },
                NameV { text: a, span: SpanInfo { span: 0, at_call_site: true } },
            )
        },
    };
    let id = cx2.adj.len() as usize;
    let cx3 = CtxV {
        decls: cx2.decls.push(StmtV::AddNode { var: name.text, typ: t.typ }),
        adj: cx2.adj.push(Seq::empty()),
        ..cx2
    };
    (
        CtxV {
            errors: if lookup(cx3.ids, name.text) is Some {
                cx3.errors.push(ErrorV::VariableCollision { var: name.text, span: name.span })
            } else {
                cx3.errors
            },
            ids: cx3.ids.push((name.text, id)),
            ..cx3
        },
        name,
    )
}

/// The compile-time node of a group list or embedded graph, made on first use.
pub open spec fn cg_graph_as_node(cx: CtxV, text: Seq<char>) -> (CtxV, usize) {
    match lookup(cx.ids, text) {
        Some(i) => (cx, i),
        Option::None => {
            let i = cx.adj.len() as usize;
            (CtxV { adj: cx.adj.push(Seq::empty()), ids: cx.ids.push((text, i)), ..cx }, i)
        },
    }
}

/// The compile-time nodes of declared names, if all are declared.
pub open spec fn lookup_all(ids: Seq<(Seq<char>, usize)>, names: Seq<NameV>) -> Option<Seq<usize>>
    decreases names.len(),
{
    if names.len() == 0 {
        Some(Seq::empty())
    } else {
        match (lookup_all(ids, names.drop_last()), lookup(ids, names.last().text)) {
            (Some(s), Some(i)) => Some(s.push(i)),
            _ => Option::None,
        }
    }
}

/// The compile-time nodes that stand for one end of a link.
pub open spec fn cg_bound_ids(cx: CtxV, b: NodeBoundV) -> Option<(CtxV, Seq<usize>)> {
    match b {
        NodeBoundV::Literal(names) => match lookup_all(cx.ids, names) {
            Some(s) => Some((cx, s)),
            Option::None => Option::None,
        },
        NodeBoundV::Graph(g) => {
            let (cx1, i) = cg_graph_as_node(cx, g.text);
            Some((cx1, seq![i]))
        },
        NodeBoundV::ParallelGroup(l) => {
            let (cx1, i) = cg_graph_as_node(cx, list_name(l));
            Some((cx1, seq![i]))
        },
    }
}

pub open spec fn word_node() -> Seq<char> {
    seq!['n', 'o', 'd', 'e']
}

/// How the upstream end of a cyclic link is reported.
pub open spec fn from_name(cx: CtxV, b: NodeBoundV) -> Seq<char> {
    match b {
        NodeBoundV::Literal(names) => if names.len() > 0 {
            match lookup(cx.anon_types, names[0].text) {
                Some(k) => k,
                Option::None => word_node(),
            }
        } else {
            word_node()
        },
        NodeBoundV::Graph(g) => seq!['#', '['] + g.text + seq![']'],
        NodeBoundV::ParallelGroup(l) => seq!['(', 'g', 'r', 'o', 'u', 'p', ':', ' '] + list_name(l) + seq![')'],
    }
}

/// How the downstream end of a cyclic link is reported.
pub open spec fn to_name(b: NodeBoundV) -> Seq<char> {
    match b {
        NodeBoundV::Literal(names) => if names.len() > 0 {
            names[0].text
        } else {
            word_node()
        },
        NodeBoundV::Graph(g) => seq!['#', '['] + g.text + seq![']'],
        NodeBoundV::ParallelGroup(l) => seq!['(', 'g', 'r', 'o', 'u', 'p', ':', ' '] + list_name(l) + seq![')'],
    }
}

/// The compile-time nodes of the declared names among `names`, in order.
pub open spec fn lookup_some(ids: Seq<(Seq<char>, usize)>, names: Seq<NameV>) -> Seq<usize>
    decreases names.len(),
{
    if names.len() == 0 {
        Seq::empty()
    } else {
        lookup_some(ids, names.drop_last()) + match lookup(ids, names.last().text) {
            Some(i) => seq![i],
            Option::None => Seq::empty(),
        }
    }
}

/// The compile-time nodes that stand for one end of a link inside a group:
/// as [`cg_bound_ids`], with names not declared yet left out.
pub open spec fn cg_bound_ids_found(cx: CtxV, b: NodeBoundV) -> (CtxV, Seq<usize>) {
    match b {
        NodeBoundV::Literal(names) => (cx, lookup_some(cx.ids, names)),
        NodeBoundV::Graph(g) => {
            let (cx1, i) = cg_graph_as_node(cx, g.text);
            (cx1, seq![i])
        },
        NodeBoundV::ParallelGroup(l) => {
            let (cx1, i) = cg_graph_as_node(cx, list_name(l));
            (cx1, seq![i])
        },
    }
}

/// Adds the edges from each of `f` to each of `t`, and reports a cycle if the
/// graph has one afterwards.
pub open spec fn cg_add_links(
    cx: CtxV,
    span: SpanInfo,
    from: NodeBoundV,
    to: NodeBoundV,
    f: Seq<usize>,
    t: Seq<usize>,
) -> CtxV {
    let adj = with_edges(cx.adj, f, t);
    CtxV {
        adj,
        errors: if is_acyclic(adj) {
            cx.errors
        } else {
            cx.errors.push(ErrorV::CircularDependency { from: from_name(cx, from), to: to_name(to), span })
        },
        ..cx
    }
}

/// Mirrors a link in the compile-time graph, and reports a cycle if the graph
/// has one afterwards.
pub open spec fn cg_track(cx: CtxV, span: SpanInfo, from: NodeBoundV, to: NodeBoundV) -> Result<CtxV, CodegenFailure> {
    match cg_bound_ids(cx, from) {
        Option::None => Err(CodegenFailure::MissingSourceNode),
        Some((cx1, f)) => match cg_bound_ids(cx1, to) {
            Option::None => Err(CodegenFailure::MissingTargetNode),
            Some((cx2, t)) => Ok(cg_add_links(cx2, span, from, to, f, t)),
        },
    }
}

/// Mirrors a link inside a parallel group, between the group's source or sink
/// list and one end of a branch, and reports a cycle if the graph has one
/// afterwards.
pub open spec fn cg_link(cx: CtxV, span: SpanInfo, from: NodeBoundV, to: NodeBoundV) -> CtxV {
    let (cx1, f) = cg_bound_ids_found(cx, from);
    let (cx2, t) = cg_bound_ids_found(cx1, to);
    cg_add_links(cx2, span, from, to, f, t)
}

pub open spec fn edge_stmts(from: Seq<NameV>, to: Seq<NameV>) -> Seq<StmtV>
    decreases from.len(),
{
    if from.len() == 0 {
        Seq::empty()
    } else {
        edge_stmts(from.drop_last(), to) + to.map_values(|t: NameV| StmtV::AddEdge { from: from.last().text, to: t.text })
    }
}

pub open spec fn names_text(ns: Seq<NameV>) -> Seq<Seq<char>> {
    ns.map_values(|n: NameV| n.text)
}

/// The statements that link every exit point of `up` to every entry point of `down`.
pub open spec fn stitch_stmts(up: NodeBoundV, down: NodeBoundV) -> Seq<StmtV> {
    match (up, down) {
        (NodeBoundV::Literal(from), NodeBoundV::Literal(to)) => edge_stmts(from, to),
        (NodeBoundV::Graph(f), NodeBoundV::Graph(t)) => seq![
            StmtV::Merge { sub: t.text, at: MergeAtV::Moved(ListVarV::GraphSink(f.text)) },
        ],
        (NodeBoundV::Literal(from), NodeBoundV::Graph(t)) => seq![
            StmtV::Merge { sub: t.text, at: MergeAtV::Nodes(names_text(from)) },
        ],
        (NodeBoundV::Graph(f), NodeBoundV::Literal(to)) => to.map_values(
            |t: NameV| StmtV::EdgesFromList { from: ListVarV::GraphSink(f.text), to: t.text },
        ),
        (NodeBoundV::ParallelGroup(f), NodeBoundV::Literal(to)) => to.map_values(
            |t: NameV| StmtV::EdgesFromList { from: f, to: t.text },
        ),
        (NodeBoundV::Literal(from), NodeBoundV::ParallelGroup(t)) => from.map_values(
            |f: NameV| StmtV::EdgesToList { from: f.text, to: t },
        ),
        (NodeBoundV::ParallelGroup(f), NodeBoundV::Graph(t)) => seq![
            StmtV::Merge { sub: t.text, at: MergeAtV::Cloned(f) },
        ],
        (NodeBoundV::Graph(f), NodeBoundV::ParallelGroup(t)) => seq![
            StmtV::EdgesBetweenLists { from: ListVarV::GraphSink(f.text), to: t },
        ],
        (NodeBoundV::ParallelGroup(f), NodeBoundV::ParallelGroup(t)) => seq![
            StmtV::EdgesBetweenLists { from: f, to: t },
        ],
    }
}

/// The statement that adds one end of a branch to a group list.
pub open spec fn extend_stmt(list: ListVarV, b: NodeBoundV, source: bool) -> StmtV {
    match b {
        NodeBoundV::Literal(ids) => StmtV::ExtendNodes { list, ids: names_text(ids) },
        NodeBoundV::Graph(g) => StmtV::ExtendList {
            list,
            with: if source {
                ListVarV::GraphSource(g.text)
            } else {
                ListVarV::GraphSink(g.text)
            },
        },
        NodeBoundV::ParallelGroup(l) => StmtV::ExtendList { list, with: l },
    }
}

/// Where a node is reported when a link to it closes a cycle.
pub open spec fn node_span(n: NodeExprV) -> SpanInfo {
    match n {
        NodeExprV::Declaration(t) => match t.var {
            Some(v) => SpanInfo { span: v.span, at_call_site: false },
            Option::None => SpanInfo { span: t.typ.span, at_call_site: false },
        },
        NodeExprV::Binding(v) => SpanInfo { span: v.span, at_call_site: false },
        NodeExprV::Embedding(v) => SpanInfo { span: v.span, at_call_site: false },
        NodeExprV::Group(b) => b.span_info,
    }
}

/// A node: its statements and its two ends.
pub open spec fn cg_node(cx: CtxV, n: NodeExprV) -> Result<(CtxV, NodeBoundV, NodeBoundV), CodegenFailure>
    decreases node_size(n), 1int,
{
    match n {
        NodeExprV::Declaration(t) => {
            let (cx1, name) = cg_declare(cx, t);
            Ok((cx1, NodeBoundV::Literal(seq![name]), NodeBoundV::Literal(seq![name])))
        },
        NodeExprV::Binding(v) => Ok((cx, NodeBoundV::Literal(seq![name_of(v)]), NodeBoundV::Literal(seq![name_of(v)]))),
        NodeExprV::Embedding(e) => Ok(
            (
                CtxV {
                    embeddings: if cx.embeddings.contains(e.name) {
                        cx.embeddings
                    } else {
                        cx.embeddings.push(e.name)
                    },
                    ..cx
                },
                NodeBoundV::Graph(name_of(e)),
                NodeBoundV::Graph(name_of(e)),
            ),
        ),
        NodeExprV::Group(b) => cg_group(cx, b),
    }
}

/// A group: a parallel group collects the ends of its branches in two lists; a
/// sequence links each branch to the next.
pub open spec fn cg_group(cx: CtxV, b: GroupBlockV) -> Result<(CtxV, NodeBoundV, NodeBoundV), CodegenFailure>
    decreases 1 + graphs_size(b.graphs), 0int,
{
    {
        proof {
            assert(b.graphs.subrange(0, b.graphs.len() as int) =~= b.graphs);
        }
        match b.mode {
            SchedulingMode::Parallel => {
                let id = cx.groups as usize;
                let cx1 = CtxV { groups: cx.groups + 1, links: cx.links.push(StmtV::NewGroup { id }), ..cx };
                match cg_branches(cx1, b.graphs, 0, id) {
                    Err(e) => Err(e),
                    Ok(cx2) => Ok(
                        (
                            cx2,
                            NodeBoundV::ParallelGroup(ListVarV::GroupSource(id)),
                            NodeBoundV::ParallelGroup(ListVarV::GroupSink(id)),
                        ),
                    ),
                }
            },
            SchedulingMode::Sequence => if b.graphs.len() == 0 {
                Err(CodegenFailure::EmptySequence)
            } else {
                proof {
                    lemma_graphs_size_split(b.graphs, 0);
                }
                match cg_graph(cx, b.graphs[0]) {
                    Err(e) => Err(e),
                    Ok((cx1, source, sink)) => match cg_sequence(cx1, b.graphs, 1, sink) {
                        Err(e) => Err(e),
                        Ok((cx2, last)) => Ok((cx2, source, last)),
                    },
                }
            },
        }
    }
}

/// The branches of parallel group `id` from the `i`-th on: each is linked from
/// the group's source list and into its sink list, so that the group's two
/// compile-time nodes are joined through its branches.
pub open spec fn cg_branches(cx: CtxV, gs: Seq<GraphV>, i: int, id: usize) -> Result<CtxV, CodegenFailure>
    decreases graphs_size(gs.subrange(i, gs.len() as int)), 1int,
{
    if i < 0 || i >= gs.len() {
        Ok(cx)
    } else {
        proof {
            lemma_graphs_size_split(gs, i);
        }
        match cg_graph(cx, gs[i]) {
            Err(e) => Err(e),
            Ok((cx1, source, sink)) => {
                let cx2 = cg_link(
                    cx1,
                    gs[i].span_info,
                    NodeBoundV::ParallelGroup(ListVarV::GroupSource(id)),
                    source,
                );
                let cx3 = cg_link(cx2, gs[i].span_info, sink, NodeBoundV::ParallelGroup(ListVarV::GroupSink(id)));
                cg_branches(
                    CtxV {
                        links: cx3.links.push(extend_stmt(ListVarV::GroupSource(id), source, true)).push(
                            extend_stmt(ListVarV::GroupSink(id), sink, false),
                        ),
                        ..cx3
                    },
                    gs,
                    i + 1,
                    id,
                )
            },
        }
    }
}

/// The graphs of a sequence from the `i`-th on, each linked from the exit
/// points `prev` of the one before; gives the exit points of the last.
pub open spec fn cg_sequence(cx: CtxV, gs: Seq<GraphV>, i: int, prev: NodeBoundV) -> Result<(CtxV, NodeBoundV), CodegenFailure>
    decreases graphs_size(gs.subrange(i, gs.len() as int)), 1int,
{
    if i < 0 || i >= gs.len() {
        Ok((cx, prev))
    } else {
        proof {
            lemma_graphs_size_split(gs, i);
        }
        match cg_graph(cx, gs[i]) {
            Err(e) => Err(e),
            Ok((cx1, source, sink)) => match cg_track(cx1, gs[i].span_info, prev, source) {
                Err(e) => Err(e),
                Ok(cx2) => cg_sequence(
                    CtxV { links: cx2.links + stitch_stmts(prev, source), ..cx2 },
                    gs,
                    i + 1,
                    sink,
                ),
            },
        }
    }
}

/// A graph: its entry, merged at once when it is an embedded graph, then each
/// following node linked from the exit points of the one before.
pub open spec fn cg_graph(cx: CtxV, g: GraphV) -> Result<(CtxV, NodeBoundV, NodeBoundV), CodegenFailure>
    decreases graph_size(g), 0int,
{
    proof {
        assert(g.conns.subrange(0, g.conns.len() as int) =~= g.conns);
    }
    match cg_node(cx, g.entry) {
        Err(e) => Err(e),
        Ok((cx1, source, sink)) => {
            let cx2 = match source {
                NodeBoundV::Graph(sub) => CtxV {
                    links: cx1.links.push(StmtV::Merge { sub: sub.text, at: MergeAtV::Nodes(Seq::empty()) }),
                    ..cx1
                },
                _ => cx1,
            };
            match cg_conns(cx2, g.conns, 0, sink) {
                Err(e) => Err(e),
                Ok((cx3, last)) => Ok((cx3, source, last)),
            }
        },
    }
}

/// The nodes of `ns` from the `i`-th on, each linked from the exit points
/// `prev` of the one before; gives the exit points of the last.
pub open spec fn cg_conns(cx: CtxV, ns: Seq<NodeExprV>, i: int, prev: NodeBoundV) -> Result<(CtxV, NodeBoundV), CodegenFailure>
    decreases nodes_size(ns.subrange(i, ns.len() as int)), 2int,
{
    if i < 0 || i >= ns.len() {
        Ok((cx, prev))
    } else {
        proof {
            lemma_nodes_size_split(ns, i);
        }
        match cg_node(cx, ns[i]) {
            Err(e) => Err(e),
            Ok((cx1, source, sink)) => match cg_track(cx1, node_span(ns[i]), prev, source) {
                Err(e) => Err(e),
                Ok(cx2) => cg_conns(
                    CtxV { links: cx2.links + stitch_stmts(prev, source), ..cx2 },
                    ns,
                    i + 1,
                    sink,
                ),
            },
        }
    }
}

/// The statements of a program, graph after graph from the `i`-th on.
pub open spec fn cg_program(cx: CtxV, gs: Seq<GraphV>, i: int) -> Result<CtxV, CodegenFailure>
    decreases gs.len() - i,
{
    if i < 0 || i >= gs.len() {
        Ok(cx)
    } else {
        match cg_graph(cx, gs[i]) {
            Err(e) => Err(e),
            Ok((cx1, _, _)) => cg_program(cx1, gs, i + 1),
        }
    }
}

/// The plan of a program, or the lookup that fails.
pub open spec fn plan_of(ast: SyntaxTreeV) -> Result<PlanV, CodegenFailure> {
    match cg_program(empty_ctx(), ast.graphs, 0) {
        Err(e) => Err(e),
        Ok(cx) => Ok(PlanV { decls: cx.decls, links: cx.links, errors: cx.errors }),
    }
}

// ---------------------------------------------------------------------------
// Code generation
// ---------------------------------------------------------------------------

pub struct Name {
    pub text: Vec<char>,
    pub span: SpanInfo,
}

pub enum NodeBound {
    Literal(Vec<Name>),
    Graph(Name),
    ParallelGroup(ListVar),
}

impl Name {
    pub open spec fn view(&self) -> NameV {
        NameV { text: self.text@, span: self.span }
    }
}

pub open spec fn names_view(ns: Seq<Name>) -> Seq<NameV> {
    ns.map_values(|n: Name| n.view())
}

impl NodeBound {
    pub open spec fn view(&self) -> NodeBoundV {
        match self {
            NodeBound::Literal(ns) => NodeBoundV::Literal(names_view(ns@)),
            NodeBound::Graph(n) => NodeBoundV::Graph(n.view()),
            NodeBound::ParallelGroup(l) => NodeBoundV::ParallelGroup(l.view()),
        }
    }
}

pub(crate) fn copy_name(n: &Name) -> (r: Name)
    ensures
        r.view() == n.view(),
{
    Name { text: copy_chars(&n.text), span: n.span }
}

pub(crate) fn copy_names(ns: &Vec<Name>) -> (r: Vec<Name>)
    ensures
        names_view(r@) == names_view(ns@),
{
    let mut r: Vec<Name> = Vec::new();
    let mut i: usize = 0;
    while i < ns.len()
        invariant
            i <= ns@.len(),
            r@.len() == i,
            forall|j: int| 0 <= j < i ==> #[trigger] r@[j].view() == ns@[j].view(),
        decreases ns@.len() - i,
    {
        r.push(copy_name(&ns[i]));
        i += 1;
    }
    assert(names_view(r@) =~= names_view(ns@));
    r
}

pub(crate) fn copy_list_var(l: &ListVar) -> (r: ListVar)
    ensures
        r.view() == l.view(),
{
    match l {
        ListVar::GraphSource(n) => ListVar::GraphSource(copy_chars(n)),
        ListVar::GraphSink(n) => ListVar::GraphSink(copy_chars(n)),
        ListVar::GroupSource(i) => ListVar::GroupSource(*i),
        ListVar::GroupSink(i) => ListVar::GroupSink(*i),
    }
}

pub(crate) fn texts_of(ns: &Vec<Name>) -> (r: Vec<Vec<char>>)
    ensures
        texts_view(r@) == names_text(names_view(ns@)),
{
    let mut r: Vec<Vec<char>> = Vec::new();
    let mut i: usize = 0;
    while i < ns.len()
        invariant
            i <= ns@.len(),
            r@.len() == i,
            forall|j: int| 0 <= j < i ==> #[trigger] r@[j]@ == ns@[j].text@,
        decreases ns@.len() - i,
    {
        r.push(copy_chars(&ns[i].text));
        i += 1;
    }
    assert(texts_view(r@) =~= names_text(names_view(ns@)));
    r
}

pub(crate) fn push_literal(out: &mut Vec<char>, s: &str)
    ensures
        final(out)@ == old(out)@ + s@,
{
    let ghost o0 = out@;
    let len = s.unicode_len();
    let mut i: usize = 0;
    while i < len
        invariant
            len == s@.len(),
            i <= len,
            out@ == o0 + s@.take(i as int),
        decreases len - i,
    {
        out.push(s.get_char(i));
        i += 1;
        assert(out@ =~= o0 + s@.take(i as int));
    }
    assert(s@.take(i as int) =~= s@);
}

fn digit_char(d: usize) -> (c: char)
    requires
        d < 10,
    ensures
        c == digit(d as nat),
{
    if d == 0 { '0' } else if d == 1 { '1' } else if d == 2 { '2' } else if d == 3 { '3' }
    else if d == 4 { '4' } else if d == 5 { '5' } else if d == 6 { '6' } else if d == 7 { '7' }
    else if d == 8 { '8' } else { '9' }
}

/// Appends the decimal digits of `n`.
pub(crate) fn push_decimal(out: &mut Vec<char>, n: usize)
    ensures
        final(out)@ == old(out)@ + decimal(n as nat),
    decreases n,
{
    if n < 10 {
        out.push(digit_char(n));
        assert(out@ =~= old(out)@ + decimal(n as nat));
    } else {
        push_decimal(out, n / 10);
        out.push(digit_char(n % 10));
        assert(out@ =~= old(out)@ + decimal(n as nat));
    }
}

pub(crate) fn anon_text(n: usize) -> (r: Vec<char>)
    ensures
        r@ == anon_name(n as nat),
{
    let mut r: Vec<char> = Vec::new();
    push_literal(&mut r, "anon_");
    proof {
        reveal_strlit("anon_");
    }
    push_decimal(&mut r, n);
    assert(r@ =~= anon_name(n as nat));
    r
}

pub(crate) fn list_text(l: &ListVar) -> (r: Vec<char>)
    ensures
        r@ == list_name(l.view()),
{
    let mut r: Vec<char> = Vec::new();
    match l {
        ListVar::GraphSource(g) => {
            r.push('_');
            crate::dsl::parser::push_chars_pub(&mut r, g);
            push_literal(&mut r, "_source");
            proof {
                reveal_strlit("_source");
            }
        },
        ListVar::GraphSink(g) => {
            r.push('_');
            crate::dsl::parser::push_chars_pub(&mut r, g);
            push_literal(&mut r, "_sink");
            proof {
                reveal_strlit("_sink");
            }
        },
        ListVar::GroupSource(i) => {
            push_literal(&mut r, "group_");
            push_decimal(&mut r, *i);
            push_literal(&mut r, "_source");
            proof {
                reveal_strlit("group_");
                reveal_strlit("_source");
            }
        },
        ListVar::GroupSink(i) => {
            push_literal(&mut r, "group_");
            push_decimal(&mut r, *i);
            push_literal(&mut r, "_sink");
            proof {
                reveal_strlit("group_");
                reveal_strlit("_sink");
            }
        },
    }
    assert(r@ =~= list_name(l.view()));
    r
}

/// Whether two texts are equal.
pub(crate) fn same_text(a: &Vec<char>, b: &Vec<char>) -> (r: bool)
    ensures
        r == (a@ == b@),
{
    if a.len() != b.len() {
        return false;
    }
    let mut i: usize = 0;
    while i < a.len()
        invariant
            a@.len() == b@.len(),
            i <= a@.len(),
            forall|j: int| 0 <= j < i ==> a@[j] == b@[j],
        decreases a@.len() - i,
    {
        if a[i] != b[i] {
            return false;
        }
        i += 1;
    }
    assert(a@ =~= b@);
    true
}

/// The text with which an error is reported.
pub open spec fn error_message(e: ErrorV) -> Seq<char> {
    match e {
        ErrorV::DuplicateUnboundType { type_key, .. } => "Task Graph Error: Duplicate unbound type declaration: "@
            + type_key
            + ".\nMultiple instances of the same task type must be assigned to unique variables (e.g., foo: "@
            + type_key + " -> bar: "@ + type_key + ")."@,
        ErrorV::CircularDependency { from, to, .. } => "Task Graph Error: Circular dependency: "@ + from + " -> "@
            + to + "."@,
        ErrorV::VariableCollision { var, .. } => "Task Graph Error: Variable "@ + var
            + " has been already declared."@,
    }
}

impl CodegenError {
    /// The text with which the error is reported.
    pub fn message(&self) -> (r: Vec<char>)
        ensures
            r@ == error_message(self.view()),
    {
        let mut r: Vec<char> = Vec::new();
        match self {
            CodegenError::DuplicateUnboundType { type_key, .. } => {
                push_literal(&mut r, "Task Graph Error: Duplicate unbound type declaration: ");
                crate::dsl::parser::push_chars_pub(&mut r, type_key);
                push_literal(
                    &mut r,
                    ".\nMultiple instances of the same task type must be assigned to unique variables (e.g., foo: ",
                );
                crate::dsl::parser::push_chars_pub(&mut r, type_key);
                push_literal(&mut r, " -> bar: ");
                crate::dsl::parser::push_chars_pub(&mut r, type_key);
                push_literal(&mut r, ").");
            },
            CodegenError::CircularDependency { from, to, .. } => {
                push_literal(&mut r, "Task Graph Error: Circular dependency: ");
                crate::dsl::parser::push_chars_pub(&mut r, from);
                push_literal(&mut r, " -> ");
                crate::dsl::parser::push_chars_pub(&mut r, to);
                push_literal(&mut r, ".");
            },
            CodegenError::VariableCollision { var, .. } => {
                push_literal(&mut r, "Task Graph Error: Variable ");
                crate::dsl::parser::push_chars_pub(&mut r, var);
                push_literal(&mut r, " has been already declared.");
            },
        }
        r
    }
}

} // verus!
