//! The syntax tree of the orchestration language, and its model.
use vstd::prelude::*;

verus! {

/// Where a piece of syntax starts: the index of a token's source location, or
/// the macro's call site when the input ran out.
#[derive(Debug, Clone, Copy, PartialEq, Eq, Structural)]
pub struct SpanInfo {
    pub span: usize,
    pub at_call_site: bool,
}

/// A name written in the source, with the location of its token.
pub struct Ident {
    pub name: Vec<char>,
    pub span: usize,
}

/// A type written in the source: `len` tokens from `start` in the token list
/// reached from the top by entering the groups at the positions of `path`, in
/// order; `key` is its text without spaces, `span` the location of its first token.
pub struct TypeRef {
    pub path: Vec<usize>,
    pub start: usize,
    pub len: usize,
    pub key: Vec<char>,
    pub span: usize,
}

/// A local task declaration: `var: Type` or just `Type`.
pub struct Task {
    pub var: Option<Ident>,
    pub typ: TypeRef,
}

#[derive(Debug, Clone, Copy, PartialEq, Eq, Structural)]
pub enum SchedulingMode {
    /// `(A, B)`, or a single chain such as `(A -> B -> C)`
    Sequence,
    /// `(A | B | C)`
    Parallel,
}

/// `(A | B | C)`, `(A, B, C)` or `(A -> B -> C)`.
pub struct GroupBlock {
    pub mode: SchedulingMode,
    pub graphs: Vec<Graph>,
    pub span_info: SpanInfo,
}

pub enum NodeExpr {
    /// A local task declaration.
    Declaration(Task),
    /// A reference to a declared variable: `[var]`.
    Binding(Ident),
    /// A graph embedded from a variable: `#[var]`.
    Embedding(Ident),
    /// `(A | B | C)` or `(A, B, C)`.
    Group(GroupBlock),
}

/// `A -> (B | [in]) -> C`: an entry node followed by the nodes it leads to.
pub struct Graph {
    pub entry: NodeExpr,
    pub conns: Vec<NodeExpr>,
    pub span_info: SpanInfo,
}

/// The statements of a program, separated by `;`.
pub struct SyntaxTree {
    pub graphs: Vec<Graph>,
}

// ---------------------------------------------------------------------------
// The model
// ---------------------------------------------------------------------------

pub struct IdentV {
    pub name: Seq<char>,
    pub span: usize,
}

pub struct TypeRefV {
    pub path: Seq<usize>,
    pub start: usize,
    pub len: usize,
    pub key: Seq<char>,
    pub span: usize,
}

pub struct TaskV {
    pub var: Option<IdentV>,
    pub typ: TypeRefV,
}

pub struct GroupBlockV {
    pub mode: SchedulingMode,
    pub graphs: Seq<GraphV>,
    pub span_info: SpanInfo,
}

pub enum NodeExprV {
    Declaration(TaskV),
    Binding(IdentV),
    Embedding(IdentV),
    Group(GroupBlockV),
}

pub struct GraphV {
    pub entry: NodeExprV,
    pub conns: Seq<NodeExprV>,
    pub span_info: SpanInfo,
}

pub struct SyntaxTreeV {
    pub graphs: Seq<GraphV>,
}

impl Ident {
    pub open spec fn view(&self) -> IdentV {
        IdentV { name: self.name@, span: self.span }
    }
}

impl TypeRef {
    pub open spec fn view(&self) -> TypeRefV {
        TypeRefV { path: self.path@, start: self.start, len: self.len, key: self.key@, span: self.span }
    }
}

impl Task {
    pub open spec fn view(&self) -> TaskV {
        TaskV {
            var: match self.var {
                Some(v) => Some(v.view()),
                Option::None => Option::None,
            },
            typ: self.typ.view(),
        }
    }
}

pub open spec fn graphs_view(gs: Seq<Graph>) -> Seq<GraphV>
    decreases gs,
{
    if gs.len() == 0 {
        Seq::empty()
    } else {
        graphs_view(gs.drop_last()).push(graph_view(gs.last()))
    }
}

pub open spec fn nodes_view(ns: Seq<NodeExpr>) -> Seq<NodeExprV>
    decreases ns,
{
    if ns.len() == 0 {
        Seq::empty()
    } else {
        nodes_view(ns.drop_last()).push(node_view(ns.last()))
    }
}

pub open spec fn node_view(n: NodeExpr) -> NodeExprV
    decreases n,
{
    match n {
        NodeExpr::Declaration(t) => NodeExprV::Declaration(t.view()),
        NodeExpr::Binding(i) => NodeExprV::Binding(i.view()),
        NodeExpr::Embedding(i) => NodeExprV::Embedding(i.view()),
        NodeExpr::Group(b) => NodeExprV::Group(
            GroupBlockV { mode: b.mode, graphs: graphs_view(b.graphs@), span_info: b.span_info },
        ),
    }
}

pub open spec fn graph_view(g: Graph) -> GraphV
    decreases g,
{
    GraphV { entry: node_view(g.entry), conns: nodes_view(g.conns@), span_info: g.span_info }
}

impl SyntaxTree {
    pub open spec fn view(&self) -> SyntaxTreeV {
        SyntaxTreeV { graphs: graphs_view(self.graphs@) }
    }
}

/// The view of a list of graphs has one entry per graph.
pub proof fn lemma_graphs_view_index(gs: Seq<Graph>)
    ensures
        graphs_view(gs).len() == gs.len(),
        forall|i: int| 0 <= i < gs.len() ==> #[trigger] graphs_view(gs)[i] == graph_view(gs[i]),
    decreases gs.len(),
{
    if gs.len() > 0 {
        lemma_graphs_view_index(gs.drop_last());
    }
}

/// The view of a list of nodes has one entry per node.
pub proof fn lemma_nodes_view_index(ns: Seq<NodeExpr>)
    ensures
        nodes_view(ns).len() == ns.len(),
        forall|i: int| 0 <= i < ns.len() ==> #[trigger] nodes_view(ns)[i] == node_view(ns[i]),
    decreases ns.len(),
{
    if ns.len() > 0 {
        lemma_nodes_view_index(ns.drop_last());
    }
}

} // verus!
