//! Where the parser's type references point: at the very tokens written for
//! each declaration.
use vstd::prelude::*;

use crate::dsl::ast::{GraphV, NodeExprV, TypeRefV};
use crate::dsl::parser::{
    sp_block, sp_conns, sp_decl, sp_graph, sp_group, sp_more, sp_node, sp_program, sp_separated, sp_type,
    tokens_text, type_run_len, without_spaces,
};
use crate::dsl::token::{lemma_rem_inner, lemma_rem_mono, rem, Delimiter, Token, TokenKind};

verus! {

/// The tokens inside the group at position `x` of `ts`.
pub open spec fn enter(ts: Seq<Token>, x: usize) -> Option<Seq<Token>> {
    if x < ts.len() {
        match ts[x as int].kind {
            TokenKind::Group(_, inner) => Some(inner@),
            _ => Option::None,
        }
    } else {
        Option::None
    }
}

/// The token list reached from `ts` by entering, in order, the groups at the
/// positions of `path`.
pub open spec fn tokens_at(ts: Seq<Token>, path: Seq<usize>) -> Option<Seq<Token>>
    decreases path.len(),
{
    if path.len() == 0 {
        Some(ts)
    } else {
        match tokens_at(ts, path.drop_last()) {
            Some(level) => enter(level, path.last()),
            Option::None => Option::None,
        }
    }
}

/// `t` designates, in `root`, a non-empty run of tokens whose text without
/// spaces is its key.
pub open spec fn locates(root: Seq<Token>, t: TypeRefV) -> bool {
    match tokens_at(root, t.path) {
        Some(level) => 0 < t.len && t.start + t.len <= level.len() && without_spaces(
            tokens_text(level.subrange(t.start as int, t.start + t.len)),
        ) == t.key,
        Option::None => false,
    }
}

/// Every declaration in `n` designates its own type tokens in `root`.
pub open spec fn node_located(root: Seq<Token>, n: NodeExprV) -> bool
    decreases n,
{
    match n {
        NodeExprV::Declaration(t) => locates(root, t.typ),
        NodeExprV::Group(b) => forall|i: int| 0 <= i < b.graphs.len() ==> graph_located(root, #[trigger] b.graphs[i]),
        _ => true,
    }
}

/// Every declaration in `g` designates its own type tokens in `root`.
pub open spec fn graph_located(root: Seq<Token>, g: GraphV) -> bool
    decreases g,
{
    &&& node_located(root, g.entry)
    &&& forall|i: int| 0 <= i < g.conns.len() ==> node_located(root, #[trigger] g.conns[i])
}

/// The run of a type ends inside the token list.
proof fn lemma_run_len(ts: Seq<Token>, pos: int)
    requires
        0 <= pos,
    ensures
        type_run_len(ts, pos) > 0 ==> pos + type_run_len(ts, pos) <= ts.len(),
    decreases ts.len() - pos,
{
    if 0 <= pos < ts.len() {
        lemma_run_len(ts, pos + 1);
    }
}

/// The context of a token list being read: it is reached from `root` by `path`
/// and its length fits in `usize`.
pub open spec fn level_of(root: Seq<Token>, ts: Seq<Token>, path: Seq<usize>) -> bool {
    tokens_at(root, path) == Some(ts) && ts.len() <= usize::MAX
}

proof fn lemma_type(root: Seq<Token>, ts: Seq<Token>, path: Seq<usize>, pos: int)
    requires
        level_of(root, ts, path),
        0 <= pos,
    ensures
        sp_type(ts, path, pos) matches Some((t, _)) ==> locates(root, t),
{
    lemma_run_len(ts, pos);
}

proof fn lemma_decl(root: Seq<Token>, ts: Seq<Token>, path: Seq<usize>, pos: int)
    requires
        level_of(root, ts, path),
        0 <= pos,
    ensures
        sp_decl(ts, path, pos) matches Some((n, _)) ==> node_located(root, n),
{
    lemma_type(root, ts, path, pos);
    lemma_type(root, ts, path, pos + 2);
}

proof fn lemma_node(root: Seq<Token>, ts: Seq<Token>, path: Seq<usize>, pos: int)
    requires
        level_of(root, ts, path),
        0 <= pos,
    ensures
        sp_node(ts, path, pos) matches Some((n, _)) ==> node_located(root, n),
    decreases rem(ts, pos), 1int,
{
    lemma_decl(root, ts, path, pos);
    lemma_group(root, ts, path, pos);
}

proof fn lemma_group(root: Seq<Token>, ts: Seq<Token>, path: Seq<usize>, pos: int)
    requires
        level_of(root, ts, path),
        0 <= pos,
    ensures
        sp_group(ts, path, pos) matches Some((n, _)) ==> node_located(root, n),
    decreases rem(ts, pos), 0int,
{
    if 0 <= pos < ts.len() {
        match ts[pos].kind {
            TokenKind::Group(Delimiter::Parenthesis, inner) => {
                lemma_rem_inner(ts, pos, Delimiter::Parenthesis, inner);
                let p2 = path.push(pos as usize);
                assert(p2.drop_last() =~= path);
                assert(inner@.len() == inner.len());
                assert(tokens_at(root, p2) == Some(inner@));
                lemma_block(root, inner@, p2, crate::dsl::ast::SpanInfo { span: ts[pos].span, at_call_site: false });
            },
            _ => {},
        }
    }
}

proof fn lemma_block(root: Seq<Token>, ts: Seq<Token>, path: Seq<usize>, span: crate::dsl::ast::SpanInfo)
    requires
        level_of(root, ts, path),
    ensures
        sp_block(ts, path, span) matches Some((b, _)) ==> forall|i: int|
            0 <= i < b.graphs.len() ==> graph_located(root, #[trigger] b.graphs[i]),
    decreases rem(ts, 0), 5int,
{
    lemma_separated(root, ts, path, 0, '|', 2);
    lemma_separated(root, ts, path, 0, ',', 1);
}

proof fn lemma_separated(root: Seq<Token>, ts: Seq<Token>, path: Seq<usize>, pos: int, sep: char, min: nat)
    requires
        level_of(root, ts, path),
        0 <= pos,
    ensures
        sp_separated(ts, path, pos, sep, min) matches Some((gs, _)) ==> forall|i: int|
            0 <= i < gs.len() ==> graph_located(root, #[trigger] gs[i]),
    decreases rem(ts, pos), 4int,
{
    lemma_graph(root, ts, path, pos);
    if let Some((g, p)) = sp_graph(ts, path, pos) {
        if 0 <= pos < p <= ts.len() {
            lemma_rem_mono(ts, pos, p);
            lemma_more(root, ts, path, p, sep, 1, min);
            if let Some((gs, _)) = sp_more(ts, path, p, sep, 1, min) {
                let all = seq![g] + gs;
                assert forall|i: int| 0 <= i < all.len() implies graph_located(root, #[trigger] all[i]) by {
                    if i > 0 {
                        assert(all[i] == gs[i - 1]);
                    }
                }
            }
        }
    }
}

proof fn lemma_more(root: Seq<Token>, ts: Seq<Token>, path: Seq<usize>, pos: int, sep: char, count: nat, min: nat)
    requires
        level_of(root, ts, path),
        0 <= pos,
    ensures
        sp_more(ts, path, pos, sep, count, min) matches Some((gs, _)) ==> forall|i: int|
            0 <= i < gs.len() ==> graph_located(root, #[trigger] gs[i]),
    decreases rem(ts, pos), 3int,
{
    if 0 <= pos && crate::dsl::parser::is_punct(ts, pos, sep) {
        lemma_rem_mono(ts, pos, pos + 1);
        lemma_graph(root, ts, path, pos + 1);
        if let Some((g, p)) = sp_graph(ts, path, pos + 1) {
            if pos + 1 < p <= ts.len() {
                lemma_rem_mono(ts, pos, p);
                lemma_more(root, ts, path, p, sep, count + 1, min);
                if let Some((gs, _)) = sp_more(ts, path, p, sep, count + 1, min) {
                    let all = seq![g] + gs;
                    assert forall|i: int| 0 <= i < all.len() implies graph_located(root, #[trigger] all[i]) by {
                        if i > 0 {
                            assert(all[i] == gs[i - 1]);
                        }
                    }
                }
            }
        }
    }
}

proof fn lemma_graph(root: Seq<Token>, ts: Seq<Token>, path: Seq<usize>, pos: int)
    requires
        level_of(root, ts, path),
        0 <= pos,
    ensures
        sp_graph(ts, path, pos) matches Some((g, _)) ==> graph_located(root, g),
    decreases rem(ts, pos), 2int,
{
    lemma_node(root, ts, path, pos);
    if let Some((e, p)) = sp_node(ts, path, pos) {
        if 0 <= pos < p <= ts.len() {
            lemma_rem_mono(ts, pos, p);
            lemma_conns(root, ts, path, p);
            let cs = sp_conns(ts, path, p).0;
            let g = sp_graph(ts, path, pos).unwrap().0;
            assert(g.entry == e);
            assert(g.conns == cs);
            assert forall|i: int| 0 <= i < g.conns.len() implies node_located(root, #[trigger] g.conns[i]) by {
                assert(node_located(root, cs[i]));
            }
        }
    }
}

proof fn lemma_conns(root: Seq<Token>, ts: Seq<Token>, path: Seq<usize>, pos: int)
    requires
        level_of(root, ts, path),
        0 <= pos,
    ensures
        forall|i: int|
            0 <= i < sp_conns(ts, path, pos).0.len() ==> node_located(root, #[trigger] sp_conns(ts, path, pos).0[i]),
    decreases rem(ts, pos), 3int,
{
    if 0 <= pos && crate::dsl::parser::is_punct(ts, pos, '-') && crate::dsl::parser::is_punct(ts, pos + 1, '>') {
        lemma_rem_mono(ts, pos, pos + 2);
        lemma_node(root, ts, path, pos + 2);
        if let Some((e, p)) = sp_node(ts, path, pos + 2) {
            if pos + 2 < p <= ts.len() {
                lemma_rem_mono(ts, pos, p);
                lemma_conns(root, ts, path, p);
                let cs = sp_conns(ts, path, p).0;
                let all = seq![e] + cs;
                assert forall|i: int| 0 <= i < all.len() implies node_located(root, #[trigger] all[i]) by {
                    if i > 0 {
                        assert(all[i] == cs[i - 1]);
                    }
                }
            }
        }
    }
}

/// Every type reference of a parsed program designates the very tokens
/// written for its declaration: entering the groups on its path, in order,
/// and taking its `len` tokens from `start` gives a run whose text without
/// spaces is its key.
pub proof fn law_types_located(ts: Seq<Token>)
    requires
        ts.len() <= usize::MAX,
    ensures
        sp_program(ts) matches Ok(t) ==> forall|i: int| 0 <= i < t.graphs.len() ==> graph_located(ts, #[trigger] t.graphs[i]),
{
    assert(tokens_at(ts, Seq::empty()) == Some(ts));
    lemma_separated(ts, ts, Seq::empty(), 0, ';', 0);
}

} // verus!
