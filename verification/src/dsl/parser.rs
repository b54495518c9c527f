//! Reading a token list into a [`SyntaxTree`].
//!
//! Grammar, with `;` separating the statements of a program:
//! - graph: `node ( -> node )*`
//! - node: `#[var]` (embedding) | `[var]` (binding) | `var: Type` | `Type` | group
//! - group: `( graph | graph | ... )` (parallel, two or more) or
//!   `( graph, graph, ... )` (sequence, one or more)
//!
//! A type runs until `:` (other than the colons of a `::`), `;`, `|`, `,` or
//! `->`, and must parse as a Rust type. Alternatives are tried in the order
//! written; an alternative that fails consumes nothing. A group must be read to
//! its end, and so must the program, which may end with a `;`: where reading
//! stops short of the end, the program is refused at that token.
use vstd::prelude::*;

use crate::dsl::ast::{
    graph_view, graphs_view, node_view, nodes_view, Graph, GraphV, GroupBlock, GroupBlockV, Ident,
    IdentV, NodeExpr, NodeExprV, SchedulingMode, SpanInfo, SyntaxTree, SyntaxTreeV, Task, TaskV,
    TypeRef, TypeRefV,
};
use crate::dsl::token::{lemma_rem_inner, lemma_rem_mono, rem, Delimiter, Spacing, Token, TokenKind};

verus! {

// ---------------------------------------------------------------------------
// Token-level predicates
// ---------------------------------------------------------------------------

/// Token `i` of `ts` is the punctuation character `c`.
pub open spec fn is_punct(ts: Seq<Token>, i: int, c: char) -> bool {
    0 <= i < ts.len() && match ts[i].kind {
        TokenKind::Punct(d, _) => d == c,
        _ => false,
    }
}

/// Token `i` of `ts` is a `:` glued to the token after it.
pub open spec fn is_joint_colon(ts: Seq<Token>, i: int) -> bool {
    0 <= i < ts.len() && match ts[i].kind {
        TokenKind::Punct(d, sp) => d == ':' && sp == Spacing::Joint,
        _ => false,
    }
}

/// Token `i` of `ts` is one of the two colons of a `::` path separator.
pub open spec fn in_path_sep(ts: Seq<Token>, i: int) -> bool {
    ||| is_joint_colon(ts, i) && is_punct(ts, i + 1, ':')
    ||| is_joint_colon(ts, i - 1) && is_punct(ts, i, ':')
}

/// Token `i` of `ts` ends a type: one of `: ; | ,` (a colon of `::` does not),
/// or the `-` of an arrow.
pub open spec fn ends_type(ts: Seq<Token>, i: int) -> bool {
    ||| is_punct(ts, i, ':') && !in_path_sep(ts, i)
    ||| is_punct(ts, i, ';')
    ||| is_punct(ts, i, '|')
    ||| is_punct(ts, i, ',')
    ||| is_punct(ts, i, '-') && is_punct(ts, i + 1, '>')
}

/// The number of tokens from `pos` up to the end of a type.
pub open spec fn type_run_len(ts: Seq<Token>, pos: int) -> nat
    decreases ts.len() - pos,
{
    if pos < 0 || pos >= ts.len() || ends_type(ts, pos) {
        0
    } else {
        1 + type_run_len(ts, pos + 1)
    }
}

/// The source text of a token.
pub open spec fn token_text(t: Token) -> Seq<char>
    decreases t,
{
    match t.kind {
        TokenKind::Ident(n) => n@,
        TokenKind::Punct(c, _) => seq![c],
        TokenKind::Literal(s) => s@,
        TokenKind::Group(d, inner) => open_text(d) + tokens_text(inner@) + close_text(d),
    }
}

pub open spec fn tokens_text(ts: Seq<Token>) -> Seq<char>
    decreases ts,
{
    if ts.len() == 0 {
        Seq::empty()
    } else {
        tokens_text(ts.drop_last()) + token_text(ts.last())
    }
}

pub open spec fn open_text(d: Delimiter) -> Seq<char> {
    match d {
        Delimiter::Parenthesis => seq!['('],
        Delimiter::Brace => seq!['{'],
        Delimiter::Bracket => seq!['['],
        Delimiter::Invisible => Seq::empty(),
    }
}

pub open spec fn close_text(d: Delimiter) -> Seq<char> {
    match d {
        Delimiter::Parenthesis => seq![')'],
        Delimiter::Brace => seq!['}'],
        Delimiter::Bracket => seq![']'],
        Delimiter::Invisible => Seq::empty(),
    }
}

/// `s` with every space removed.
pub open spec fn without_spaces(s: Seq<char>) -> Seq<char>
    decreases s.len(),
{
    if s.len() == 0 {
        Seq::empty()
    } else {
        without_spaces(s.drop_last()) + if s.last() == ' ' {
            Seq::empty()
        } else {
            seq![s.last()]
        }
    }
}

/// Whether `syn::parse2::<syn::Type>` accepts the token trees that `tokens`
/// carry, read as one stream: they form exactly one Rust type.
pub uninterp spec fn parses_as_type(tokens: Seq<Token>) -> bool;

/// Calls `syn::parse2::<syn::Type>` on the token trees of the `len` tokens
/// from `start`, and tells whether it succeeded. The result is named by
/// [`parses_as_type`]: syn's grammar of types is not restated here.
#[verifier::external_body]
fn is_rust_type(tokens: &Vec<Token>, start: usize, len: usize) -> (r: bool)
    requires
        start + len <= tokens@.len(),
    ensures
        r == parses_as_type(tokens@.subrange(start as int, start + len)),
{
    let stream: proc_macro2::TokenStream = tokens[start..start + len].iter().map(|t| t.raw.clone()).collect();
    syn::parse2::<syn::Type>(stream).is_ok()
}

/// Where the syntax at `pos` starts: its token, or the call site past the end.
pub open spec fn span_at(ts: Seq<Token>, pos: int) -> SpanInfo {
    if 0 <= pos < ts.len() {
        SpanInfo { span: ts[pos].span, at_call_site: false }
    } else {
        SpanInfo { span: 0, at_call_site: true }
    }
}

// ---------------------------------------------------------------------------
// The grammar as spec functions: each gives what is read and where it ends
// ---------------------------------------------------------------------------

/// An identifier at `pos`.
pub open spec fn sp_ident(ts: Seq<Token>, pos: int) -> Option<IdentV> {
    if 0 <= pos < ts.len() {
        match ts[pos].kind {
            TokenKind::Ident(n) => Some(IdentV { name: n@, span: ts[pos].span }),
            _ => Option::None,
        }
    } else {
        Option::None
    }
}

/// `[var]` at `pos`: a bracket group holding exactly one identifier.
pub open spec fn sp_bracketed(ts: Seq<Token>, pos: int) -> Option<IdentV> {
    if 0 <= pos < ts.len() {
        match ts[pos].kind {
            TokenKind::Group(Delimiter::Bracket, inner) => if inner@.len() == 1 {
                sp_ident(inner@, 0)
            } else {
                Option::None
            },
            _ => Option::None,
        }
    } else {
        Option::None
    }
}

/// A type at `pos`.
pub open spec fn sp_type(ts: Seq<Token>, path: Seq<usize>, pos: int) -> Option<(TypeRefV, int)> {
    let l = type_run_len(ts, pos);
    if l == 0 {
        Option::None
    } else if parses_as_type(ts.subrange(pos, pos + l)) {
        Some(
            (
                TypeRefV {
                    path,
                    start: pos as usize,
                    len: l as usize,
                    key: without_spaces(tokens_text(ts.subrange(pos, pos + l))),
                    span: ts[pos].span,
                },
                pos + l,
            ),
        )
    } else {
        Option::None
    }
}

/// `var: Type` or `Type` at `pos`, never starting at a bracket or parenthesis group.
pub open spec fn sp_decl(ts: Seq<Token>, path: Seq<usize>, pos: int) -> Option<(NodeExprV, int)> {
    if 0 <= pos < ts.len() && match ts[pos].kind {
        TokenKind::Group(d, _) => d == Delimiter::Bracket || d == Delimiter::Parenthesis,
        _ => false,
    } {
        Option::None
    } else {
        let named = match sp_ident(ts, pos) {
            Some(id) => if is_punct(ts, pos + 1, ':') {
                match sp_type(ts, path, pos + 2) {
                    Some((t, p)) => Some(
                        (NodeExprV::Declaration(TaskV { var: Some(id), typ: t }), p),
                    ),
                    Option::None => Option::None,
                }
            } else {
                Option::None
            },
            Option::None => Option::None,
        };
        match named {
            Some(r) => Some(r),
            Option::None => match sp_type(ts, path, pos) {
                Some((t, p)) => Some((NodeExprV::Declaration(TaskV { var: Option::None, typ: t }), p)),
                Option::None => Option::None,
            },
        }
    }
}

/// A graph at `pos`: a node and the nodes it leads to.
pub open spec fn sp_graph(ts: Seq<Token>, path: Seq<usize>, pos: int) -> Option<(GraphV, int)>
    decreases rem(ts, pos), 2int,
{
    match sp_node(ts, path, pos) {
        Some((e, p)) => if 0 <= pos < p <= ts.len() {
            proof {
                lemma_rem_mono(ts, pos, p);
            }
            let (cs, q) = sp_conns(ts, path, p);
            Some((GraphV { entry: e, conns: cs, span_info: span_at(ts, pos) }, q))
        } else {
            Option::None
        },
        Option::None => Option::None,
    }
}

/// `-> node` repeated as often as possible from `pos`.
pub open spec fn sp_conns(ts: Seq<Token>, path: Seq<usize>, pos: int) -> (Seq<NodeExprV>, int)
    decreases rem(ts, pos), 3int,
{
    if 0 <= pos && is_punct(ts, pos, '-') && is_punct(ts, pos + 1, '>') {
        proof {
            lemma_rem_mono(ts, pos, pos + 2);
        }
        match sp_node(ts, path, pos + 2) {
            Some((e, p)) => if pos + 2 < p <= ts.len() {
                proof {
                    lemma_rem_mono(ts, pos, p);
                }
                let (cs, q) = sp_conns(ts, path, p);
                (seq![e] + cs, q)
            } else {
                (Seq::empty(), pos)
            },
            Option::None => (Seq::empty(), pos),
        }
    } else {
        (Seq::empty(), pos)
    }
}

/// A node at `pos`: embedding, binding, declaration or group, tried in order.
pub open spec fn sp_node(ts: Seq<Token>, path: Seq<usize>, pos: int) -> Option<(NodeExprV, int)>
    decreases rem(ts, pos), 1int,
{
    if is_punct(ts, pos, '#') && sp_bracketed(ts, pos + 1) is Some {
        Some((NodeExprV::Embedding(sp_bracketed(ts, pos + 1).unwrap()), pos + 2))
    } else if sp_bracketed(ts, pos) is Some {
        Some((NodeExprV::Binding(sp_bracketed(ts, pos).unwrap()), pos + 1))
    } else if sp_decl(ts, path, pos) is Some {
        sp_decl(ts, path, pos)
    } else {
        sp_group(ts, path, pos)
    }
}

/// A parenthesis group at `pos`, read to its end.
pub open spec fn sp_group(ts: Seq<Token>, path: Seq<usize>, pos: int) -> Option<(NodeExprV, int)>
    decreases rem(ts, pos), 0int,
{
    if 0 <= pos < ts.len() {
        match ts[pos].kind {
            TokenKind::Group(Delimiter::Parenthesis, inner) => {
                proof {
                    lemma_rem_inner(ts, pos, Delimiter::Parenthesis, inner);
                }
                match sp_block(inner@, path.push(pos as usize), SpanInfo { span: ts[pos].span, at_call_site: false }) {
                    Some((b, p)) => if p == inner@.len() {
                        Some((NodeExprV::Group(b), pos + 1))
                    } else {
                        Option::None
                    },
                    Option::None => Option::None,
                }
            },
            _ => Option::None,
        }
    } else {
        Option::None
    }
}

/// Inside a group: two or more graphs separated by `|`, else one or more
/// separated by `,`.
pub open spec fn sp_block(ts: Seq<Token>, path: Seq<usize>, span: SpanInfo) -> Option<(GroupBlockV, int)>
    decreases rem(ts, 0), 5int,
{
    match sp_separated(ts, path, 0, '|', 2) {
        Some((gs, p)) => Some((GroupBlockV { mode: SchedulingMode::Parallel, graphs: gs, span_info: span }, p)),
        Option::None => match sp_separated(ts, path, 0, ',', 1) {
            Some((gs, p)) => Some(
                (GroupBlockV { mode: SchedulingMode::Sequence, graphs: gs, span_info: span }, p),
            ),
            Option::None => Option::None,
        },
    }
}

/// At least `min` graphs from `pos`, separated by `sep`, as many as can be read.
pub open spec fn sp_separated(ts: Seq<Token>, path: Seq<usize>, pos: int, sep: char, min: nat) -> Option<(Seq<GraphV>, int)>
    decreases rem(ts, pos), 4int,
{
    match sp_graph(ts, path, pos) {
        Some((g, p)) => if 0 <= pos < p <= ts.len() {
            proof {
                lemma_rem_mono(ts, pos, p);
            }
            match sp_more(ts, path, p, sep, 1, min) {
                Some((gs, q)) => Some((seq![g] + gs, q)),
                Option::None => Option::None,
            }
        } else {
            Option::None
        },
        Option::None => if min == 0 {
            Some((Seq::empty(), pos))
        } else {
            Option::None
        },
    }
}

/// `sep graph` repeated from `pos`, `count` graphs having been read already.
pub open spec fn sp_more(ts: Seq<Token>, path: Seq<usize>, pos: int, sep: char, count: nat, min: nat) -> Option<(Seq<GraphV>, int)>
    decreases rem(ts, pos), 3int,
{
    if 0 <= pos && is_punct(ts, pos, sep) {
        proof {
            lemma_rem_mono(ts, pos, pos + 1);
        }
        match sp_graph(ts, path, pos + 1) {
            Some((g, p)) => if pos + 1 < p <= ts.len() {
                proof {
                    lemma_rem_mono(ts, pos, p);
                }
                match sp_more(ts, path, p, sep, count + 1, min) {
                    Some((gs, q)) => Some((seq![g] + gs, q)),
                    Option::None => Option::None,
                }
            } else {
                Option::None
            },
            Option::None => if count < min {
                Option::None
            } else {
                Some((Seq::empty(), pos))
            },
        }
    } else if count < min {
        Option::None
    } else {
        Some((Seq::empty(), pos))
    }
}

/// Why a program cannot be read: where reading stopped short of the end.
#[derive(Debug, Clone, Copy, PartialEq, Eq, Structural)]
pub struct ParseError {
    pub span: SpanInfo,
}

/// Where the statements read from `ts`, and one `;` after them, end.
pub open spec fn program_end(ts: Seq<Token>, p: int) -> int {
    if is_punct(ts, p, ';') {
        p + 1
    } else {
        p
    }
}

/// The program read from `ts`: its statements separated by `;`, with an
/// optional `;` after the last; refused at the first token that is not read.
pub open spec fn sp_program(ts: Seq<Token>) -> Result<SyntaxTreeV, ParseError> {
    match sp_separated(ts, Seq::empty(), 0, ';', 0) {
        Some((gs, p)) => if program_end(ts, p) == ts.len() {
            Ok(SyntaxTreeV { graphs: gs })
        } else {
            Err(ParseError { span: span_at(ts, program_end(ts, p)) })
        },
        Option::None => Err(ParseError { span: span_at(ts, 0) }),
    }
}

// ---------------------------------------------------------------------------
// Reading tokens
// ---------------------------------------------------------------------------

fn punct_at(ts: &Vec<Token>, i: usize, c: char) -> (r: bool)
    ensures
        r == is_punct(ts@, i as int, c),
{
    if i < ts.len() {
        match &ts[i].kind {
            TokenKind::Punct(d, _) => *d == c,
            _ => false,
        }
    } else {
        false
    }
}

/// An owned copy of `s`.
pub fn copy_chars(s: &Vec<char>) -> (r: Vec<char>)
    ensures
        r@ == s@,
{
    let mut r: Vec<char> = Vec::new();
    let mut i: usize = 0;
    while i < s.len()
        invariant
            i <= s@.len(),
            r@ == s@.take(i as int),
        decreases s@.len() - i,
    {
        r.push(s[i]);
        i += 1;
        assert(r@ =~= s@.take(i as int));
    }
    assert(s@.take(i as int) =~= s@);
    r
}

fn ident_at(ts: &Vec<Token>, pos: usize) -> (r: Option<Ident>)
    ensures
        match r {
            Some(id) => sp_ident(ts@, pos as int) == Some(id.view()),
            Option::None => sp_ident(ts@, pos as int) is None,
        },
{
    if pos < ts.len() {
        match &ts[pos].kind {
            TokenKind::Ident(n) => Some(Ident { name: copy_chars(n), span: ts[pos].span }),
            _ => Option::None,
        }
    } else {
        Option::None
    }
}

fn bracketed(ts: &Vec<Token>, pos: usize) -> (r: Option<Ident>)
    ensures
        match r {
            Some(id) => sp_bracketed(ts@, pos as int) == Some(id.view()),
            Option::None => sp_bracketed(ts@, pos as int) is None,
        },
{
    if pos < ts.len() {
        match &ts[pos].kind {
            TokenKind::Group(Delimiter::Bracket, inner) => {
                if inner.len() == 1 {
                    ident_at(inner, 0)
                } else {
                    Option::None
                }
            },
            _ => Option::None,
        }
    } else {
        Option::None
    }
}

fn joint_colon_at(ts: &Vec<Token>, i: usize) -> (r: bool)
    ensures
        r == is_joint_colon(ts@, i as int),
{
    if i < ts.len() {
        match &ts[i].kind {
            TokenKind::Punct(d, sp) => *d == ':' && *sp == Spacing::Joint,
            _ => false,
        }
    } else {
        false
    }
}

fn ends_type_at(ts: &Vec<Token>, i: usize) -> (r: bool)
    requires
        i < ts@.len(),
    ensures
        r == ends_type(ts@, i as int),
{
    let _n = ts.len();
    let sep = (joint_colon_at(ts, i) && punct_at(ts, i + 1, ':')) || (i > 0 && joint_colon_at(ts, i - 1)
        && punct_at(ts, i, ':'));
    (punct_at(ts, i, ':') && !sep) || punct_at(ts, i, ';') || punct_at(ts, i, '|') || punct_at(ts, i, ',')
        || (punct_at(ts, i, '-') && punct_at(ts, i + 1, '>'))
}

fn type_run(ts: &Vec<Token>, pos: usize) -> (r: usize)
    requires
        pos <= ts@.len(),
    ensures
        r == type_run_len(ts@, pos as int),
        pos + r <= ts@.len(),
{
    let mut i = pos;
    while i < ts.len() && !ends_type_at(ts, i)
        invariant
            pos <= i <= ts@.len(),
            type_run_len(ts@, pos as int) == (i - pos) + type_run_len(ts@, i as int),
        decreases ts@.len() - i,
    {
        i += 1;
    }
    i - pos
}

proof fn lemma_token_in_range(ts: Seq<Token>, s: int, e: int, i: int)
    requires
        0 <= s <= i < e <= ts.len(),
    ensures
        crate::dsl::token::token_size(ts[i]) <= crate::dsl::token::tokens_size(ts.subrange(s, e)),
    decreases e - s,
{
    let r = ts.subrange(s, e);
    assert(r.drop_last() =~= ts.subrange(s, e - 1));
    if i < e - 1 {
        lemma_token_in_range(ts, s, e - 1, i);
    } else {
        assert(r.last() == ts[i]);
    }
}

/// Appends the text of `t` to `out`.
fn push_token_text(t: &Token, out: &mut Vec<char>)
    ensures
        final(out)@ == old(out)@ + token_text(*t),
    decreases crate::dsl::token::token_size(*t), 1int,
{
    match &t.kind {
        TokenKind::Ident(n) => push_chars(out, n),
        TokenKind::Punct(c, _) => {
            out.push(*c);
            assert(seq![*c] =~= Seq::<char>::empty().push(*c));
        },
        TokenKind::Literal(l) => push_chars(out, l),
        TokenKind::Group(d, inner) => {
            let ghost o0 = out@;
            push_open(*d, out);
            proof {
                assert(inner@.subrange(0, inner@.len() as int) =~= inner@);
            }
            push_tokens_text(inner, 0, inner.len(), out);
            push_close(*d, out);
            assert(out@ =~= o0 + token_text(*t));
        },
    }
}

/// Appends the text of the tokens from `start` to `end` to `out`.
fn push_tokens_text(ts: &Vec<Token>, start: usize, end: usize, out: &mut Vec<char>)
    requires
        start <= end <= ts@.len(),
    ensures
        final(out)@ == old(out)@ + tokens_text(ts@.subrange(start as int, end as int)),
    decreases crate::dsl::token::tokens_size(ts@.subrange(start as int, end as int)), 2int,
{
    let ghost o0 = out@;
    let mut i = start;
    assert(ts@.subrange(start as int, start as int) =~= Seq::<Token>::empty());
    while i < end
        invariant
            start <= i <= end <= ts@.len(),
            out@ == o0 + tokens_text(ts@.subrange(start as int, i as int)),
        decreases end - i,
    {
        proof {
            lemma_token_in_range(ts@, start as int, end as int, i as int);
        }
        push_token_text(&ts[i], out);
        proof {
            let sub = ts@.subrange(start as int, i as int + 1);
            assert(sub.drop_last() =~= ts@.subrange(start as int, i as int));
            assert(sub.last() == ts@[i as int]);
        }
        i += 1;
    }
}

/// Appends the characters of `s` to `out`.
pub fn push_chars_pub(out: &mut Vec<char>, s: &Vec<char>)
    ensures
        final(out)@ == old(out)@ + s@,
{
    push_chars(out, s)
}

fn push_chars(out: &mut Vec<char>, s: &Vec<char>)
    ensures
        final(out)@ == old(out)@ + s@,
{
    let ghost o0 = out@;
    let mut i: usize = 0;
    while i < s.len()
        invariant
            i <= s@.len(),
            out@ == o0 + s@.take(i as int),
        decreases s@.len() - i,
    {
        out.push(s[i]);
        i += 1;
        assert(out@ =~= o0 + s@.take(i as int));
    }
    assert(s@.take(i as int) =~= s@);
}

fn push_open(d: Delimiter, out: &mut Vec<char>)
    ensures
        final(out)@ == old(out)@ + open_text(d),
{
    match d {
        Delimiter::Parenthesis => out.push('('),
        Delimiter::Brace => out.push('{'),
        Delimiter::Bracket => out.push('['),
        Delimiter::Invisible => {},
    }
    assert(out@ =~= old(out)@ + open_text(d));
}

fn push_close(d: Delimiter, out: &mut Vec<char>)
    ensures
        final(out)@ == old(out)@ + close_text(d),
{
    match d {
        Delimiter::Parenthesis => out.push(')'),
        Delimiter::Brace => out.push('}'),
        Delimiter::Bracket => out.push(']'),
        Delimiter::Invisible => {},
    }
    assert(out@ =~= old(out)@ + close_text(d));
}

/// `s` without its spaces.
pub fn strip_spaces(s: &Vec<char>) -> (r: Vec<char>)
    ensures
        r@ == without_spaces(s@),
{
    let mut r: Vec<char> = Vec::new();
    let mut i: usize = 0;
    while i < s.len()
        invariant
            i <= s@.len(),
            r@ == without_spaces(s@.take(i as int)),
        decreases s@.len() - i,
    {
        let c = s[i];
        if c != ' ' {
            r.push(c);
        }
        proof {
            let t = s@.take(i as int + 1);
            assert(t.drop_last() =~= s@.take(i as int));
            assert(t.last() == c);
        }
        i += 1;
        assert(r@ =~= without_spaces(s@.take(i as int)));
    }
    assert(s@.take(i as int) =~= s@);
    r
}

// ---------------------------------------------------------------------------
// The parsers
// ---------------------------------------------------------------------------

fn parse_type(ts: &Vec<Token>, path: &Vec<usize>, pos: usize) -> (r: Option<(TypeRef, usize)>)
    requires
        pos <= ts@.len(),
    ensures
        match r {
            Some((t, p)) => sp_type(ts@, path@, pos as int) == Some((t.view(), p as int)) && pos < p
                <= ts@.len(),
            Option::None => sp_type(ts@, path@, pos as int) is None,
        },
{
    let _n = ts.len();
    let len = type_run(ts, pos);
    if len == 0 {
        return Option::None;
    }
    if !is_rust_type(ts, pos, len) {
        return Option::None;
    }
    let mut text: Vec<char> = Vec::new();
    push_tokens_text(ts, pos, pos + len, &mut text);
    assert(text@ =~= tokens_text(ts@.subrange(pos as int, pos + len)));
    let key = strip_spaces(&text);
    let typ = TypeRef { path: crate::adjacency::copy_vec(path), start: pos, len, key, span: ts[pos].span };
    Some((typ, pos + len))
}

fn parse_decl(ts: &Vec<Token>, path: &Vec<usize>, pos: usize) -> (r: Option<(NodeExpr, usize)>)
    requires
        pos <= ts@.len(),
    ensures
        match r {
            Some((e, p)) => sp_decl(ts@, path@, pos as int) == Some((node_view(e), p as int)) && pos
                < p <= ts@.len(),
            Option::None => sp_decl(ts@, path@, pos as int) is None,
        },
{
    if pos < ts.len() {
        match &ts[pos].kind {
            TokenKind::Group(d, _) => {
                if *d == Delimiter::Bracket || *d == Delimiter::Parenthesis {
                    return Option::None;
                }
            },
            _ => {},
        }
    }
    if let Some(var) = ident_at(ts, pos) {
        if punct_at(ts, pos + 1, ':') {
            if let Some((typ, p)) = parse_type(ts, path, pos + 2) {
                return Some((NodeExpr::Declaration(Task { var: Some(var), typ }), p));
            }
        }
    }
    match parse_type(ts, path, pos) {
        Some((typ, p)) => Some((NodeExpr::Declaration(Task { var: Option::None, typ }), p)),
        Option::None => Option::None,
    }
}

fn parse_node(ts: &Vec<Token>, path: &Vec<usize>, pos: usize) -> (r: Option<(NodeExpr, usize)>)
    requires
        pos <= ts@.len(),
    ensures
        match r {
            Some((e, p)) => sp_node(ts@, path@, pos as int) == Some((node_view(e), p as int)) && pos
                < p <= ts@.len(),
            Option::None => sp_node(ts@, path@, pos as int) is None,
        },
    decreases rem(ts@, pos as int), 1int,
{
    let _n = ts.len();
    if punct_at(ts, pos, '#') {
        if let Some(id) = bracketed(ts, pos + 1) {
            return Some((NodeExpr::Embedding(id), pos + 2));
        }
    }
    if let Some(id) = bracketed(ts, pos) {
        return Some((NodeExpr::Binding(id), pos + 1));
    }
    if let Some(r) = parse_decl(ts, path, pos) {
        return Some(r);
    }
    parse_group(ts, path, pos)
}

fn parse_group(ts: &Vec<Token>, path: &Vec<usize>, pos: usize) -> (r: Option<(NodeExpr, usize)>)
    requires
        pos <= ts@.len(),
    ensures
        match r {
            Some((e, p)) => sp_group(ts@, path@, pos as int) == Some((node_view(e), p as int)) && pos
                < p <= ts@.len(),
            Option::None => sp_group(ts@, path@, pos as int) is None,
        },
    decreases rem(ts@, pos as int), 0int,
{
    if pos < ts.len() {
        match &ts[pos].kind {
            TokenKind::Group(Delimiter::Parenthesis, inner) => {
                proof {
                    lemma_rem_inner(ts@, pos as int, Delimiter::Parenthesis, *inner);
                }
                let mut inner_path = crate::adjacency::copy_vec(path);
                inner_path.push(pos);
                let span = SpanInfo { span: ts[pos].span, at_call_site: false };
                match parse_block(inner, &inner_path, span) {
                    Some((b, p)) => {
                        if p == inner.len() {
                            Some((NodeExpr::Group(b), pos + 1))
                        } else {
                            Option::None
                        }
                    },
                    Option::None => Option::None,
                }
            },
            _ => Option::None,
        }
    } else {
        Option::None
    }
}

fn parse_block(ts: &Vec<Token>, path: &Vec<usize>, span: SpanInfo) -> (r: Option<(GroupBlock, usize)>)
    ensures
        match r {
            Some((b, p)) => sp_block(ts@, path@, span) == Some(
                (
                    GroupBlockV { mode: b.mode, graphs: graphs_view(b.graphs@), span_info: b.span_info },
                    p as int,
                ),
            ) && p <= ts@.len() && b.graphs@.len() >= 1,
            Option::None => sp_block(ts@, path@, span) is None,
        },
    decreases rem(ts@, 0), 5int,
{
    if let Some((graphs, p)) = parse_separated(ts, path, 0, '|', 2) {
        return Some((GroupBlock { mode: SchedulingMode::Parallel, graphs, span_info: span }, p));
    }
    match parse_separated(ts, path, 0, ',', 1) {
        Some((graphs, p)) => Some((GroupBlock { mode: SchedulingMode::Sequence, graphs, span_info: span }, p)),
        Option::None => Option::None,
    }
}

proof fn lemma_graphs_view_prepend(g: Graph, gs: Seq<Graph>)
    ensures
        graphs_view(seq![g] + gs) == seq![graph_view(g)] + graphs_view(gs),
    decreases gs.len(),
{
    if gs.len() == 0 {
        assert(seq![g] + gs =~= seq![g]);
        assert(seq![g].drop_last() =~= Seq::<Graph>::empty());
        assert(seq![g].last() == g);
        assert(graphs_view(Seq::<Graph>::empty()) =~= Seq::<GraphV>::empty());
        assert(graphs_view(seq![g]) =~= seq![graph_view(g)]);
    } else {
        lemma_graphs_view_prepend(g, gs.drop_last());
        assert((seq![g] + gs).drop_last() =~= seq![g] + gs.drop_last());
        assert(seq![graph_view(g)] + graphs_view(gs) =~= (seq![graph_view(g)] + graphs_view(gs.drop_last())).push(
            graph_view(gs.last()),
        ));
    }
}

proof fn lemma_nodes_view_prepend(n: NodeExpr, ns: Seq<NodeExpr>)
    ensures
        nodes_view(seq![n] + ns) == seq![node_view(n)] + nodes_view(ns),
    decreases ns.len(),
{
    if ns.len() == 0 {
        assert(seq![n] + ns =~= seq![n]);
        assert(seq![n].drop_last() =~= Seq::<NodeExpr>::empty());
        assert(seq![n].last() == n);
        assert(nodes_view(Seq::<NodeExpr>::empty()) =~= Seq::<NodeExprV>::empty());
        assert(nodes_view(seq![n]) =~= seq![node_view(n)]);
    } else {
        lemma_nodes_view_prepend(n, ns.drop_last());
        assert((seq![n] + ns).drop_last() =~= seq![n] + ns.drop_last());
        assert(seq![node_view(n)] + nodes_view(ns) =~= (seq![node_view(n)] + nodes_view(ns.drop_last())).push(
            node_view(ns.last()),
        ));
    }
}

proof fn lemma_graphs_view_len(gs: Seq<Graph>)
    ensures
        graphs_view(gs).len() == gs.len(),
    decreases gs.len(),
{
    if gs.len() > 0 {
        lemma_graphs_view_len(gs.drop_last());
    }
}

/// Puts `g` in front of `gs`.
fn prepend_graph(g: Graph, gs: Vec<Graph>) -> (r: Vec<Graph>)
    ensures
        r@ == seq![g] + gs@,
{
    let mut r: Vec<Graph> = Vec::new();
    r.push(g);
    let mut rest = gs;
    r.append(&mut rest);
    assert(r@ =~= seq![g] + gs@);
    r
}

/// Puts `n` in front of `ns`.
fn prepend_node(n: NodeExpr, ns: Vec<NodeExpr>) -> (r: Vec<NodeExpr>)
    ensures
        r@ == seq![n] + ns@,
{
    let mut r: Vec<NodeExpr> = Vec::new();
    r.push(n);
    let mut rest = ns;
    r.append(&mut rest);
    assert(r@ =~= seq![n] + ns@);
    r
}

fn parse_separated(ts: &Vec<Token>, path: &Vec<usize>, pos: usize, sep: char, min: usize) -> (r: Option<(Vec<Graph>, usize)>)
    requires
        pos <= ts@.len(),
    ensures
        match r {
            Some((gs, p)) => sp_separated(ts@, path@, pos as int, sep, min as nat) == Some(
                (graphs_view(gs@), p as int),
            ) && pos <= p <= ts@.len() && gs@.len() >= min,
            Option::None => sp_separated(ts@, path@, pos as int, sep, min as nat) is None,
        },
    decreases rem(ts@, pos as int), 4int,
{
    match parse_graph(ts, path, pos) {
        Some((g, p)) => {
            proof {
                lemma_rem_mono(ts@, pos as int, p as int);
            }
            match parse_more(ts, path, p, sep, 1, min) {
                Some((gs, q)) => {
                    let ghost gs0 = gs@;
                    let all = prepend_graph(g, gs);
                    proof {
                        lemma_graphs_view_prepend(g, gs0);
                    }
                    Some((all, q))
                },
                Option::None => Option::None,
            }
        },
        Option::None => {
            if min == 0 {
                let empty: Vec<Graph> = Vec::new();
                assert(graphs_view(empty@) =~= Seq::<GraphV>::empty());
                Some((empty, pos))
            } else {
                Option::None
            }
        },
    }
}

fn parse_more(ts: &Vec<Token>, path: &Vec<usize>, pos: usize, sep: char, count: usize, min: usize) -> (r: Option<(Vec<Graph>, usize)>)
    requires
        pos <= ts@.len(),
        1 <= count <= pos,
    ensures
        match r {
            Some((gs, p)) => sp_more(ts@, path@, pos as int, sep, count as nat, min as nat) == Some(
                (graphs_view(gs@), p as int),
            ) && pos <= p <= ts@.len() && gs@.len() + count >= min,
            Option::None => sp_more(ts@, path@, pos as int, sep, count as nat, min as nat) is None,
        },
    decreases rem(ts@, pos as int), 3int,
{
    let _n = ts.len();
    if punct_at(ts, pos, sep) {
        proof {
            lemma_rem_mono(ts@, pos as int, pos as int + 1);
        }
        match parse_graph(ts, path, pos + 1) {
            Some((g, p)) => {
                proof {
                    lemma_rem_mono(ts@, pos as int, p as int);
                }
                match parse_more(ts, path, p, sep, count + 1, min) {
                    Some((gs, q)) => {
                        let ghost gs0 = gs@;
                        let all = prepend_graph(g, gs);
                        proof {
                            lemma_graphs_view_prepend(g, gs0);
                        }
                        Some((all, q))
                    },
                    Option::None => Option::None,
                }
            },
            Option::None => {
                if count < min {
                    Option::None
                } else {
                    let empty: Vec<Graph> = Vec::new();
                    assert(graphs_view(empty@) =~= Seq::<GraphV>::empty());
                    Some((empty, pos))
                }
            },
        }
    } else if count < min {
        Option::None
    } else {
        let empty: Vec<Graph> = Vec::new();
        assert(graphs_view(empty@) =~= Seq::<GraphV>::empty());
        Some((empty, pos))
    }
}

fn parse_conns(ts: &Vec<Token>, path: &Vec<usize>, pos: usize) -> (r: (Vec<NodeExpr>, usize))
    requires
        pos <= ts@.len(),
    ensures
        sp_conns(ts@, path@, pos as int) == (nodes_view(r.0@), r.1 as int),
        pos <= r.1 <= ts@.len(),
    decreases rem(ts@, pos as int), 3int,
{
    let _n = ts.len();
    if punct_at(ts, pos, '-') && punct_at(ts, pos + 1, '>') {
        proof {
            lemma_rem_mono(ts@, pos as int, pos as int + 2);
        }
        match parse_node(ts, path, pos + 2) {
            Some((e, p)) => {
                proof {
                    lemma_rem_mono(ts@, pos as int, p as int);
                }
                let (cs, q) = parse_conns(ts, path, p);
                let ghost cs0 = cs@;
                let all = prepend_node(e, cs);
                proof {
                    lemma_nodes_view_prepend(e, cs0);
                }
                (all, q)
            },
            Option::None => {
                let empty: Vec<NodeExpr> = Vec::new();
                assert(nodes_view(empty@) =~= Seq::<NodeExprV>::empty());
                (empty, pos)
            },
        }
    } else {
        let empty: Vec<NodeExpr> = Vec::new();
        assert(nodes_view(empty@) =~= Seq::<NodeExprV>::empty());
        (empty, pos)
    }
}

fn parse_graph(ts: &Vec<Token>, path: &Vec<usize>, pos: usize) -> (r: Option<(Graph, usize)>)
    requires
        pos <= ts@.len(),
    ensures
        match r {
            Some((g, p)) => sp_graph(ts@, path@, pos as int) == Some((graph_view(g), p as int)) && pos
                < p <= ts@.len(),
            Option::None => sp_graph(ts@, path@, pos as int) is None,
        },
    decreases rem(ts@, pos as int), 2int,
{
    let span_info = if pos < ts.len() {
        SpanInfo { span: ts[pos].span, at_call_site: false }
    } else {
        SpanInfo { span: 0, at_call_site: true }
    };
    match parse_node(ts, path, pos) {
        Some((entry, p)) => {
            proof {
                lemma_rem_mono(ts@, pos as int, p as int);
            }
            let (conns, q) = parse_conns(ts, path, p);
            Some((Graph { entry, conns, span_info }, q))
        },
        Option::None => Option::None,
    }
}

/// Where the syntax at `pos` starts: its token, or the call site past the end.
fn span_of(ts: &Vec<Token>, pos: usize) -> (r: SpanInfo)
    ensures
        r == span_at(ts@, pos as int),
{
    if pos < ts.len() {
        SpanInfo { span: ts[pos].span, at_call_site: false }
    } else {
        SpanInfo { span: 0, at_call_site: true }
    }
}

/// Reads a program: its statements, separated by `;`, with an optional `;`
/// after the last; refused at the first token that cannot be read.
pub fn parse(ts: &Vec<Token>) -> (r: Result<SyntaxTree, ParseError>)
    ensures
        match sp_program(ts@) {
            Ok(t) => r matches Ok(a) && a.view() == t,
            Err(e) => r == Err::<SyntaxTree, ParseError>(e),
        },
{
    let path: Vec<usize> = Vec::new();
    let _n = ts.len();
    match parse_separated(ts, &path, 0, ';', 0) {
        Some((graphs, p)) => {
            let end = if punct_at(ts, p, ';') {
                p + 1
            } else {
                p
            };
            if end == ts.len() {
                Ok(SyntaxTree { graphs })
            } else {
                Err(ParseError { span: span_of(ts, end) })
            }
        },
        Option::None => Err(ParseError { span: span_of(ts, 0) }),
    }
}

} // verus!
