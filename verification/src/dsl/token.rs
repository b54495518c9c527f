//! Tokens of the orchestration language as plain values, each carrying the
//! token tree it was read from.
use vstd::prelude::*;

verus! {

#[verifier::external_type_specification]
#[verifier::external_body]
pub struct ExTokenTree(proc_macro2::TokenTree);

/// Whether a punctuation character is glued to the next one.
#[derive(Debug, Clone, Copy, PartialEq, Eq, Structural)]
pub enum Spacing {
    Alone,
    Joint,
}

/// The brackets around a group of tokens.
#[derive(Debug, Clone, Copy, PartialEq, Eq, Structural)]
pub enum Delimiter {
    Parenthesis,
    Brace,
    Bracket,
    Invisible,
}

/// What a token is.
pub enum TokenKind {
    Ident(Vec<char>),
    Punct(char, Spacing),
    Literal(Vec<char>),
    Group(Delimiter, Vec<Token>),
}

/// A token: its kind, the index of its source location, and the token tree it
/// was read from.
pub struct Token {
    pub kind: TokenKind,
    pub span: usize,
    pub raw: proc_macro2::TokenTree,
}

/// The number of tokens in `t`, counting those nested in groups.
pub open spec fn token_size(t: Token) -> nat
    decreases t,
{
    match t.kind {
        TokenKind::Group(_, inner) => 1 + tokens_size(inner@),
        _ => 1,
    }
}

pub open spec fn tokens_size(ts: Seq<Token>) -> nat
    decreases ts,
{
    if ts.len() == 0 {
        0
    } else {
        tokens_size(ts.drop_last()) + token_size(ts.last())
    }
}

/// The tokens of `ts` from `pos` to the end, counted with their nested tokens.
pub open spec fn rem(ts: Seq<Token>, pos: int) -> nat {
    tokens_size(ts.subrange(pos, ts.len() as int))
}

pub proof fn lemma_tokens_size_concat(a: Seq<Token>, b: Seq<Token>)
    ensures
        tokens_size(a + b) == tokens_size(a) + tokens_size(b),
    decreases b.len(),
{
    if b.len() == 0 {
        assert(a + b =~= a);
    } else {
        lemma_tokens_size_concat(a, b.drop_last());
        assert((a + b).drop_last() =~= a + b.drop_last());
    }
}

/// Moving past a token strictly shrinks what remains.
pub proof fn lemma_rem_step(ts: Seq<Token>, pos: int)
    requires
        0 <= pos < ts.len(),
    ensures
        rem(ts, pos) == token_size(ts[pos]) + rem(ts, pos + 1),
        token_size(ts[pos]) >= 1,
{
    assert(ts.subrange(pos, ts.len() as int) =~= seq![ts[pos]] + ts.subrange(pos + 1, ts.len() as int));
    lemma_tokens_size_concat(seq![ts[pos]], ts.subrange(pos + 1, ts.len() as int));
    let one = seq![ts[pos]];
    assert(one.drop_last() =~= Seq::<Token>::empty());
    assert(one.last() == ts[pos]);
    assert(tokens_size(one.drop_last()) == 0);
    assert(tokens_size(one) == token_size(ts[pos]));
    assert(token_size(ts[pos]) >= 1);
}

/// Further positions leave less.
pub proof fn lemma_rem_mono(ts: Seq<Token>, pos: int, p: int)
    requires
        0 <= pos < p <= ts.len(),
    ensures
        rem(ts, p) < rem(ts, pos),
    decreases p - pos,
{
    lemma_rem_step(ts, pos);
    if pos + 1 < p {
        lemma_rem_mono(ts, pos + 1, p);
    }
}

/// The tokens inside a group are fewer than what remains from the group on.
pub proof fn lemma_rem_inner(ts: Seq<Token>, pos: int, d: Delimiter, inner: Vec<Token>)
    requires
        0 <= pos < ts.len(),
        ts[pos].kind == TokenKind::Group(d, inner),
    ensures
        rem(inner@, 0) < rem(ts, pos),
{
    lemma_rem_step(ts, pos);
    assert(inner@.subrange(0, inner@.len() as int) =~= inner@);
}

} // verus!
