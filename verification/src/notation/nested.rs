//! The statements of an agent inside of other Rust code.
use vstd::prelude::*;
use vstd::string::*;

use crate::notation::expand;
use crate::notation::expand::{code_view, join, read_inner_shape, regular_code, Mode};
use crate::notation::parse::{ErrorView, ParseError};
use crate::notation::token;
use crate::notation::token::{
    has_group, has_mark, has_word, is_name, lex, read_expr_shape, read_stmt_shape, render, ExprShape,
    ExprShapeView, Kind, StmtShape, Token, TokenView,
};

verus! {

/// What stands in the brackets at `i` is no code of the function: the
/// arguments of a macro, the rules of one, or an attribute.
pub open spec fn closed_off(ts: Seq<TokenView>, i: int) -> bool {
    ||| token::mark_at(ts, i - 1, '!') && i >= 2 && ts[i - 2].kind == Kind::Word && token::name(
        ts[i - 2].text,
    )
    ||| token::mark_at(ts, i - 2, '!') && token::word_at(ts, i - 3, "macro_rules"@)
    ||| token::group_at(ts, i, '[') && (token::mark_at(ts, i - 1, '#') || (token::mark_at(
        ts,
        i - 1,
        '!',
    ) && token::mark_at(ts, i - 2, '#')))
}

/// What stands in the brackets at `i` is no code of the function.
fn is_closed_off(ts: &Vec<Token>, i: usize) -> (r: bool)
    requires
        i < ts@.len(),
    ensures
        r == closed_off(token::seen(ts@), i as int),
{
    if i >= 2 && has_mark(ts, i - 1, '!') && matches!(ts[i - 2].kind, Kind::Word) && is_name(
        ts[i - 2].text.as_str(),
    ) {
        return true;
    }
    if i >= 3 && has_mark(ts, i - 2, '!') && has_word(ts, i - 3, "macro_rules") {
        return true;
    }
    if i >= 1 && has_group(ts, i, '[') {
        return has_mark(ts, i - 1, '#') || (i >= 2 && has_mark(ts, i - 1, '!') && has_mark(
            ts,
            i - 2,
            '#',
        ));
    }
    false
}

/// Code in the brackets of a group.
pub open spec fn bracketed(group: TokenView, code: Seq<char>) -> Seq<char> {
    if group.is_group('{') {
        "{ "@ + code + "} "@
    } else if group.is_group('(') {
        "("@ + code + ") "@
    } else if group.is_group('[') {
        "["@ + code + "] "@
    } else {
        code
    }
}

/// Code in the brackets of the group at `i`.
fn bracket(ts: &Vec<Token>, i: usize, code: &str) -> (r: String)
    requires
        i < ts@.len(),
    ensures
        r@ == bracketed(token::seen(ts@)[i as int], code@),
{
    if has_group(ts, i, '{') {
        let mut s: String = "{ ".to_owned();
        s.append(code);
        s.append("} ");
        s
    } else if has_group(ts, i, '(') {
        let mut s: String = "(".to_owned();
        s.append(code);
        s.append(") ");
        s
    } else if has_group(ts, i, '[') {
        let mut s: String = "[".to_owned();
        s.append(code);
        s.append("] ");
        s
    } else {
        code.to_owned()
    }
}

/// A statement of Rust in an agent. What the statement itself stands for, it
/// becomes; else the statements in it, however deep, become what they stand
/// for, and the rest stays as it is. Brackets may be nested `depth` deep.
pub open spec fn rewritten(text: Seq<char>, shared: Seq<Seq<char>>, depth: nat) -> Result<
    Seq<char>,
    ErrorView,
>
    decreases depth, 2nat, 0nat,
{
    let stmt = token::stmt_shape(text);
    let own = expand::regular(text, Mode::Agent, shared, stmt, expand::inner_shape(stmt));
    if own != text {
        Ok(own)
    } else {
        match token::lexed(text) {
            None => Err(ErrorView::Tokens),
            Some(ts) => match rewritten_tokens(ts, ts.len() as int, shared, depth) {
                Err(e) => Err(e),
                Ok(code) => Ok(
                    if code == token::rendered(ts) {
                        text
                    } else {
                        code
                    },
                ),
            },
        }
    }
}

/// Statements of Rust in an agent.
pub open spec fn rewritten_all(stmts: Seq<Seq<char>>, shared: Seq<Seq<char>>, depth: nat) -> Result<
    Seq<char>,
    ErrorView,
>
    decreases depth, 3nat, stmts.len(),
{
    if stmts.len() == 0 {
        Ok(Seq::empty())
    } else {
        match (
            rewritten_all(stmts.drop_last(), shared, depth),
            rewritten(stmts.last(), shared, depth),
        ) {
            (Err(e), _) => Err(e),
            (_, Err(e)) => Err(e),
            (Ok(a), Ok(b)) => Ok(a + b + " "@),
        }
    }
}

/// The first `n` tokens, with the statements in them rewritten.
pub open spec fn rewritten_tokens(
    ts: Seq<TokenView>,
    n: int,
    shared: Seq<Seq<char>>,
    depth: nat,
) -> Result<Seq<char>, ErrorView>
    decreases depth, 1nat, n,
{
    if n <= 0 {
        Ok(Seq::empty())
    } else {
        match (
            rewritten_tokens(ts, n - 1, shared, depth),
            rewritten_token(ts, n - 1, shared, depth),
        ) {
            (Err(e), _) => Err(e),
            (_, Err(e)) => Err(e),
            (Ok(a), Ok(b)) => Ok(a + b),
        }
    }
}

/// The token at `i`, with the statements in it rewritten: those of a block,
/// and those inside of brackets of any other kind.
pub open spec fn rewritten_token(
    ts: Seq<TokenView>,
    i: int,
    shared: Seq<Seq<char>>,
    depth: nat,
) -> Result<Seq<char>, ErrorView>
    decreases depth, 0nat, 0nat,
{
    let t = ts[i];
    if t.kind != Kind::Group || closed_off(ts, i) {
        Ok(t.shown())
    } else if depth == 0 {
        Err(ErrorView::Deep)
    } else {
        match block_in(t) {
            Some(stmts) => match rewritten_all(stmts, shared, (depth - 1) as nat) {
                Err(e) => Err(e),
                Ok(code) => Ok(kept_or(t, code, expand::joined(stmts))),
            },
            None => match token::lexed(t.inner) {
                None => Err(ErrorView::Tokens),
                Some(us) => match rewritten_tokens(us, us.len() as int, shared, (depth - 1) as nat) {
                    Err(e) => Err(e),
                    Ok(code) => Ok(kept_or(t, code, token::rendered(us))),
                },
            },
        }
    }
}

/// The group as it is where its code did not change, else with the new code.
pub open spec fn kept_or(t: TokenView, code: Seq<char>, was: Seq<char>) -> Seq<char> {
    if code == was {
        t.shown()
    } else {
        bracketed(t, code)
    }
}

/// The statements of the block that a group is, if it is one.
pub open spec fn block_in(t: TokenView) -> Option<Seq<Seq<char>>> {
    if t.is_group('{') {
        match token::expr_shape("{ "@ + t.inner + "}"@) {
            ExprShapeView::Block { stmts, .. } => Some(stmts),
            _ => None,
        }
    } else {
        None
    }
}

/// The statements of the block that the group at `i` is, if it is one.
fn read_block(ts: &Vec<Token>, i: usize) -> (r: Option<Vec<String>>)
    requires
        i < ts@.len(),
    ensures
        block_in(token::seen(ts@)[i as int]) == (match r {
            Some(v) => Some(token::spelled(v@)),
            None => None,
        }),
{
    if !has_group(ts, i, '{') {
        return None;
    }
    let mut text: String = "{ ".to_owned();
    text.append(ts[i].inner.as_str());
    text.append("}");
    match read_expr_shape(text.as_str()) {
        ExprShape::Block { stmts, .. } => Some(stmts),
        _ => None,
    }
}

/// A token as it is, with the gap after it.
fn show(ts: &Vec<Token>, i: usize) -> (r: String)
    requires
        i < ts@.len(),
    ensures
        r@ == token::seen(ts@)[i as int].shown(),
{
    let mut s: String = ts[i].text.as_str().to_owned();
    if !ts[i].joint {
        proof {
            reveal_strlit(" ");
        }
        s.append(" ");
        assert(s@ =~= ts@[i as int].text@.push(' '));
    }
    s
}

/// The group at `i` as it is where its code did not change, else with the new
/// code.
fn keep_or(ts: &Vec<Token>, i: usize, code: &str, was: &str) -> (r: String)
    requires
        i < ts@.len(),
    ensures
        r@ == kept_or(token::seen(ts@)[i as int], code@, was@),
{
    if crate::text::same(code, was) {
        show(ts, i)
    } else {
        bracket(ts, i, code)
    }
}

/// A statement of Rust in an agent. Brackets may be nested `depth` deep.
pub fn rewrite(text: &str, shared: &Vec<String>, depth: usize) -> (r: Result<String, ParseError>)
    ensures
        code_view(r) == rewritten(text@, token::spelled(shared@), depth as nat),
    decreases depth, 2nat,
{
    let stmt: StmtShape = read_stmt_shape(text);
    let expr: ExprShape = read_inner_shape(&stmt);
    let own: String = regular_code(text, Mode::Agent, shared, &stmt, &expr);
    if !crate::text::same(own.as_str(), text) {
        return Ok(own);
    }
    let ts: Vec<Token> = match lex(text) {
        Some(ts) => ts,
        None => {
            return Err(ParseError::Tokens);
        },
    };
    match rewrite_tokens(&ts, shared, depth) {
        Err(e) => Err(e),
        Ok(code) => {
            let was: String = render(&ts, 0, ts.len());
            proof {
                let all = token::seen(ts@);
                assert(all.subrange(0, all.len() as int) =~= all);
            }
            if crate::text::same(code.as_str(), was.as_str()) {
                Ok(text.to_owned())
            } else {
                Ok(code)
            }
        },
    }
}

/// Statements of Rust in an agent.
pub fn rewrite_all(stmts: &Vec<String>, shared: &Vec<String>, depth: usize) -> (r: Result<
    String,
    ParseError,
>)
    ensures
        code_view(r) == rewritten_all(
            token::spelled(stmts@),
            token::spelled(shared@),
            depth as nat,
        ),
    decreases depth, 3nat,
{
    let ghost all = token::spelled(stmts@);
    let n: usize = stmts.len();
    let mut out: String = String::new();
    let mut i: usize = 0;
    assert(all.take(0) =~= Seq::empty());
    assert(out@ =~= Seq::empty());
    while i < n
        invariant
            n == stmts@.len(),
            i <= n,
            all == token::spelled(stmts@),
            rewritten_all(all.take(i as int), token::spelled(shared@), depth as nat) == Ok::<
                Seq<char>,
                ErrorView,
            >(out@),
        decreases n - i,
    {
        proof {
            assert(all.take(i + 1).drop_last() =~= all.take(i as int));
            assert(all.take(i + 1).last() == stmts@[i as int]@);
        }
        match rewrite(stmts[i].as_str(), shared, depth) {
            Ok(t) => {
                out.append(t.as_str());
                out.append(" ");
            },
            Err(e) => {
                proof {
                    lemma_failed_statement(all, token::spelled(shared@), i + 1, depth as nat);
                }
                return Err(e);
            },
        }
        i = i + 1;
    }
    assert(all.take(n as int) =~= all);
    Ok(out)
}

/// Tokens with the statements in them rewritten.
fn rewrite_tokens(ts: &Vec<Token>, shared: &Vec<String>, depth: usize) -> (r: Result<
    String,
    ParseError,
>)
    ensures
        code_view(r) == rewritten_tokens(
            token::seen(ts@),
            ts@.len() as int,
            token::spelled(shared@),
            depth as nat,
        ),
    decreases depth, 1nat,
{
    let ghost all = token::seen(ts@);
    let n: usize = ts.len();
    let mut out: String = String::new();
    let mut i: usize = 0;
    assert(out@ =~= Seq::empty());
    while i < n
        invariant
            n == ts@.len(),
            i <= n,
            all == token::seen(ts@),
            rewritten_tokens(all, i as int, token::spelled(shared@), depth as nat) == Ok::<
                Seq<char>,
                ErrorView,
            >(out@),
        decreases n - i,
    {
        match rewrite_token(ts, i, shared, depth) {
            Ok(t) => {
                out.append(t.as_str());
            },
            Err(e) => {
                proof {
                    lemma_failed_token(
                        all,
                        token::spelled(shared@),
                        i + 1,
                        n as int,
                        depth as nat,
                    );
                }
                return Err(e);
            },
        }
        i = i + 1;
    }
    Ok(out)
}

/// The token at `i`, with the statements in it rewritten.
fn rewrite_token(ts: &Vec<Token>, i: usize, shared: &Vec<String>, depth: usize) -> (r: Result<
    String,
    ParseError,
>)
    requires
        i < ts@.len(),
    ensures
        code_view(r) == rewritten_token(
            token::seen(ts@),
            i as int,
            token::spelled(shared@),
            depth as nat,
        ),
    decreases depth, 0nat,
{
    if !matches!(ts[i].kind, Kind::Group) || is_closed_off(ts, i) {
        return Ok(show(ts, i));
    }
    if depth == 0 {
        return Err(ParseError::Deep);
    }
    match read_block(ts, i) {
        Some(stmts) => match rewrite_all(&stmts, shared, depth - 1) {
            Err(e) => Err(e),
            Ok(code) => Ok(keep_or(ts, i, code.as_str(), join(&stmts).as_str())),
        },
        None => {
            let us: Vec<Token> = match lex(ts[i].inner.as_str()) {
                Some(us) => us,
                None => {
                    return Err(ParseError::Tokens);
                },
            };
            match rewrite_tokens(&us, shared, depth - 1) {
                Err(e) => Err(e),
                Ok(code) => {
                    let was: String = render(&us, 0, us.len());
                    proof {
                        let all = token::seen(us@);
                        assert(all.subrange(0, all.len() as int) =~= all);
                    }
                    Ok(keep_or(ts, i, code.as_str(), was.as_str()))
                },
            }
        },
    }
}

/// Statements do not help one that fails before them.
proof fn lemma_failed_statement(
    all: Seq<Seq<char>>,
    shared: Seq<Seq<char>>,
    i: int,
    depth: nat,
)
    requires
        0 <= i <= all.len(),
        rewritten_all(all.take(i), shared, depth) is Err,
    ensures
        rewritten_all(all, shared, depth) == rewritten_all(all.take(i), shared, depth),
    decreases all.len(),
{
    if i < all.len() {
        assert(all.drop_last().take(i) =~= all.take(i));
        lemma_failed_statement(all.drop_last(), shared, i, depth);
    } else {
        assert(all.take(i) =~= all);
    }
}

/// Tokens do not help one that fails before them.
proof fn lemma_failed_token(
    ts: Seq<TokenView>,
    shared: Seq<Seq<char>>,
    i: int,
    n: int,
    depth: nat,
)
    requires
        0 <= i <= n,
        rewritten_tokens(ts, i, shared, depth) is Err,
    ensures
        rewritten_tokens(ts, n, shared, depth) == rewritten_tokens(ts, i, shared, depth),
    decreases n,
{
    if i < n {
        lemma_failed_token(ts, shared, i, n - 1, depth);
    }
}

} // verus!
