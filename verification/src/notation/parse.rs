//! How the notation is read.
use vstd::prelude::*;
use vstd::string::*;

use crate::notation::token;
use crate::notation::token::{has_group, has_mark, has_word, render, Kind, Lit, Token};
use crate::text;

verus! {

/// Why a text is not in the notation.
#[verifier::ext_equal]
pub enum ErrorView {
    /// It has no tokens.
    Tokens,
    /// This character was expected.
    Expected(char),
    /// A name was expected.
    Name,
    /// An expression or a statement was expected; what is wrong with it.
    Syntax(Seq<char>),
    /// The digits stand for no 64-bit number.
    Number(Seq<char>),
    /// Something follows an expression that should be alone.
    Leftover,
    /// Nothing was read.
    Stuck,
    /// Blocks, or calls, are nested too deep.
    Deep,
}

/// Why a text is not in the notation.
#[derive(Debug)]
pub enum ParseError {
    /// It has no tokens.
    Tokens,
    /// This character was expected.
    Expected(char),
    /// A name was expected.
    Name,
    /// An expression or a statement was expected; what is wrong with it.
    Syntax(String),
    /// The digits stand for no 64-bit number.
    Number(String),
    /// Something follows an expression that should be alone.
    Leftover,
    /// Nothing was read.
    Stuck,
    /// Blocks, or calls, are nested too deep.
    Deep,
}

impl View for ParseError {
    type V = ErrorView;

    open spec fn view(&self) -> ErrorView {
        match *self {
            ParseError::Tokens => ErrorView::Tokens,
            ParseError::Expected(c) => ErrorView::Expected(c),
            ParseError::Name => ErrorView::Name,
            ParseError::Syntax(m) => ErrorView::Syntax(m@),
            ParseError::Number(d) => ErrorView::Number(d@),
            ParseError::Leftover => ErrorView::Leftover,
            ParseError::Stuck => ErrorView::Stuck,
            ParseError::Deep => ErrorView::Deep,
        }
    }
}

/// What a statement of the notation is.
#[verifier::ext_equal]
pub enum StmtView {
    /// A wait for so many beats.
    Wait(Seq<char>),
    /// A wait for so many seconds.
    WaitSec(Seq<char>),
    /// A branch that is not waited for.
    Fork(Seq<char>),
    /// A branch that is waited for.
    Join(Seq<char>),
    /// A cancellable loop of so many rounds.
    Repeat(Seq<char>, Seq<char>),
    /// A cancellable loop without end.
    InfiniteLoop(Seq<char>),
    /// A variable with a shared value.
    Let(Seq<char>, Seq<char>),
    /// A statement of Rust.
    Regular(Seq<char>),
}

/// A statement of the notation. Expressions, and what stands in blocks, are
/// kept as text.
#[derive(Debug)]
pub enum TimingStmt {
    /// A wait for so many beats.
    Wait(String),
    /// A wait for so many seconds.
    WaitSec(String),
    /// A branch that is not waited for.
    Fork(String),
    /// A branch that is waited for.
    Join(String),
    /// A cancellable loop of so many rounds.
    Repeat(String, String),
    /// A cancellable loop without end.
    InfiniteLoop(String),
    /// A variable with a shared value.
    Let(String, String),
    /// A statement of Rust.
    Regular(String),
}

impl View for TimingStmt {
    type V = StmtView;

    open spec fn view(&self) -> StmtView {
        match *self {
            TimingStmt::Wait(e) => StmtView::Wait(e@),
            TimingStmt::WaitSec(e) => StmtView::WaitSec(e@),
            TimingStmt::Fork(b) => StmtView::Fork(b@),
            TimingStmt::Join(b) => StmtView::Join(b@),
            TimingStmt::Repeat(e, b) => StmtView::Repeat(e@, b@),
            TimingStmt::InfiniteLoop(b) => StmtView::InfiniteLoop(b@),
            TimingStmt::Let(n, e) => StmtView::Let(n@, e@),
            TimingStmt::Regular(s) => StmtView::Regular(s@),
        }
    }
}

/// What is to be read at a statement.
#[derive(Clone, Copy, Debug, PartialEq, Eq, Structural)]
pub enum Plan {
    /// The beats of a wait, from that token on.
    Beats(usize),
    /// The seconds of a wait, from that token on.
    Secs(usize),
    /// A block that is a branch.
    Fork,
    /// A block that is a branch to wait for.
    Join,
    /// A block that is a loop without end.
    Endless,
    /// The number of rounds of a loop.
    Rounds,
    /// A shared value.
    Shared,
    /// A semicolon alone.
    Empty,
    /// A statement of Rust.
    Rust,
}

/// The token `at` starts a branch or a loop of that name. Inside a block the
/// name may be that of a variable: there a block has to follow.
pub open spec fn opens(ts: Seq<token::TokenView>, at: int, block: bool, word: Seq<char>) -> bool {
    token::word_at(ts, at, word) && (!block || token::group_at(ts, at + 1, '{'))
}

/// The token `at` starts a counted loop. Inside a block its name may be that
/// of a variable: there a word, a literal, or a group in round brackets before
/// a block has to follow.
pub open spec fn counts(ts: Seq<token::TokenView>, at: int, block: bool) -> bool {
    token::word_at(ts, at, "repeat"@) && (!block || (at + 1 < ts.len() && (ts[at + 1].kind
        == Kind::Word || ts[at + 1].kind == Kind::Literal || (token::group_at(ts, at + 1, '(')
        && token::group_at(ts, at + 2, '{')))))
}

/// The token `at` starts a counted loop.
fn starts_count(ts: &Vec<Token>, at: usize, block: bool) -> (r: bool)
    requires
        at < ts@.len(),
    ensures
        r == counts(token::seen(ts@), at as int, block),
{
    assert(ts@.len() == ts.len());
    if !has_word(ts, at, "repeat") {
        return false;
    }
    if !block {
        return true;
    }
    let n: usize = ts.len();
    if n - at < 2 {
        return false;
    }
    let named: bool = matches!(ts[at + 1].kind, Kind::Word) || matches!(
        ts[at + 1].kind,
        Kind::Literal
    );
    named || (n - at > 2 && has_group(ts, at + 1, '(') && has_group(ts, at + 2, '{'))
}

/// What is to be read at the token `at`. Inside a block a semicolon may stand
/// alone.
pub open spec fn planned(ts: Seq<token::TokenView>, at: int, block: bool) -> Plan {
    if token::mark_at(ts, at, '~') {
        if token::word_at(ts, at + 1, "s"@) {
            Plan::Secs((at + 2) as usize)
        } else {
            Plan::Beats((at + 1) as usize)
        }
    } else if opens(ts, at, block, "fork"@) {
        Plan::Fork
    } else if opens(ts, at, block, "join"@) {
        Plan::Join
    } else if counts(ts, at, block) {
        Plan::Rounds
    } else if token::word_at(ts, at, "loop"@) {
        Plan::Endless
    } else if is_shared(ts, at) {
        Plan::Shared
    } else if block && token::mark_at(ts, at, ';') {
        Plan::Empty
    } else {
        Plan::Rust
    }
}

/// The tokens from `at` on start the declaration of a shared value:
/// `let name = shared!`.
pub open spec fn is_shared(ts: Seq<token::TokenView>, at: int) -> bool {
    &&& token::word_at(ts, at, "let"@)
    &&& at + 1 < ts.len() && ts[at + 1].kind == Kind::Word && token::name(ts[at + 1].text)
    &&& token::mark_at(ts, at + 2, '=')
    &&& token::word_at(ts, at + 3, "shared"@)
    &&& token::mark_at(ts, at + 4, '!')
}

/// The tokens from `at` on start the declaration of a shared value.
fn starts_shared(ts: &Vec<Token>, at: usize) -> (r: bool)
    requires
        at < ts@.len(),
    ensures
        r == is_shared(token::seen(ts@), at as int),
{
    let n: usize = ts.len();
    if n - at < 5 || !has_word(ts, at, "let") {
        return false;
    }
    matches!(ts[at + 1].kind, Kind::Word) && token::is_name(ts[at + 1].text.as_str()) && has_mark(
        ts,
        at + 2,
        '=',
    ) && has_word(ts, at + 3, "shared") && has_mark(ts, at + 4, '!')
}

/// What is to be read at the token `at`.
pub fn plan(ts: &Vec<Token>, at: usize, block: bool) -> (r: Plan)
    requires
        at < ts@.len(),
    ensures
        r == planned(token::seen(ts@), at as int, block),
{
    assert(ts@.len() == ts.len());
    if has_mark(ts, at, '~') {
        if has_word(ts, at + 1, "s") {
            Plan::Secs(at + 2)
        } else {
            Plan::Beats(at + 1)
        }
    } else if has_word(ts, at, "fork") && (!block || has_group(ts, at + 1, '{')) {
        Plan::Fork
    } else if has_word(ts, at, "join") && (!block || has_group(ts, at + 1, '{')) {
        Plan::Join
    } else if starts_count(ts, at, block) {
        Plan::Rounds
    } else if has_word(ts, at, "loop") {
        Plan::Endless
    } else if starts_shared(ts, at) {
        Plan::Shared
    } else if block && has_mark(ts, at, ';') {
        Plan::Empty
    } else {
        Plan::Rust
    }
}

/// A statement, and the token after it; or why there is none.
pub type Step = Result<(TimingStmt, usize), ParseError>;

/// What a step gives.
pub open spec fn step_view(s: Step) -> Result<(StmtView, int), ErrorView> {
    match s {
        Ok((t, n)) => Ok((t@, n as int)),
        Err(e) => Err(e@),
    }
}

/// The text of the tokens from `from` up to `to`.
pub open spec fn span(ts: Seq<token::TokenView>, from: int, to: int) -> Seq<char> {
    token::rendered(ts.subrange(from, to))
}

/// Where a reading from the token `from` on ends: at the token before which
/// `rest` are left. It has to read at least one token.
pub open spec fn end_of(ts: Seq<token::TokenView>, from: int, read: Result<usize, Seq<char>>) -> Result<
    int,
    ErrorView,
> {
    match read {
        Err(m) => Err(ErrorView::Syntax(m)),
        Ok(rest) => if rest < ts.len() - from {
            Ok(ts.len() - rest)
        } else {
            Err(ErrorView::Stuck)
        },
    }
}

/// Where a reading from the token `from` on ends.
fn end(ts: &Vec<Token>, from: usize, read: Result<usize, String>) -> (r: Result<usize, ParseError>)
    requires
        from <= ts@.len(),
    ensures
        end_of(token::seen(ts@), from as int, token::shown_read(read)) == (match r {
            Ok(n) => Ok(n as int),
            Err(e) => Err(e@),
        }),
        r matches Ok(n) ==> from < n <= ts@.len(),
{
    match read {
        Err(m) => Err(ParseError::Syntax(m)),
        Ok(rest) => if rest < ts.len() - from {
            Ok(ts.len() - rest)
        } else {
            Err(ParseError::Stuck)
        },
    }
}

/// The statement at the token `at`, where `read` is what was read for its
/// plan, and `tail` what was read of the whole rest as an expression.
///
/// A wait ends with a semicolon, a branch or a loop is followed by a block,
/// and a shared value is an expression in round brackets, followed by a
/// semicolon. The last expression of a block needs no semicolon.
pub open spec fn completed(
    ts: Seq<token::TokenView>,
    at: int,
    block: bool,
    plan: Plan,
    read: Result<usize, Seq<char>>,
    tail: Result<usize, Seq<char>>,
) -> Result<(StmtView, int), ErrorView> {
    match plan {
        Plan::Beats(from) => match end_of(ts, from as int, read) {
            Err(e) => Err(e),
            Ok(n) => if token::mark_at(ts, n, ';') {
                Ok((StmtView::Wait(span(ts, from as int, n)), n + 1))
            } else {
                Err(ErrorView::Expected(';'))
            },
        },
        Plan::Secs(from) => match end_of(ts, from as int, read) {
            Err(e) => Err(e),
            Ok(n) => if token::mark_at(ts, n, ';') {
                Ok((StmtView::WaitSec(span(ts, from as int, n)), n + 1))
            } else {
                Err(ErrorView::Expected(';'))
            },
        },
        Plan::Fork => if token::group_at(ts, at + 1, '{') {
            Ok((StmtView::Fork(ts[at + 1].inner), at + 2))
        } else {
            Err(ErrorView::Expected('{'))
        },
        Plan::Join => if token::group_at(ts, at + 1, '{') {
            Ok((StmtView::Join(ts[at + 1].inner), at + 2))
        } else {
            Err(ErrorView::Expected('{'))
        },
        Plan::Endless => if token::group_at(ts, at + 1, '{') {
            Ok((StmtView::InfiniteLoop(ts[at + 1].inner), at + 2))
        } else {
            Err(ErrorView::Expected('{'))
        },
        Plan::Rounds => match end_of(ts, at + 1, read) {
            Err(e) => Err(e),
            Ok(n) => if token::group_at(ts, n, '{') {
                Ok((StmtView::Repeat(span(ts, at + 1, n), ts[n].inner), n + 1))
            } else {
                Err(ErrorView::Expected('{'))
            },
        },
        Plan::Shared => if !token::group_at(ts, at + 5, '(') {
            Err(ErrorView::Expected('('))
        } else {
            match read {
                Err(m) => Err(ErrorView::Syntax(m)),
                Ok(rest) => if rest > 0 {
                    Err(ErrorView::Leftover)
                } else if token::mark_at(ts, at + 6, ';') {
                    Ok((StmtView::Let(ts[at + 1].text, ts[at + 5].inner), at + 7))
                } else {
                    Err(ErrorView::Expected(';'))
                },
            }
        },
        Plan::Empty => Ok((StmtView::Regular(";"@), at + 1)),
        Plan::Rust => match end_of(ts, at, read) {
            Ok(n) => Ok((StmtView::Regular(span(ts, at, n)), n)),
            Err(e) => if block && tail == Ok::<usize, Seq<char>>(0) {
                Ok((StmtView::Regular(span(ts, at, ts.len() as int)), ts.len() as int))
            } else {
                Err(e)
            },
        },
    }
}

/// A statement ends after it starts, within the tokens.
proof fn lemma_progress(
    ts: Seq<token::TokenView>,
    at: int,
    block: bool,
    read: Result<usize, Seq<char>>,
    tail: Result<usize, Seq<char>>,
)
    requires
        0 <= at < ts.len() <= usize::MAX,
    ensures
        completed(ts, at, block, planned(ts, at, block), read, tail) matches Ok((_, n)) ==> at < n
            <= ts.len(),
{
}

/// The text of a wait.
fn waited(ts: &Vec<Token>, from: usize, read: Result<usize, String>, secs: bool) -> (r: Step)
    requires
        from <= ts@.len(),
    ensures
        step_view(r) == completed(
            token::seen(ts@),
            0,
            true,
            if secs {
                Plan::Secs(from)
            } else {
                Plan::Beats(from)
            },
            token::shown_read(read),
            token::shown_read(read),
        ),
{
    assert(ts@.len() == ts.len());
    let n: usize = match end(ts, from, read) {
        Ok(n) => n,
        Err(e) => {
            return Err(e);
        },
    };
    if !has_mark(ts, n, ';') {
        return Err(ParseError::Expected(';'));
    }
    let e: String = render(ts, from, n);
    if secs {
        Ok((TimingStmt::WaitSec(e), n + 1))
    } else {
        Ok((TimingStmt::Wait(e), n + 1))
    }
}

/// The declaration of a shared value.
fn shared(ts: &Vec<Token>, at: usize, read: Result<usize, String>) -> (r: Step)
    requires
        is_shared(token::seen(ts@), at as int),
    ensures
        step_view(r) == completed(
            token::seen(ts@),
            at as int,
            true,
            Plan::Shared,
            token::shown_read(read),
            token::shown_read(read),
        ),
{
    assert(ts@.len() == ts.len());
    if !has_group(ts, at + 5, '(') {
        return Err(ParseError::Expected('('));
    }
    match read {
        Err(m) => Err(ParseError::Syntax(m)),
        Ok(rest) => {
            if rest > 0 {
                Err(ParseError::Leftover)
            } else if has_mark(ts, at + 6, ';') {
                Ok((TimingStmt::Let(ts[at + 1].text.clone(), ts[at + 5].inner.clone()), at + 7))
            } else {
                Err(ParseError::Expected(';'))
            }
        },
    }
}

/// The statement at the token `at`, from what was read for its plan, and of
/// the whole rest as an expression.
pub fn complete(
    ts: &Vec<Token>,
    at: usize,
    block: bool,
    plan: Plan,
    read: Result<usize, String>,
    tail: Result<usize, String>,
) -> (r: Step)
    requires
        at < ts@.len(),
        plan == planned(token::seen(ts@), at as int, block),
    ensures
        step_view(r) == completed(
            token::seen(ts@),
            at as int,
            block,
            plan,
            token::shown_read(read),
            token::shown_read(tail),
        ),
{
    let len: usize = ts.len();
    match plan {
        Plan::Beats(from) => waited(ts, from, read, false),
        Plan::Secs(from) => waited(ts, from, read, true),
        Plan::Fork => if has_group(ts, at + 1, '{') {
            Ok((TimingStmt::Fork(ts[at + 1].inner.clone()), at + 2))
        } else {
            Err(ParseError::Expected('{'))
        },
        Plan::Join => if has_group(ts, at + 1, '{') {
            Ok((TimingStmt::Join(ts[at + 1].inner.clone()), at + 2))
        } else {
            Err(ParseError::Expected('{'))
        },
        Plan::Endless => if has_group(ts, at + 1, '{') {
            Ok((TimingStmt::InfiniteLoop(ts[at + 1].inner.clone()), at + 2))
        } else {
            Err(ParseError::Expected('{'))
        },
        Plan::Rounds => {
            let n: usize = match end(ts, at + 1, read) {
                Ok(n) => n,
                Err(e) => {
                    return Err(e);
                },
            };
            if has_group(ts, n, '{') {
                Ok((TimingStmt::Repeat(render(ts, at + 1, n), ts[n].inner.clone()), n + 1))
            } else {
                Err(ParseError::Expected('{'))
            }
        },
        Plan::Shared => shared(ts, at, read),
        Plan::Empty => Ok((TimingStmt::Regular(";".to_owned()), at + 1)),
        Plan::Rust => match end(ts, at, read) {
            Ok(n) => Ok((TimingStmt::Regular(render(ts, at, n)), n)),
            Err(e) => {
                if block && matches!(tail, Ok(0)) {
                    Ok((TimingStmt::Regular(render(ts, at, len)), len))
                } else {
                    Err(e)
                }
            },
        },
    }
}

/// What is read for a plan.
pub open spec fn reading(ts: Seq<token::TokenView>, at: int, plan: Plan) -> Result<
    usize,
    Seq<char>,
> {
    let len = ts.len() as int;
    match plan {
        Plan::Beats(from) => token::expr_rest(span(ts, from as int, len)),
        Plan::Secs(from) => token::expr_rest(span(ts, from as int, len)),
        Plan::Rounds => token::bare_expr_rest(span(ts, at + 1, len)),
        Plan::Shared => if token::group_at(ts, at + 5, '(') {
            token::expr_rest(ts[at + 5].inner)
        } else {
            Ok(0)
        },
        Plan::Rust => token::stmt_rest(span(ts, at, len)),
        _ => Ok(0),
    }
}

/// The statement at the token `at`, and the token after it; or why there is
/// none.
pub open spec fn stmt_at(ts: Seq<token::TokenView>, at: int, block: bool) -> Result<
    (StmtView, int),
    ErrorView,
> {
    let plan = planned(ts, at, block);
    completed(
        ts,
        at,
        block,
        plan,
        reading(ts, at, plan),
        token::expr_rest(span(ts, at, ts.len() as int)),
    )
}

impl TimingStmt {
    /// Reads the statement at the token `at`. The grammar of expressions and
    /// of statements of Rust is that of `syn`.
    pub fn parse(ts: &Vec<Token>, at: usize, block: bool) -> (r: Step)
        requires
            at < ts@.len(),
        ensures
            step_view(r) == stmt_at(token::seen(ts@), at as int, block),
            r matches Ok((_, n)) ==> at < n <= ts@.len(),
    {
        let n: usize = ts.len();
        let plan: Plan = plan(ts, at, block);
        let read: Result<usize, String> = match plan {
            Plan::Beats(from) => token::read_expr(render(ts, from, n).as_str()),
            Plan::Secs(from) => token::read_expr(render(ts, from, n).as_str()),
            Plan::Rounds => token::read_bare_expr(render(ts, at + 1, n).as_str()),
            Plan::Shared => if has_group(ts, at + 5, '(') {
                token::read_expr(ts[at + 5].inner.as_str())
            } else {
                Ok(0)
            },
            Plan::Rust => token::read_stmt(render(ts, at, n).as_str()),
            _ => Ok(0),
        };
        let tail: Result<usize, String> = token::read_expr(render(ts, at, n).as_str());
        proof {
            lemma_progress(
                token::seen(ts@),
                at as int,
                block,
                token::shown_read(read),
                token::shown_read(tail),
            );
        }
        complete(ts, at, block, plan, read, tail)
    }
}

/// All statements from the token `at` on, inside a block.
pub open spec fn stmts_from(ts: Seq<token::TokenView>, at: int) -> Result<
    Seq<StmtView>,
    ErrorView,
>
    decreases ts.len() - at,
{
    if at < 0 || at >= ts.len() {
        Ok(Seq::empty())
    } else {
        match stmt_at(ts, at, true) {
            Err(e) => Err(e),
            Ok((s, n)) => if n <= at {
                Err(ErrorView::Stuck)
            } else {
                match stmts_from(ts, n) {
                    Err(e) => Err(e),
                    Ok(more) => Ok(seq![s] + more),
                }
            },
        }
    }
}

/// The views of some statements.
pub open spec fn stmts_view(v: Seq<TimingStmt>) -> Seq<StmtView> {
    v.map_values(|s: TimingStmt| s@)
}

/// What stands before some statements, put before what was read.
pub open spec fn after(had: Seq<StmtView>, r: Result<Seq<StmtView>, ErrorView>) -> Result<
    Seq<StmtView>,
    ErrorView,
> {
    match r {
        Ok(more) => Ok(had + more),
        Err(e) => Err(e),
    }
}

/// The statements of a block, from its text.
pub open spec fn block_of(text: Seq<char>) -> Result<Seq<StmtView>, ErrorView> {
    match token::lexed(text) {
        None => Err(ErrorView::Tokens),
        Some(ts) => stmts_from(ts, 0),
    }
}

/// What the reading of some statements gives.
pub open spec fn block_view(r: Result<Vec<TimingStmt>, ParseError>) -> Result<
    Seq<StmtView>,
    ErrorView,
> {
    match r {
        Ok(v) => Ok(stmts_view(v@)),
        Err(e) => Err(e@),
    }
}

/// Reads the statements of a block from its text.
pub fn parse_block(text: &str) -> (r: Result<Vec<TimingStmt>, ParseError>)
    ensures
        block_view(r) == block_of(text@),
{
    let ts: Vec<Token> = match token::lex(text) {
        Some(ts) => ts,
        None => {
            return Err(ParseError::Tokens);
        },
    };
    parse_stmts(&ts)
}

/// Reads all statements of a block.
pub fn parse_stmts(ts: &Vec<Token>) -> (r: Result<Vec<TimingStmt>, ParseError>)
    ensures
        block_view(r) == stmts_from(token::seen(ts@), 0),
{
    let ghost seen = token::seen(ts@);
    let n: usize = ts.len();
    let mut out: Vec<TimingStmt> = Vec::new();
    let mut at: usize = 0;
    assert(after(stmts_view(out@), stmts_from(seen, 0)) =~~= stmts_from(seen, 0));
    while at < n
        invariant
            n == ts@.len(),
            at <= n,
            seen == token::seen(ts@),
            after(stmts_view(out@), stmts_from(seen, at as int)) == stmts_from(seen, 0),
        decreases n - at,
    {
        match TimingStmt::parse(ts, at, true) {
            Err(e) => {
                return Err(e);
            },
            Ok((s, next)) => {
                let ghost had = stmts_view(out@);
                out.push(s);
                proof {
                    let more = stmts_from(seen, next as int);
                    if more is Ok {
                        assert(stmts_view(out@) + more->Ok_0 =~= had + (seq![s@] + more->Ok_0));
                    }
                }
                at = next;
            },
        }
    }
    assert(stmts_view(out@) + Seq::<StmtView>::empty() =~= stmts_view(out@));
    Ok(out)
}

/// What a configuration holds.
#[verifier::ext_equal]
pub struct ConfigView {
    /// The tempo, as decimal digits.
    pub bpm: Seq<char>,
    /// The seed.
    pub seed: Seq<char>,
}

/// How the engine of a program starts.
#[derive(Debug)]
pub struct TimingConfig {
    /// The tempo, as decimal digits.
    pub bpm: String,
    /// The seed.
    pub seed: String,
}

impl View for TimingConfig {
    type V = ConfigView;

    open spec fn view(&self) -> ConfigView {
        ConfigView { bpm: self.bpm@, seed: self.seed@ }
    }
}

/// What an attempt to configure gives.
pub open spec fn config_view(r: Result<TimingConfig, ParseError>) -> Result<ConfigView, ErrorView> {
    match r {
        Ok(c) => Ok(c@),
        Err(e) => Err(e@),
    }
}

/// The settings of a program that names none: 120 beats a minute, and the
/// seed `default`.
pub open spec fn first_config() -> ConfigView {
    ConfigView { bpm: "120"@, seed: "default"@ }
}

/// The digits stand for a 64-bit number.
pub open spec fn fits(digits: Seq<char>) -> bool {
    text::is_numeral(digits) && text::valued(text::digits(digits)) <= u64::MAX
}

impl ConfigView {
    /// The configuration after a setting, where `lit` was read for it. The
    /// tempo is a number, the seed a text; literals of another sort, and
    /// other settings, change nothing.
    pub open spec fn with(self, key: Seq<char>, lit: Result<token::LitView, Seq<char>>) -> Result<
        ConfigView,
        ErrorView,
    > {
        match lit {
            Err(m) => Err(ErrorView::Syntax(m)),
            Ok(l) => match l {
                token::LitView::Float(d) => if key == "bpm"@ {
                    Ok(ConfigView { bpm: d, ..self })
                } else {
                    Ok(self)
                },
                token::LitView::Int(d) => if key != "bpm"@ {
                    Ok(self)
                } else if fits(d) {
                    Ok(ConfigView { bpm: d, ..self })
                } else {
                    Err(ErrorView::Number(d))
                },
                token::LitView::Text(t) => if key == "seed"@ {
                    Ok(ConfigView { seed: t, ..self })
                } else {
                    Ok(self)
                },
                token::LitView::Other => Ok(self),
            },
        }
    }
}

impl TimingConfig {
    /// The settings of a program that names none.
    pub fn first() -> (r: Self)
        ensures
            r@ == first_config(),
    {
        TimingConfig { bpm: "120".to_owned(), seed: "default".to_owned() }
    }

    /// The configuration after a setting, from what was read for it.
    pub fn set(self, key: &str, lit: Result<Lit, String>) -> (r: Result<TimingConfig, ParseError>)
        ensures
            config_view(r) == self@.with(
                key@,
                match lit {
                    Ok(l) => Ok(l@),
                    Err(m) => Err(m@),
                },
            ),
    {
        proof {
            reveal_strlit("bpm");
            reveal_strlit("seed");
        }
        let bpm: bool = text::same(key, "bpm");
        let seed: bool = text::same(key, "seed");
        match lit {
            Err(m) => Err(ParseError::Syntax(m)),
            Ok(Lit::Float(d)) => if bpm {
                Ok(TimingConfig { bpm: d, seed: self.seed })
            } else {
                Ok(self)
            },
            Ok(Lit::Int(d)) => if !bpm {
                Ok(self)
            } else {
                match text::parse_u64(d.as_str()) {
                    Some(_) => Ok(TimingConfig { bpm: d, seed: self.seed }),
                    None => Err(ParseError::Number(d)),
                }
            },
            Ok(Lit::Text(t)) => if seed {
                Ok(TimingConfig { bpm: self.bpm, seed: t })
            } else {
                Ok(self)
            },
            Ok(Lit::Other) => Ok(self),
        }
    }
}

/// Where a literal from the token `i` on ends: it may have a minus sign.
pub open spec fn literal_end(ts: Seq<token::TokenView>, i: int) -> int {
    if i >= ts.len() {
        ts.len() as int
    } else if token::mark_at(ts, i, '-') && i + 1 < ts.len() && ts[i + 1].kind == Kind::Literal {
        i + 2
    } else {
        i + 1
    }
}

/// A setting starts at the token `at`: a name, then `sep`.
pub open spec fn setting_at(ts: Seq<token::TokenView>, at: int, sep: char) -> Option<ErrorView> {
    if !(ts[at].kind == Kind::Word && token::name(ts[at].text)) {
        Some(ErrorView::Name)
    } else if !token::mark_at(ts, at + 1, sep) {
        Some(ErrorView::Expected(sep))
    } else {
        None
    }
}

/// The setting has a literal.
pub open spec fn is_known(key: Seq<char>) -> bool {
    key == "bpm"@ || key == "seed"@
}

/// Where the setting at the token `at` ends. What follows the separator of
/// an unknown setting is not part of it.
pub open spec fn setting_end(ts: Seq<token::TokenView>, at: int) -> int {
    let n = if is_known(ts[at].text) {
        literal_end(ts, at + 2)
    } else {
        at + 2
    };
    if token::mark_at(ts, n, ',') {
        n + 1
    } else {
        n
    }
}

/// The configuration after the settings from the token `at` on: names, each
/// followed by `sep` and a literal, with commas between them.
pub open spec fn configured(ts: Seq<token::TokenView>, at: int, sep: char, c: ConfigView) -> Result<
    ConfigView,
    ErrorView,
>
    decreases ts.len() - at,
{
    if at < 0 || at >= ts.len() {
        Ok(c)
    } else {
        match setting_at(ts, at, sep) {
            Some(e) => Err(e),
            None => {
                let next = setting_end(ts, at);
                if !is_known(ts[at].text) {
                    configured(ts, next, sep, c)
                } else {
                    match c.with(
                        ts[at].text,
                        token::literal(span(ts, at + 2, literal_end(ts, at + 2))),
                    ) {
                        Err(e) => Err(e),
                        Ok(d) => configured(ts, next, sep, d),
                    }
                }
            },
        }
    }
}

/// Reads a configuration: settings with `sep` between name and value.
pub fn parse_config(ts: &Vec<Token>, sep: char) -> (r: Result<TimingConfig, ParseError>)
    ensures
        config_view(r) == configured(token::seen(ts@), 0, sep, first_config()),
{
    let ghost seen = token::seen(ts@);
    let len: usize = ts.len();
    let mut c: TimingConfig = TimingConfig::first();
    let mut at: usize = 0;
    while at < len
        invariant
            len == ts@.len(),
            at <= len,
            seen == token::seen(ts@),
            configured(seen, at as int, sep, c@) == configured(seen, 0, sep, first_config()),
        decreases len - at,
    {
        let key: &str = ts[at].text.as_str();
        if !matches!(ts[at].kind, Kind::Word) || !token::is_name(key) {
            return Err(ParseError::Name);
        }
        if !has_mark(ts, at + 1, sep) {
            return Err(ParseError::Expected(sep));
        }
        let from: usize = at + 2;
        let mut next: usize = from;
        if text::same(key, "bpm") || text::same(key, "seed") {
            if has_mark(ts, from, '-') && from < len - 1 && matches!(ts[from + 1].kind, Kind::Literal) {
                next = from + 2;
            } else if from < len {
                next = from + 1;
            }
            let lit: Result<Lit, String> = token::read_literal(render(ts, from, next).as_str());
            c = match c.set(key, lit) {
                Ok(d) => d,
                Err(e) => {
                    return Err(e);
                },
            };
        }
        if has_mark(ts, next, ',') {
            next = next + 1;
        }
        at = next;
    }
    Ok(c)
}

/// What a program in the notation holds.
#[verifier::ext_equal]
pub struct BlockView {
    /// Its configuration, where it has one.
    pub config: Option<ConfigView>,
    /// Its statements.
    pub stmts: Seq<StmtView>,
}

/// A program in the notation.
#[derive(Debug)]
pub struct TimingBlock {
    /// Its configuration, where it has one.
    pub config: Option<TimingConfig>,
    /// Its statements.
    pub stmts: Vec<TimingStmt>,
}

impl View for TimingBlock {
    type V = BlockView;

    open spec fn view(&self) -> BlockView {
        BlockView {
            config: match self.config {
                Some(c) => Some(c@),
                None => None,
            },
            stmts: stmts_view(self.stmts@),
        }
    }
}

/// What the reading of a program gives.
pub open spec fn program_view(r: Result<TimingBlock, ParseError>) -> Result<BlockView, ErrorView> {
    match r {
        Ok(b) => Ok(b@),
        Err(e) => Err(e@),
    }
}

/// The configuration in a block.
pub open spec fn config_of(inner: Seq<char>) -> Result<ConfigView, ErrorView> {
    match token::lexed(inner) {
        None => Err(ErrorView::Tokens),
        Some(ts) => configured(ts, 0, ':', first_config()),
    }
}

/// The program after what stands from the token `at` on. `config` starts a
/// configuration, of which the last one counts; anything else is a statement.
pub open spec fn programmed(ts: Seq<token::TokenView>, at: int, b: BlockView) -> Result<
    BlockView,
    ErrorView,
>
    decreases ts.len() - at,
{
    if at < 0 || at >= ts.len() {
        Ok(b)
    } else if token::word_at(ts, at, "config"@) {
        if !token::group_at(ts, at + 1, '{') {
            Err(ErrorView::Expected('{'))
        } else {
            match config_of(ts[at + 1].inner) {
                Err(e) => Err(e),
                Ok(c) => programmed(ts, at + 2, BlockView { config: Some(c), ..b }),
            }
        }
    } else {
        match stmt_at(ts, at, false) {
            Err(e) => Err(e),
            Ok((s, n)) => if n <= at {
                Err(ErrorView::Stuck)
            } else {
                programmed(ts, n, BlockView { stmts: b.stmts.push(s), ..b })
            },
        }
    }
}

/// A program without statements.
pub open spec fn no_program() -> BlockView {
    BlockView { config: None, stmts: Seq::empty() }
}

impl TimingBlock {
    /// Reads a program.
    pub fn parse(ts: &Vec<Token>) -> (r: Result<TimingBlock, ParseError>)
        ensures
            program_view(r) == programmed(token::seen(ts@), 0, no_program()),
    {
        let ghost seen = token::seen(ts@);
        let len: usize = ts.len();
        let mut b: TimingBlock = TimingBlock { config: None, stmts: Vec::new() };
        let mut at: usize = 0;
        assert(b@ =~= no_program());
        while at < len
            invariant
                len == ts@.len(),
                at <= len,
                seen == token::seen(ts@),
                programmed(seen, at as int, b@) == programmed(seen, 0, no_program()),
            decreases len - at,
        {
            if has_word(ts, at, "config") {
                if !has_group(ts, at + 1, '{') {
                    return Err(ParseError::Expected('{'));
                }
                let inner: Vec<Token> = match token::lex(ts[at + 1].inner.as_str()) {
                    Some(inner) => inner,
                    None => {
                        return Err(ParseError::Tokens);
                    },
                };
                match parse_config(&inner, ':') {
                    Ok(c) => {
                        b.config = Some(c);
                    },
                    Err(e) => {
                        return Err(e);
                    },
                }
                at = at + 2;
            } else {
                match TimingStmt::parse(ts, at, false) {
                    Err(e) => {
                        return Err(e);
                    },
                    Ok((s, next)) => {
                        let ghost was = b@;
                        b.stmts.push(s);
                        assert(b@ =~= BlockView { stmts: was.stmts.push(s@), ..was });
                        at = next;
                    },
                }
            }
        }
        Ok(b)
    }
}

} // verus!
