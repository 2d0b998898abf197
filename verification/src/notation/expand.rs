//! The Rust code that the notation stands for.
use vstd::prelude::*;
use vstd::string::*;

use crate::notation::nested;
use crate::notation::parse;
use crate::notation::parse::{
    parse_block, ErrorView, ParseError, StmtView, TimingBlock, TimingConfig, TimingStmt,
};
use crate::notation::token;
use crate::notation::token::{ExprShape, ExprShapeView, StmtShape, StmtShapeView};

verus! {

/// Where statements stand.
#[derive(Clone, Copy, Debug, PartialEq, Eq, Structural)]
pub enum Mode {
    /// In a program, outside of any block.
    Top,
    /// In a block of a program.
    Block,
    /// In a function that is an agent.
    Agent,
}

/// What an expansion gives.
pub open spec fn code_view(r: Result<String, ParseError>) -> Result<Seq<char>, ErrorView> {
    match r {
        Ok(s) => Ok(s@),
        Err(e) => Err(e@),
    }
}

/// A call of a method on a shared value, without type arguments.
pub open spec fn modified(
    receiver: Seq<char>,
    method: Seq<char>,
    args: Seq<char>,
    mode: Mode,
) -> Seq<char> {
    if mode == Mode::Agent {
        receiver + ".modify(|__m| __m."@ + method + "("@ + args + "))"@
    } else {
        receiver + ".modify(|__inner| __inner."@ + method + "("@ + args + "))"@
    }
}

/// A call of a method on a shared value, without type arguments.
pub fn modify_call(receiver: &str, method: &str, args: &str, mode: Mode) -> (r: String)
    ensures
        r@ == modified(receiver@, method@, args@, mode),
{
    let mut s: String = receiver.to_owned();
    if matches!(mode, Mode::Agent) {
        s.append(".modify(|__m| __m.");
    } else {
        s.append(".modify(|__inner| __inner.");
    }
    s.append(method);
    s.append("(");
    s.append(args);
    s.append("))");
    s
}

/// A wait for beats.
pub open spec fn wait_code(beats: Seq<char>) -> Seq<char> {
    "let _ = __ctx.wait("@ + beats + ").await;"@
}

/// A wait for beats.
fn wait_text(beats: &str) -> (r: String)
    ensures
        r@ == wait_code(beats@),
{
    let mut s: String = "let _ = __ctx.wait(".to_owned();
    s.append(beats);
    s.append(").await;");
    s
}

/// A branch with this block.
pub open spec fn branch_code(body: Seq<char>) -> Seq<char> {
    "__ctx.branch(|__ctx| async move "@ + body + ", BranchOptions::default());"@
}

/// A branch with this block.
fn branch_text(body: &str) -> (r: String)
    ensures
        r@ == branch_code(body@),
{
    let mut s: String = "__ctx.branch(|__ctx| async move ".to_owned();
    s.append(body);
    s.append(", BranchOptions::default());");
    s
}

/// The text is one of the names.
pub open spec fn listed(names: Seq<Seq<char>>, text: Seq<char>) -> bool {
    names.contains(text)
}

/// The text is one of the names.
fn is_listed(names: &Vec<String>, text: &str) -> (r: bool)
    ensures
        r == listed(token::spelled(names@), text@),
{
    let n: usize = names.len();
    let mut i: usize = 0;
    while i < n
        invariant
            n == names@.len(),
            i <= n,
            forall|j: int| 0 <= j < i ==> (#[trigger] token::spelled(names@)[j]) != text@,
        decreases n - i,
    {
        if crate::text::same(names[i].as_str(), text) {
            assert(token::spelled(names@)[i as int] == text@);
            return true;
        }
        i = i + 1;
    }
    false
}

/// Texts, one after the other.
pub open spec fn joined(texts: Seq<Seq<char>>) -> Seq<char>
    decreases texts.len(),
{
    if texts.len() == 0 {
        Seq::empty()
    } else {
        joined(texts.drop_last()) + texts.last() + " "@
    }
}

/// Texts, one after the other.
pub fn join(texts: &Vec<String>) -> (r: String)
    ensures
        r@ == joined(token::spelled(texts@)),
{
    let ghost all = token::spelled(texts@);
    let n: usize = texts.len();
    let mut out: String = String::new();
    let mut i: usize = 0;
    assert(all.take(0) =~= Seq::empty());
    assert(out@ =~= Seq::empty());
    while i < n
        invariant
            n == texts@.len(),
            i <= n,
            all == token::spelled(texts@),
            out@ == joined(all.take(i as int)),
        decreases n - i,
    {
        proof {
            assert(all.take(i + 1).drop_last() =~= all.take(i as int));
            assert(all.take(i + 1).last() == texts@[i as int]@);
        }
        out.append(texts[i].as_str());
        out.append(" ");
        i = i + 1;
    }
    assert(all.take(n as int) =~= all);
    out
}

/// A statement of Rust outside of blocks, where `stmt` is its shape, and
/// `expr` that of the expression in it. A call of a method on a shared
/// variable goes through `modify`. In an agent, a negation is a wait, and a
/// block with the label `fork` a branch. Other statements stay as they are.
pub open spec fn regular(
    text: Seq<char>,
    mode: Mode,
    shared: Seq<Seq<char>>,
    stmt: StmtShapeView,
    expr: ExprShapeView,
) -> Seq<char> {
    match (stmt, expr) {
        (StmtShapeView::Expr { semi, .. }, ExprShapeView::Call { receiver, method, args, .. }) => if listed(
            shared,
            receiver,
        ) {
            modified(receiver, method, args, mode) + if semi {
                ";"@
            } else {
                ""@
            }
        } else {
            text
        },
        (StmtShapeView::Expr { .. }, ExprShapeView::Neg(e)) => if mode == Mode::Agent {
            wait_code(e)
        } else {
            text
        },
        (StmtShapeView::Expr { .. }, ExprShapeView::Block { label, stmts }) => if mode
            == Mode::Agent && label == Some("fork"@) {
            branch_code("{ "@ + joined(stmts) + "}"@)
        } else {
            text
        },
        _ => text,
    }
}

/// A statement of Rust outside of blocks, from the shapes of it and of the
/// expression in it.
pub fn regular_code(
    text: &str,
    mode: Mode,
    shared: &Vec<String>,
    stmt: &StmtShape,
    expr: &ExprShape,
) -> (r: String)
    ensures
        r@ == regular(text@, mode, token::spelled(shared@), stmt@, expr@),
{
    let semi: bool = match stmt {
        StmtShape::Expr { semi, .. } => *semi,
        _ => {
            return text.to_owned();
        },
    };
    let agent: bool = matches!(mode, Mode::Agent);
    match expr {
        ExprShape::Call { receiver, method, args, .. } => {
            if !is_listed(shared, receiver.as_str()) {
                return text.to_owned();
            }
            let mut s: String = modify_call(
                receiver.as_str(),
                method.as_str(),
                args.as_str(),
                mode,
            );
            if semi {
                s.append(";");
            } else {
                s.append("");
            }
            s
        },
        ExprShape::Neg(e) => if agent {
            wait_text(e.as_str())
        } else {
            text.to_owned()
        },
        ExprShape::Block { label, stmts } => {
            let fork: bool = match label {
                Some(l) => crate::text::same(l.as_str(), "fork"),
                None => false,
            };
            if agent && fork {
                let mut body: String = "{ ".to_owned();
                body.append(join(stmts).as_str());
                body.append("}");
                branch_text(body.as_str())
            } else {
                text.to_owned()
            }
        },
        ExprShape::Other => text.to_owned(),
    }
}

/// The shape of the expression that a statement is.
pub open spec fn inner_shape(stmt: StmtShapeView) -> ExprShapeView {
    match stmt {
        StmtShapeView::Expr { expr, .. } => token::expr_shape(expr),
        _ => ExprShapeView::Other,
    }
}

/// The shape of the expression that a statement is.
pub fn read_inner_shape(stmt: &StmtShape) -> (r: ExprShape)
    ensures
        r@ == inner_shape(stmt@),
{
    match stmt {
        StmtShape::Expr { expr, .. } => token::read_expr_shape(expr.as_str()),
        _ => ExprShape::Other,
    }
}

/// A call of a method.
pub open spec fn called(
    receiver: Seq<char>,
    method: Seq<char>,
    types: Seq<char>,
    args: Seq<char>,
) -> Seq<char> {
    receiver + "."@ + method + types + "("@ + args + ")"@
}

/// A call of a method.
fn call_text(receiver: &str, method: &str, types: &str, args: &str) -> (r: String)
    ensures
        r@ == called(receiver@, method@, types@, args@),
{
    let mut s: String = receiver.to_owned();
    s.append(".");
    s.append(method);
    s.append(types);
    s.append("(");
    s.append(args);
    s.append(")");
    s
}

/// An expression in a block of a program: calls of methods on shared variables
/// go through `modify`, also in the receivers of other calls and in nested
/// blocks. Calls and blocks may be nested `depth` deep.
pub open spec fn transformed(e: Seq<char>, shared: Seq<Seq<char>>, depth: nat) -> Result<
    Seq<char>,
    ErrorView,
>
    decreases depth, 0nat, 0nat,
{
    match token::expr_shape(e) {
        ExprShapeView::Call { receiver, method, types, args } => if depth == 0 {
            Err(ErrorView::Deep)
        } else {
            match transformed(receiver, shared, (depth - 1) as nat) {
                Err(x) => Err(x),
                Ok(on) => Ok(
                    if listed(shared, receiver) {
                        modified(on, method, args, Mode::Block)
                    } else {
                        called(on, method, types, args)
                    },
                ),
            }
        },
        ExprShapeView::Block { stmts, .. } => if depth == 0 {
            Err(ErrorView::Deep)
        } else {
            match transformed_all(stmts, shared, (depth - 1) as nat) {
                Err(x) => Err(x),
                Ok(inner) => Ok("{ "@ + inner + " }"@),
            }
        },
        _ => Ok(e),
    }
}

/// A statement of Rust in a block of a program.
pub open spec fn transformed_stmt(text: Seq<char>, shared: Seq<Seq<char>>, depth: nat) -> Result<
    Seq<char>,
    ErrorView,
>
    decreases depth, 1nat, 0nat,
{
    match token::stmt_shape(text) {
        StmtShapeView::Expr { expr, semi } => match transformed(expr, shared, depth) {
            Err(x) => Err(x),
            Ok(t) => Ok(
                t + if semi {
                    ";"@
                } else {
                    ""@
                },
            ),
        },
        StmtShapeView::Other => Ok(text),
        StmtShapeView::Bad => transformed(text, shared, depth),
    }
}

/// Statements of Rust in a block of a program.
pub open spec fn transformed_all(
    stmts: Seq<Seq<char>>,
    shared: Seq<Seq<char>>,
    depth: nat,
) -> Result<Seq<char>, ErrorView>
    decreases depth, 2nat, stmts.len(),
{
    if stmts.len() == 0 {
        Ok(Seq::empty())
    } else {
        match (
            transformed_all(stmts.drop_last(), shared, depth),
            transformed_stmt(stmts.last(), shared, depth),
        ) {
            (Err(x), _) => Err(x),
            (_, Err(x)) => Err(x),
            (Ok(a), Ok(b)) => Ok(a + b + " "@),
        }
    }
}

/// An expression in a block of a program.
pub fn transform_expr(e: &str, shared: &Vec<String>, depth: usize) -> (r: Result<
    String,
    ParseError,
>)
    ensures
        code_view(r) == transformed(e@, token::spelled(shared@), depth as nat),
    decreases depth, 0nat,
{
    match token::read_expr_shape(e) {
        ExprShape::Call { receiver, method, types, args } => {
            if depth == 0 {
                return Err(ParseError::Deep);
            }
            match transform_expr(receiver.as_str(), shared, depth - 1) {
                Err(x) => Err(x),
                Ok(on) => Ok(
                    if is_listed(shared, receiver.as_str()) {
                        modify_call(on.as_str(), method.as_str(), args.as_str(), Mode::Block)
                    } else {
                        call_text(on.as_str(), method.as_str(), types.as_str(), args.as_str())
                    },
                ),
            }
        },
        ExprShape::Block { stmts, .. } => {
            if depth == 0 {
                return Err(ParseError::Deep);
            }
            match transform_block_stmts(&stmts, shared, depth - 1) {
                Err(x) => Err(x),
                Ok(inner) => {
                    let mut s: String = "{ ".to_owned();
                    s.append(inner.as_str());
                    s.append(" }");
                    Ok(s)
                },
            }
        },
        _ => Ok(e.to_owned()),
    }
}

/// A statement of Rust in a block of a program.
pub fn transform_stmt(text: &str, shared: &Vec<String>, depth: usize) -> (r: Result<
    String,
    ParseError,
>)
    ensures
        code_view(r) == transformed_stmt(text@, token::spelled(shared@), depth as nat),
    decreases depth, 1nat,
{
    match token::read_stmt_shape(text) {
        StmtShape::Expr { expr, semi } => match transform_expr(expr.as_str(), shared, depth) {
            Err(x) => Err(x),
            Ok(t) => {
                let mut s: String = t;
                s.append(
                    if semi {
                        ";"
                    } else {
                        ""
                    },
                );
                Ok(s)
            },
        },
        StmtShape::Other => Ok(text.to_owned()),
        StmtShape::Bad => transform_expr(text, shared, depth),
    }
}

/// Statements of Rust in a block of a program.
pub fn transform_block_stmts(stmts: &Vec<String>, shared: &Vec<String>, depth: usize) -> (r: Result<
    String,
    ParseError,
>)
    ensures
        code_view(r) == transformed_all(
            token::spelled(stmts@),
            token::spelled(shared@),
            depth as nat,
        ),
    decreases depth, 2nat,
{
    let ghost all = token::spelled(stmts@);
    let n: usize = stmts.len();
    let mut out: String = String::new();
    let mut i: usize = 0;
    assert(all.take(0) =~= Seq::empty());
    assert(out@ =~= Seq::empty());
    while i < n
        invariant
            n == stmts@.len(),
            i <= n,
            all == token::spelled(stmts@),
            transformed_all(all.take(i as int), token::spelled(shared@), depth as nat) == Ok::<
                Seq<char>,
                ErrorView,
            >(out@),
        decreases n - i,
    {
        proof {
            assert(all.take(i + 1).drop_last() =~= all.take(i as int));
            assert(all.take(i + 1).last() == stmts@[i as int]@);
        }
        match transform_stmt(stmts[i].as_str(), shared, depth) {
            Ok(t) => {
                out.append(t.as_str());
                out.append(" ");
            },
            Err(x) => {
                proof {
                    lemma_failure_stays(all, token::spelled(shared@), i + 1, depth as nat);
                }
                return Err(x);
            },
        }
        i = i + 1;
    }
    assert(all.take(n as int) =~= all);
    Ok(out)
}

/// Statements do not help one that cannot be transformed before them.
proof fn lemma_failure_stays(
    all: Seq<Seq<char>>,
    shared: Seq<Seq<char>>,
    i: int,
    depth: nat,
)
    requires
        0 <= i <= all.len(),
        transformed_all(all.take(i), shared, depth) is Err,
    ensures
        transformed_all(all, shared, depth) == transformed_all(all.take(i), shared, depth),
    decreases all.len(),
{
    if i < all.len() {
        assert(all.drop_last().take(i) =~= all.take(i));
        lemma_failure_stays(all.drop_last(), shared, i, depth);
    } else {
        assert(all.take(i) =~= all);
    }
}

/// The shared variables after a statement.
pub open spec fn declared(shared: Seq<Seq<char>>, s: StmtView) -> Seq<Seq<char>> {
    match s {
        StmtView::Let(name, _) => shared.push(name),
        _ => shared,
    }
}

/// The mode of the blocks in it.
pub open spec fn inside(mode: Mode) -> Mode {
    if mode == Mode::Agent {
        Mode::Agent
    } else {
        Mode::Block
    }
}

/// The code of the statements of a block, from its text.
pub open spec fn block_code(text: Seq<char>, mode: Mode, shared: Seq<Seq<char>>, depth: nat) -> Result<
    Seq<char>,
    ErrorView,
>
    decreases depth, 2nat, 0nat,
{
    match parse::block_of(text) {
        Err(e) => Err(e),
        Ok(stmts) => codes(stmts, mode, shared, depth),
    }
}

/// The code of a statement. Blocks may be nested `depth` deep.
pub open spec fn code(s: StmtView, mode: Mode, shared: Seq<Seq<char>>, depth: nat) -> Result<
    Seq<char>,
    ErrorView,
>
    decreases depth, 0nat, 0nat,
{
    match s {
        StmtView::Wait(e) => Ok(wait_code(e)),
        StmtView::WaitSec(e) => Ok("let _ = __ctx.wait_sec("@ + e + ").await;"@),
        StmtView::Let(name, e) => Ok("let "@ + name + " = Shared::new("@ + e + ");"@),
        StmtView::Regular(t) => if mode == Mode::Block {
            transformed_stmt(t, shared, depth)
        } else if mode == Mode::Agent {
            nested::rewritten(t, shared, depth)
        } else {
            Ok(regular(t, mode, shared, token::stmt_shape(t), inner_shape(token::stmt_shape(t))))
        },
        _ => if depth == 0 {
            Err(ErrorView::Deep)
        } else {
            match block_code(body_of(s), inside(mode), shared, (depth - 1) as nat) {
                Err(e) => Err(e),
                Ok(inner) => Ok(around(s, inner)),
            }
        },
    }
}

/// What stands in the block of a statement.
pub open spec fn body_of(s: StmtView) -> Seq<char> {
    match s {
        StmtView::Fork(b) => b,
        StmtView::Join(b) => b,
        StmtView::Repeat(_, b) => b,
        StmtView::InfiniteLoop(b) => b,
        _ => Seq::empty(),
    }
}

/// A statement around the code of its block. Loops end when their context is
/// cancelled.
pub open spec fn around(s: StmtView, inner: Seq<char>) -> Seq<char> {
    match s {
        StmtView::Fork(_) => branch_code("{ "@ + inner + " }"@),
        StmtView::Join(_) => "let _ = __ctx.branch_wait(|__ctx| async move { "@ + inner
            + " }, BranchOptions::default()).await;"@,
        StmtView::Repeat(n, _) => "for _ in 0..("@ + n + ") { if __ctx.is_canceled() { break; } "@
            + inner + " }"@,
        StmtView::InfiniteLoop(_) => "loop { if __ctx.is_canceled() { break; } "@ + inner + " }"@,
        _ => inner,
    }
}

/// A statement around the code of its block.
pub fn surround(s: &TimingStmt, inner: &str) -> (r: String)
    ensures
        r@ == around(s@, inner@),
{
    match s {
        TimingStmt::Fork(_) => {
            let mut b: String = "{ ".to_owned();
            b.append(inner);
            b.append(" }");
            branch_text(b.as_str())
        },
        TimingStmt::Join(_) => {
            let mut r: String = "let _ = __ctx.branch_wait(|__ctx| async move { ".to_owned();
            r.append(inner);
            r.append(" }, BranchOptions::default()).await;");
            r
        },
        TimingStmt::Repeat(n, _) => {
            let mut r: String = "for _ in 0..(".to_owned();
            r.append(n.as_str());
            r.append(") { if __ctx.is_canceled() { break; } ");
            r.append(inner);
            r.append(" }");
            r
        },
        TimingStmt::InfiniteLoop(_) => {
            let mut r: String = "loop { if __ctx.is_canceled() { break; } ".to_owned();
            r.append(inner);
            r.append(" }");
            r
        },
        _ => inner.to_owned(),
    }
}

/// The code of statements, one after the other.
pub open spec fn codes(
    stmts: Seq<StmtView>,
    mode: Mode,
    shared: Seq<Seq<char>>,
    depth: nat,
) -> Result<Seq<char>, ErrorView>
    decreases depth, 1nat, stmts.len(),
{
    if stmts.len() == 0 {
        Ok(Seq::empty())
    } else {
        match code(stmts[0], mode, shared, depth) {
            Err(e) => Err(e),
            Ok(first) => match codes(stmts.skip(1), mode, declared(shared, stmts[0]), depth) {
                Err(e) => Err(e),
                Ok(rest) => Ok(first + " "@ + rest),
            },
        }
    }
}

/// Code, put before what follows it.
pub open spec fn prefixed(had: Seq<char>, r: Result<Seq<char>, ErrorView>) -> Result<
    Seq<char>,
    ErrorView,
> {
    match r {
        Ok(more) => Ok(had + more),
        Err(e) => Err(e),
    }
}

impl TimingStmt {
    /// The code of the statement. Blocks may be nested `depth` deep.
    pub fn expand(&self, mode: Mode, shared: &Vec<String>, depth: usize) -> (r: Result<
        String,
        ParseError,
    >)
        ensures
            code_view(r) == code(self@, mode, token::spelled(shared@), depth as nat),
        decreases depth, 1nat,
    {
        match self {
            TimingStmt::Wait(e) => Ok(wait_text(e.as_str())),
            TimingStmt::WaitSec(e) => {
                let mut s: String = "let _ = __ctx.wait_sec(".to_owned();
                s.append(e.as_str());
                s.append(").await;");
                Ok(s)
            },
            TimingStmt::Let(name, e) => {
                let mut s: String = "let ".to_owned();
                s.append(name.as_str());
                s.append(" = Shared::new(");
                s.append(e.as_str());
                s.append(");");
                Ok(s)
            },
            TimingStmt::Regular(t) => {
                if matches!(mode, Mode::Block) {
                    return transform_stmt(t.as_str(), shared, depth);
                }
                if matches!(mode, Mode::Agent) {
                    return nested::rewrite(t.as_str(), shared, depth);
                }
                let stmt: StmtShape = token::read_stmt_shape(t.as_str());
                let expr: ExprShape = read_inner_shape(&stmt);
                Ok(regular_code(t.as_str(), mode, shared, &stmt, &expr))
            },
            TimingStmt::Fork(b) => self.expand_around(b.as_str(), mode, shared, depth),
            TimingStmt::Join(b) => self.expand_around(b.as_str(), mode, shared, depth),
            TimingStmt::Repeat(_, b) => self.expand_around(b.as_str(), mode, shared, depth),
            TimingStmt::InfiniteLoop(b) => self.expand_around(b.as_str(), mode, shared, depth),
        }
    }

    /// The code of a statement with this block.
    fn expand_around(&self, body: &str, mode: Mode, shared: &Vec<String>, depth: usize) -> (r: Result<
        String,
        ParseError,
    >)
        requires
            self@ is Fork || self@ is Join || self@ is Repeat || self@ is InfiniteLoop,
            body@ == body_of(self@),
        ensures
            code_view(r) == code(self@, mode, token::spelled(shared@), depth as nat),
        decreases depth, 0nat,
    {
        if depth == 0 {
            return Err(ParseError::Deep);
        }
        let inner_mode: Mode = if matches!(mode, Mode::Agent) {
            Mode::Agent
        } else {
            Mode::Block
        };
        let stmts: Vec<TimingStmt> = match parse_block(body) {
            Ok(v) => v,
            Err(e) => {
                return Err(e);
            },
        };
        match expand_all(&stmts, inner_mode, shared, depth - 1) {
            Err(e) => Err(e),
            Ok(inner) => Ok(surround(self, inner.as_str())),
        }
    }
}

/// A copy of some texts.
fn copied(v: &Vec<String>) -> (r: Vec<String>)
    ensures
        token::spelled(r@) == token::spelled(v@),
{
    let n: usize = v.len();
    let mut out: Vec<String> = Vec::new();
    let mut i: usize = 0;
    while i < n
        invariant
            n == v@.len(),
            i <= n,
            out@.len() == i,
            forall|j: int| 0 <= j < i ==> (#[trigger] out@[j])@ == v@[j]@,
        decreases n - i,
    {
        out.push(v[i].clone());
        i = i + 1;
    }
    assert(token::spelled(out@) =~= token::spelled(v@));
    out
}

/// The code of statements, one after the other.
pub fn expand_all(stmts: &Vec<TimingStmt>, mode: Mode, shared: &Vec<String>, depth: usize) -> (r:
    Result<String, ParseError>)
    ensures
        code_view(r) == codes(
            parse::stmts_view(stmts@),
            mode,
            token::spelled(shared@),
            depth as nat,
        ),
    decreases depth, 2nat,
{
    let ghost all = parse::stmts_view(stmts@);
    let ghost goal = codes(all, mode, token::spelled(shared@), depth as nat);
    let n: usize = stmts.len();
    let mut names: Vec<String> = copied(shared);
    let mut out: String = String::new();
    let mut i: usize = 0;
    proof {
        assert(all.skip(0) =~= all);
        assert(prefixed(Seq::empty(), goal) =~~= goal) by {
            if goal is Ok {
                assert(Seq::<char>::empty() + goal->Ok_0 =~= goal->Ok_0);
            }
        }
        assert(out@ =~= Seq::empty());
    }
    while i < n
        invariant
            n == stmts@.len(),
            i <= n,
            all == parse::stmts_view(stmts@),
            goal == codes(all, mode, token::spelled(shared@), depth as nat),
            prefixed(
                out@,
                codes(all.skip(i as int), mode, token::spelled(names@), depth as nat),
            ) == goal,
        decreases n - i,
    {
        let ghost rest = all.skip(i as int);
        let ghost was = out@;
        let ghost had = token::spelled(names@);
        assert(rest[0] == stmts@[i as int]@);
        assert(rest.skip(1) =~= all.skip(i + 1));
        let text: String = match stmts[i].expand(mode, &names, depth) {
            Ok(t) => t,
            Err(e) => {
                return Err(e);
            },
        };
        out.append(text.as_str());
        out.append(" ");
        match &stmts[i] {
            TimingStmt::Let(name, _) => {
                names.push(name.clone());
            },
            _ => {},
        }
        proof {
            assert(token::spelled(names@) =~= declared(had, rest[0]));
            let more = codes(
                all.skip(i + 1),
                mode,
                token::spelled(names@),
                depth as nat,
            );
            if more is Ok {
                assert(out@ + more->Ok_0 =~= was + (text@ + " "@ + more->Ok_0));
            }
        }
        i = i + 1;
    }
    assert(all.skip(n as int) =~= Seq::empty());
    assert(out@ + Seq::<char>::empty() =~= out@);
    Ok(out)
}

/// The digits of a number, without a point at their end.
pub open spec fn trimmed(digits: Seq<char>) -> Seq<char> {
    if digits.len() > 0 && digits.last() == '.' {
        digits.drop_last()
    } else {
        digits
    }
}

/// The digits of a number, without a point at their end.
fn trim(digits: &String) -> (r: String)
    ensures
        r@ == trimmed(digits@),
{
    let d: &str = digits.as_str();
    let n: usize = d.unicode_len();
    if n > 0 && d.get_char(n - 1) == '.' {
        let r: String = d.substring_char(0, n - 1).to_owned();
        assert(r@ =~= digits@.drop_last());
        r
    } else {
        d.to_owned()
    }
}

/// The settings of an engine.
pub open spec fn settings(c: parse::ConfigView) -> Seq<char> {
    "EngineConfig { bpm: "@ + trimmed(c.bpm) + "f64, seed: "@ + token::quoted(c.seed)
        + ".to_string(), ..Default::default() };"@
}

/// The settings of an engine.
pub fn settings_text(c: &TimingConfig) -> (r: String)
    ensures
        r@ == settings(c@),
{
    let mut s: String = "EngineConfig { bpm: ".to_owned();
    s.append(trim(&c.bpm).as_str());
    s.append("f64, seed: ");
    s.append(token::string_literal(c.seed.as_str()).as_str());
    s.append(".to_string(), ..Default::default() };");
    s
}

/// The code of a program: an engine that runs its statements to the end.
pub open spec fn program_code(b: parse::BlockView, depth: nat) -> Result<Seq<char>, ErrorView> {
    let config = match b.config {
        Some(c) => "let __config = rust_timing_lib::"@ + settings(c),
        None => "let __config = rust_timing_lib::EngineConfig::default();"@,
    };
    match codes(b.stmts, Mode::Top, Seq::empty(), depth) {
        Err(e) => Err(e),
        Ok(stmts) => Ok(
            "{ use rust_timing_lib::{Engine, EngineConfig, SchedulerMode, BranchOptions, Ctx}; "@
                + config
                + " let mut __engine = Engine::new(SchedulerMode::Realtime, __config); "@
                + "__engine.spawn(|__ctx: Ctx| async move { "@ + stmts
                + " }); __engine.run_until_complete(); }"@,
        ),
    }
}

impl TimingBlock {
    /// The code of the program. Blocks may be nested `depth` deep.
    pub fn expand(&self, depth: usize) -> (r: Result<String, ParseError>)
        ensures
            code_view(r) == program_code(self@, depth as nat),
    {
        let none: Vec<String> = Vec::new();
        assert(token::spelled(none@) =~= Seq::empty());
        let stmts: String = match expand_all(&self.stmts, Mode::Top, &none, depth) {
            Ok(t) => t,
            Err(e) => {
                return Err(e);
            },
        };
        let config: String = match &self.config {
            Some(c) => {
                let mut s: String = "let __config = rust_timing_lib::".to_owned();
                s.append(settings_text(c).as_str());
                s
            },
            None => "let __config = rust_timing_lib::EngineConfig::default();".to_owned(),
        };
        let mut s: String =
            "{ use rust_timing_lib::{Engine, EngineConfig, SchedulerMode, BranchOptions, Ctx}; ".to_owned();
        s.append(config.as_str());
        s.append(" let mut __engine = Engine::new(SchedulerMode::Realtime, __config); ");
        s.append("__engine.spawn(|__ctx: Ctx| async move { ");
        s.append(stmts.as_str());
        s.append(" }); __engine.run_until_complete(); }");
        Ok(s)
    }
}

/// The code of a program in the notation. No text nests deeper than it is
/// long.
pub open spec fn timed(text: Seq<char>) -> Result<Seq<char>, ErrorView> {
    match token::lexed(text) {
        None => Err(ErrorView::Tokens),
        Some(ts) => match parse::programmed(ts, 0, parse::no_program()) {
            Err(e) => Err(e),
            Ok(b) => program_code(b, text.len()),
        },
    }
}

/// The code of a program in the notation.
pub fn timing(text: &str) -> (r: Result<String, ParseError>)
    ensures
        code_view(r) == timed(text@),
{
    match token::lex(text) {
        None => Err(ParseError::Tokens),
        Some(ts) => match TimingBlock::parse(&ts) {
            Err(e) => Err(e),
            Ok(b) => b.expand(text.unicode_len()),
        },
    }
}

/// The shared variables after some statements.
pub open spec fn declared_all(shared: Seq<Seq<char>>, stmts: Seq<StmtView>) -> Seq<Seq<char>>
    decreases stmts.len(),
{
    if stmts.len() == 0 {
        shared
    } else {
        declared_all(declared(shared, stmts[0]), stmts.skip(1))
    }
}

/// Statements become code in their order: the code of two rows of statements
/// is that of the first, then that of the second, in which the shared
/// variables of the first are known.
pub proof fn code_keeps_the_order(
    a: Seq<StmtView>,
    b: Seq<StmtView>,
    mode: Mode,
    shared: Seq<Seq<char>>,
    depth: nat,
)
    ensures
        codes(a + b, mode, shared, depth) == (match codes(a, mode, shared, depth) {
            Err(e) => Err(e),
            Ok(first) => prefixed(first, codes(b, mode, declared_all(shared, a), depth)),
        }),
    decreases a.len(),
{
    let rest = codes(b, mode, declared_all(shared, a), depth);
    if a.len() == 0 {
        assert(a + b =~= b);
        if rest is Ok {
            assert(Seq::<char>::empty() + rest->Ok_0 =~= rest->Ok_0);
        }
    } else {
        assert((a + b).skip(1) =~= a.skip(1) + b);
        assert((a + b)[0] == a[0]);
        code_keeps_the_order(a.skip(1), b, mode, declared(shared, a[0]), depth);
        let head = code(a[0], mode, shared, depth);
        let tail = codes(a.skip(1), mode, declared(shared, a[0]), depth);
        if head is Ok && tail is Ok && rest is Ok {
            assert(head->Ok_0 + " "@ + (tail->Ok_0 + rest->Ok_0) =~= (head->Ok_0 + " "@
                + tail->Ok_0) + rest->Ok_0);
        }
    }
}

/// Loops end when their context is cancelled: their code asks for that before
/// anything in their block.
pub proof fn loops_are_cancellable(s: StmtView, inner: Seq<char>)
    requires
        s is Repeat || s is InfiniteLoop,
    ensures
        exists|head: Seq<char>|
            around(s, inner) == #[trigger] (head + "{ if __ctx.is_canceled() { break; } "@) + inner
                + " }"@,
{
    let check = "{ if __ctx.is_canceled() { break; } "@;
    reveal_strlit("{ if __ctx.is_canceled() { break; } ");
    reveal_strlit(") { if __ctx.is_canceled() { break; } ");
    reveal_strlit("loop { if __ctx.is_canceled() { break; } ");
    let head = match s {
        StmtView::Repeat(n, _) => "for _ in 0..("@ + n + ") "@,
        _ => "loop "@,
    };
    reveal_strlit(") ");
    reveal_strlit("loop ");
    assert(around(s, inner) =~= (head + check) + inner + " }"@);
}

} // verus!
