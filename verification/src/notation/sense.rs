//! What the pieces of a program say of its text, and of its code.
use vstd::prelude::*;

use crate::notation::agent;
use crate::notation::agent::AgentView;
use crate::notation::expand;
use crate::notation::expand::Mode;
use crate::notation::nested;
use crate::notation::parse;
use crate::notation::parse::{BlockView, ConfigView, ErrorView, StmtView};
use crate::notation::token;
use crate::notation::token::{ExprShapeView, Kind, LitView, StmtShapeView, TokenView};

verus! {

/// Tokens are written one after the other, each as it is, with a gap after it
/// unless it is joined to the next.
pub proof fn tokens_are_written_in_order(a: Seq<TokenView>, t: TokenView, b: Seq<TokenView>)
    ensures
        token::rendered(a + b) == token::rendered(a) + token::rendered(b),
        t.joint ==> token::rendered(seq![t]) == t.text,
        !t.joint ==> token::rendered(seq![t]) == t.text + seq![' '],
    decreases b.len(),
{
    reveal_with_fuel(token::rendered, 2);
    assert(seq![t].drop_last() =~= Seq::<TokenView>::empty());
    assert(token::rendered(seq![t]) =~= t.shown());
    assert(t.text.push(' ') =~= t.text + seq![' ']);
    if b.len() == 0 {
        assert(a + b =~= a);
        assert(token::rendered(a) + Seq::<char>::empty() =~= token::rendered(a));
    } else {
        tokens_are_written_in_order(a, t, b.drop_last());
        assert((a + b).drop_last() =~= a + b.drop_last());
        assert((a + b).last() == b.last());
        assert(token::rendered(a + b) =~= token::rendered(a) + token::rendered(b));
    }
}

/// The statements of a branch are written one after the other.
pub proof fn texts_are_joined_in_order(a: Seq<Seq<char>>, t: Seq<char>, b: Seq<Seq<char>>)
    ensures
        expand::joined(a + b) == expand::joined(a) + expand::joined(b),
        expand::joined(seq![t]) == t + " "@,
    decreases b.len(),
{
    reveal_with_fuel(expand::joined, 2);
    assert(seq![t].drop_last() =~= Seq::<Seq<char>>::empty());
    assert(expand::joined(seq![t]) =~= t + " "@);
    if b.len() == 0 {
        assert(a + b =~= a);
        assert(expand::joined(a) + Seq::<char>::empty() =~= expand::joined(a));
    } else {
        texts_are_joined_in_order(a, t, b.drop_last());
        assert((a + b).drop_last() =~= a + b.drop_last());
        assert((a + b).last() == b.last());
        assert(expand::joined(a + b) =~= expand::joined(a) + expand::joined(b));
    }
}

/// Every named parameter of an agent is copied, in order, and those without a
/// name are passed over.
pub proof fn named_parameters_are_copied(
    a: Seq<Option<Seq<char>>>,
    n: Seq<char>,
    b: Seq<Option<Seq<char>>>,
)
    ensures
        agent::clones(a + b) == agent::clones(a) + agent::clones(b),
        agent::clones(seq![Some(n)]) == "let "@ + n + " = "@ + n + ".clone(); "@,
        agent::clones(seq![None::<Seq<char>>]).len() == 0,
    decreases b.len(),
{
    let one = seq![Some(n)];
    let none = seq![None::<Seq<char>>];
    reveal_with_fuel(agent::clones, 2);
    assert(one.drop_last() =~= Seq::<Option<Seq<char>>>::empty());
    assert(none.drop_last() =~= Seq::<Option<Seq<char>>>::empty());
    assert(one.last() == Some(n));
    assert(none.last() is None);
    assert(agent::clones(one) =~= "let "@ + n + " = "@ + n + ".clone(); "@);
    if b.len() == 0 {
        assert(a + b =~= a);
        assert(agent::clones(a) + Seq::<char>::empty() =~= agent::clones(a));
    } else {
        named_parameters_are_copied(a, n, b.drop_last());
        assert((a + b).drop_last() =~= a + b.drop_last());
        assert((a + b).last() == b.last());
        assert(agent::clones(a + b) =~= agent::clones(a) + agent::clones(b));
    }
}

/// What a statement that was read says of the tokens from `at` up to `n`: which
/// word or mark stands first, what stands last, and whose text the statement
/// holds.
pub open spec fn stands_for(s: StmtView, ts: Seq<TokenView>, at: int, n: int) -> bool {
    match s {
        StmtView::Wait(e) => {
            &&& token::mark_at(ts, at, '~')
            &&& !token::word_at(ts, at + 1, "s"@)
            &&& token::mark_at(ts, n - 1, ';')
            &&& at + 1 < n - 1
            &&& e == token::rendered(ts.subrange(at + 1, n - 1))
        },
        StmtView::WaitSec(e) => {
            &&& token::mark_at(ts, at, '~')
            &&& token::word_at(ts, at + 1, "s"@)
            &&& token::mark_at(ts, n - 1, ';')
            &&& at + 2 < n - 1
            &&& e == token::rendered(ts.subrange(at + 2, n - 1))
        },
        StmtView::Fork(b) => {
            &&& token::word_at(ts, at, "fork"@)
            &&& token::group_at(ts, n - 1, '{')
            &&& n == at + 2
            &&& b == ts[n - 1].inner
        },
        StmtView::Join(b) => {
            &&& token::word_at(ts, at, "join"@)
            &&& token::group_at(ts, n - 1, '{')
            &&& n == at + 2
            &&& b == ts[n - 1].inner
        },
        StmtView::InfiniteLoop(b) => {
            &&& token::word_at(ts, at, "loop"@)
            &&& token::group_at(ts, n - 1, '{')
            &&& n == at + 2
            &&& b == ts[n - 1].inner
        },
        StmtView::Repeat(c, b) => {
            &&& token::word_at(ts, at, "repeat"@)
            &&& token::group_at(ts, n - 1, '{')
            &&& at + 1 < n - 1
            &&& c == token::rendered(ts.subrange(at + 1, n - 1))
            &&& b == ts[n - 1].inner
        },
        StmtView::Let(name, e) => {
            &&& token::word_at(ts, at, "let"@)
            &&& ts[at + 1].kind == Kind::Word
            &&& name == ts[at + 1].text
            &&& token::mark_at(ts, at + 2, '=')
            &&& token::word_at(ts, at + 3, "shared"@)
            &&& token::mark_at(ts, at + 4, '!')
            &&& token::group_at(ts, at + 5, '(')
            &&& e == ts[at + 5].inner
            &&& token::mark_at(ts, at + 6, ';')
            &&& n == at + 7
        },
        StmtView::Regular(t) => {
            ||| t == token::rendered(ts.subrange(at, n))
            ||| t == ";"@ && token::mark_at(ts, at, ';') && n == at + 1
        },
    }
}

/// A statement that is read stands for the tokens that it took: for what their
/// first word or mark says, with the text between, and nothing is left out.
pub proof fn statements_stand_for_their_tokens(ts: Seq<TokenView>, at: int, block: bool)
    requires
        0 <= at < ts.len() <= usize::MAX - 2,
    ensures
        parse::stmt_at(ts, at, block) matches Ok((s, n)) ==> at < n <= ts.len() && stands_for(
            s,
            ts,
            at,
            n,
        ),
{
    let plan = parse::planned(ts, at, block);
    match plan {
        parse::Plan::Beats(from) => {
            assert(from == at + 1);
        },
        parse::Plan::Secs(from) => {
            assert(from == at + 2);
        },
        _ => {},
    }
}

/// At the top of a program the words that open a branch or a loop are never read
/// as Rust; in a block they are where no block follows.
pub proof fn words_of_the_notation_are_read_as_such(
    ts: Seq<TokenView>,
    at: int,
    block: bool,
    word: Seq<char>,
)
    requires
        0 <= at < ts.len(),
        token::word_at(ts, at, word),
        word == "fork"@ || word == "join"@ || word == "loop"@,
        !block || token::group_at(ts, at + 1, '{'),
    ensures
        ({
            let r = parse::stmt_at(ts, at, block);
            &&& !token::group_at(ts, at + 1, '{') ==> r == Err::<(StmtView, int), ErrorView>(
                ErrorView::Expected('{'),
            )
            &&& token::group_at(ts, at + 1, '{') && word == "fork"@ ==> r == Ok::<_, ErrorView>(
                (StmtView::Fork(ts[at + 1].inner), at + 2),
            )
            &&& token::group_at(ts, at + 1, '{') && word == "join"@ ==> r == Ok::<_, ErrorView>(
                (StmtView::Join(ts[at + 1].inner), at + 2),
            )
            &&& token::group_at(ts, at + 1, '{') && word == "loop"@ ==> r == Ok::<_, ErrorView>(
                (StmtView::InfiniteLoop(ts[at + 1].inner), at + 2),
            )
        }),
{
    reveal_strlit("fork");
    reveal_strlit("join");
    reveal_strlit("loop");
    reveal_strlit("repeat");
    assert("fork"@[0] != "join"@[0]);
    assert("fork"@[0] != "loop"@[0]);
    assert("join"@[0] != "loop"@[0]);
    assert("loop"@.len() != "repeat"@.len());
}

/// A setting changes what it names and nothing else. A tempo is a number, a seed
/// a text; what is of another sort, or has another name, changes nothing.
pub proof fn settings_change_what_they_name(c: ConfigView, key: Seq<char>, l: LitView)
    ensures
        ({
            let r = c.with(key, Ok(l));
            &&& r matches Ok(d) ==> d.bpm == c.bpm || key == "bpm"@
            &&& r matches Ok(d) ==> d.seed == c.seed || key == "seed"@
            &&& key == "seed"@ && l is Text ==> r is Ok && r->Ok_0.seed == l->Text_0
            &&& key == "bpm"@ && l is Float ==> r is Ok && r->Ok_0.bpm == l->Float_0
            &&& key == "bpm"@ && l is Int && r is Ok ==> r->Ok_0.bpm == l->Int_0
            &&& r is Err ==> key == "bpm"@ && l is Int
            &&& key != "bpm"@ && key != "seed"@ ==> r == Ok::<ConfigView, ErrorView>(c)
            &&& l is Other ==> r == Ok::<ConfigView, ErrorView>(c)
        }),
{
    reveal_strlit("bpm");
    reveal_strlit("seed");
    assert("bpm"@.len() != "seed"@.len());
}

/// Of two settings of the same name the later one counts, and the order of
/// settings of different names does not matter.
pub proof fn later_settings_count(c: ConfigView, a: Seq<char>, b: Seq<char>)
    ensures
        ({
            let s = |x: ConfigView, t: Seq<char>| x.with("seed"@, Ok(LitView::Text(t)));
            let m = |x: ConfigView, t: Seq<char>| x.with("bpm"@, Ok(LitView::Float(t)));
            &&& s(s(c, a)->Ok_0, b) == s(c, b)
            &&& m(m(c, a)->Ok_0, b) == m(c, b)
            &&& m(s(c, a)->Ok_0, b) == s(m(c, b)->Ok_0, a)
        }),
{
    reveal_strlit("bpm");
    reveal_strlit("seed");
    assert("bpm"@.len() != "seed"@.len());
}

/// A program is read from front to back: what was read before does not change
/// what comes after. The statements stand in their order, and of several
/// configurations the last one counts.
pub proof fn programs_are_read_in_order(ts: Seq<TokenView>, at: int, b: BlockView)
    ensures
        ({
            let r = parse::programmed(ts, at, b);
            let q = parse::programmed(ts, at, parse::no_program());
            match q {
                Err(e) => r == Err::<BlockView, ErrorView>(e),
                Ok(more) => r is Ok && r->Ok_0.stmts == b.stmts + more.stmts && r->Ok_0.config == if
                    more.config is Some {
                    more.config
                } else {
                    b.config
                },
            }
        }),
    decreases ts.len() - at,
{
    let none = parse::no_program();
    assert(b.stmts + none.stmts =~= b.stmts);
    if 0 <= at < ts.len() {
        if token::word_at(ts, at, "config"@) {
            if token::group_at(ts, at + 1, '{') {
                match parse::config_of(ts[at + 1].inner) {
                    Ok(c) => {
                        programs_are_read_in_order(
                            ts,
                            at + 2,
                            BlockView { config: Some(c), ..b },
                        );
                        programs_are_read_in_order(
                            ts,
                            at + 2,
                            BlockView { config: Some(c), ..none },
                        );
                        let q = parse::programmed(ts, at + 2, none);
                        if q is Ok {
                            assert(none.stmts + q->Ok_0.stmts =~= q->Ok_0.stmts);
                        }
                    },
                    Err(_) => {},
                }
            }
        } else {
            match parse::stmt_at(ts, at, false) {
                Ok((s, n)) => {
                    if n > at {
                        programs_are_read_in_order(
                            ts,
                            n,
                            BlockView { stmts: b.stmts.push(s), ..b },
                        );
                        programs_are_read_in_order(
                            ts,
                            n,
                            BlockView { stmts: none.stmts.push(s), ..none },
                        );
                        let q = parse::programmed(ts, n, none);
                        if q is Ok {
                            let more = q->Ok_0.stmts;
                            assert(b.stmts.push(s) + more =~= b.stmts + (none.stmts.push(s)
                                + more));
                        }
                    }
                },
                Err(_) => {},
            }
        }
    }
}

/// The code around a block holds the code of the block, all of it, at a place
/// that does not depend on it.
pub proof fn blocks_are_kept_whole(s: StmtView, a: Seq<char>, b: Seq<char>) -> (k: (int, int))
    requires
        s is Fork || s is Join || s is Repeat || s is InfiniteLoop,
    ensures
        0 < k.0 && 0 < k.1,
        expand::around(s, a).len() == k.0 + a.len() + k.1,
        expand::around(s, a).subrange(k.0, k.0 + a.len()) == a,
        expand::around(s, b).subrange(k.0, k.0 + b.len()) == b,
        expand::around(s, a).subrange(0, k.0) == expand::around(s, b).subrange(0, k.0),
        expand::around(s, a).skip(k.0 + a.len()) == expand::around(s, b).skip(k.0 + b.len()),
{
    reveal_strlit("{ ");
    reveal_strlit(" }");
    reveal_strlit("__ctx.branch(|__ctx| async move ");
    let (pre, post) = match s {
        StmtView::Fork(_) => (
            "__ctx.branch(|__ctx| async move "@ + "{ "@,
            " }"@ + ", BranchOptions::default());"@,
        ),
        StmtView::Join(_) => (
            "let _ = __ctx.branch_wait(|__ctx| async move { "@,
            " }, BranchOptions::default()).await;"@,
        ),
        StmtView::Repeat(n, _) => (
            "for _ in 0..("@ + n + ") { if __ctx.is_canceled() { break; } "@,
            " }"@,
        ),
        _ => ("loop { if __ctx.is_canceled() { break; } "@, " }"@),
    };
    reveal_strlit("let _ = __ctx.branch_wait(|__ctx| async move { ");
    reveal_strlit(" }, BranchOptions::default()).await;");
    reveal_strlit("for _ in 0..(");
    reveal_strlit("loop { if __ctx.is_canceled() { break; } ");
    let x = expand::around(s, a);
    let y = expand::around(s, b);
    let i = pre.len() as int;
    assert(x =~= pre + a + post);
    assert(y =~= pre + b + post);
    assert(x.subrange(i, i + a.len()) =~= a);
    assert(y.subrange(i, i + b.len()) =~= b);
    assert(x.subrange(0, i) =~= y.subrange(0, i));
    assert(x.skip(i + a.len()) =~= post);
    assert(y.skip(i + b.len()) =~= post);
    (i, post.len() as int)
}

/// At the top of a program, a statement of Rust that is no call on a shared
/// variable stays as it is; a call on one goes through it, once, and keeps its
/// method, its arguments and its semicolon.
pub proof fn only_calls_on_shared_variables_change(
    text: Seq<char>,
    shared: Seq<Seq<char>>,
    stmt: StmtShapeView,
    expr: ExprShapeView,
)
    ensures
        ({
            let r = expand::regular(text, Mode::Top, shared, stmt, expr);
            let call = stmt is Expr && expr is Call && shared.contains(expr->receiver);
            let new = expr->receiver + ".modify(|__inner| __inner."@ + expr->method + "("@
                + expr->args + "))"@;
            &&& !call ==> r == text
            &&& call && stmt->semi ==> r == new + ";"@
            &&& call && !stmt->semi ==> r == new
        }),
{
    reveal_strlit("");
    let new = expr->receiver + ".modify(|__inner| __inner."@ + expr->method + "("@ + expr->args
        + "))"@;
    assert(new + ""@ =~= new);
}

/// A shared variable is one from its declaration on, and only a declaration
/// makes one.
pub proof fn declarations_share_a_variable(shared: Seq<Seq<char>>, s: StmtView, name: Seq<char>)
    ensures
        expand::declared(shared, s).contains(name) <==> shared.contains(name) || (
        s matches StmtView::Let(n, _) && n == name),
{
    if s is Let {
        let n = s->Let_0;
        let all = shared.push(n);
        assert(all[shared.len() as int] == n);
        if shared.contains(name) {
            let i = choose|i: int| 0 <= i < shared.len() && shared[i] == name;
            assert(all[i] == name);
        }
        if all.contains(name) && name != n {
            let i = choose|i: int| 0 <= i < all.len() && all[i] == name;
            assert(shared[i] == name);
        }
    }
}

/// Statements in a block are rewritten one by one, in their order; the first
/// that cannot be is the error.
pub proof fn blocks_are_rewritten_in_order(
    a: Seq<Seq<char>>,
    b: Seq<Seq<char>>,
    shared: Seq<Seq<char>>,
    depth: nat,
)
    ensures
        expand::transformed_all(a + b, shared, depth) == (match expand::transformed_all(
            a,
            shared,
            depth,
        ) {
            Err(e) => Err(e),
            Ok(first) => expand::prefixed(first, expand::transformed_all(b, shared, depth)),
        }),
        nested::rewritten_all(a + b, shared, depth) == (match nested::rewritten_all(
            a,
            shared,
            depth,
        ) {
            Err(e) => Err(e),
            Ok(first) => expand::prefixed(first, nested::rewritten_all(b, shared, depth)),
        }),
    decreases b.len(),
{
    let x = expand::transformed_all(a, shared, depth);
    let y = nested::rewritten_all(a, shared, depth);
    if b.len() == 0 {
        assert(a + b =~= a);
        if x is Ok {
            assert(x->Ok_0 + Seq::<char>::empty() =~= x->Ok_0);
        }
        if y is Ok {
            assert(y->Ok_0 + Seq::<char>::empty() =~= y->Ok_0);
        }
    } else {
        let init = b.drop_last();
        blocks_are_rewritten_in_order(a, init, shared, depth);
        assert((a + b).drop_last() =~= a + init);
        assert((a + b).last() == b.last());
        let p = expand::transformed_all(init, shared, depth);
        let q = expand::transformed_stmt(b.last(), shared, depth);
        if x is Ok && p is Ok && q is Ok {
            assert(x->Ok_0 + p->Ok_0 + q->Ok_0 + " "@ =~= x->Ok_0 + (p->Ok_0 + q->Ok_0 + " "@));
        }
        let r = nested::rewritten_all(init, shared, depth);
        let t = nested::rewritten(b.last(), shared, depth);
        if y is Ok && r is Ok && t is Ok {
            assert(y->Ok_0 + r->Ok_0 + t->Ok_0 + " "@ =~= y->Ok_0 + (r->Ok_0 + t->Ok_0 + " "@));
        }
    }
}

/// In a block, a call on a shared variable goes through it, without its type
/// arguments; another call stays what it is. A block becomes the block of its
/// statements.
pub proof fn calls_in_blocks_go_through_shared_variables(
    e: Seq<char>,
    shared: Seq<Seq<char>>,
    depth: nat,
)
    requires
        depth > 0,
    ensures
        token::expr_shape(e) matches ExprShapeView::Call { receiver, method, types, args }
            ==> token::expr_shape(receiver) is Other ==> {
            let r = expand::transformed(e, shared, depth);
            &&& r is Ok
            &&& shared.contains(receiver) ==> r->Ok_0 == receiver
                + ".modify(|__inner| __inner."@ + method + "("@ + args + "))"@
            &&& !shared.contains(receiver) ==> r->Ok_0 == receiver + "."@ + method + types + "("@
                + args + ")"@
        },
        token::expr_shape(e) is Other || token::expr_shape(e) is Neg ==> expand::transformed(
            e,
            shared,
            depth,
        ) == Ok::<Seq<char>, ErrorView>(e),
        token::expr_shape(e) matches ExprShapeView::Block { stmts, .. } ==> stmts.len() == 0
            ==> expand::transformed(e, shared, depth) == Ok::<Seq<char>, ErrorView>(
            "{ "@ + Seq::<char>::empty() + " }"@,
        ),
{
    if token::expr_shape(e) is Call {
        let on = token::expr_shape(e)->receiver;
        if token::expr_shape(on) is Other {
            assert(expand::transformed(on, shared, (depth - 1) as nat) == Ok::<
                Seq<char>,
                ErrorView,
            >(on));
        }
    }
    if token::expr_shape(e) is Block && token::expr_shape(e)->stmts.len() == 0 {
        assert(expand::transformed_all(token::expr_shape(e)->stmts, shared, (depth - 1) as nat)
            == Ok::<Seq<char>, ErrorView>(Seq::<char>::empty()));
    }
}

/// In an agent, a negated expression is a wait for so many beats, a block with
/// the label of a fork is a branch of its statements, and a call on a shared
/// variable goes through it. Everything else stays as it is.
pub proof fn agents_wait_fork_and_share(
    text: Seq<char>,
    shared: Seq<Seq<char>>,
    stmt: StmtShapeView,
    expr: ExprShapeView,
)
    ensures
        ({
            let r = expand::regular(text, Mode::Agent, shared, stmt, expr);
            &&& !(stmt is Expr) ==> r == text
            &&& stmt is Expr && expr is Other ==> r == text
            &&& stmt is Expr && expr is Neg ==> r == "let _ = __ctx.wait("@ + expr->Neg_0
                + ").await;"@
            &&& stmt is Expr && expr is Block && expr->label == Some("fork"@) ==> r
                == "__ctx.branch(|__ctx| async move "@ + ("{ "@ + expand::joined(expr->stmts)
                + "}"@) + ", BranchOptions::default());"@
            &&& stmt is Expr && expr is Block && expr->label != Some("fork"@) ==> r == text
            &&& stmt is Expr && expr is Call && !shared.contains(expr->receiver) ==> r == text
            &&& stmt is Expr && expr is Call && shared.contains(expr->receiver) && stmt->semi ==> r
                == expr->receiver + ".modify(|__m| __m."@ + expr->method + "("@ + expr->args
                + "))"@ + ";"@
        }),
{
}

/// A statement of an agent that stands for nothing else, and has no brackets in
/// it, stays as it is.
pub proof fn plain_statements_stay(text: Seq<char>, shared: Seq<Seq<char>>, depth: nat)
    requires
        token::lexed(text) is Some,
        forall|i: int|
            0 <= i < token::lexed(text)->Some_0.len() ==> (
            #[trigger] token::lexed(text)->Some_0[i]).kind != Kind::Group,
        ({
            let stmt = token::stmt_shape(text);
            expand::regular(text, Mode::Agent, shared, stmt, expand::inner_shape(stmt)) == text
        }),
    ensures
        nested::rewritten(text, shared, depth) == Ok::<Seq<char>, ErrorView>(text),
{
    let ts = token::lexed(text)->Some_0;
    lemma_plain_tokens(ts, ts.len() as int, shared, depth);
    assert(ts.take(ts.len() as int) =~= ts);
}

proof fn lemma_plain_tokens(ts: Seq<TokenView>, n: int, shared: Seq<Seq<char>>, depth: nat)
    requires
        0 <= n <= ts.len(),
        forall|i: int| 0 <= i < ts.len() ==> (#[trigger] ts[i]).kind != Kind::Group,
    ensures
        nested::rewritten_tokens(ts, n, shared, depth) == Ok::<Seq<char>, ErrorView>(
            token::rendered(ts.take(n)),
        ),
    decreases n,
{
    if n > 0 {
        lemma_plain_tokens(ts, n - 1, shared, depth);
        assert(ts.take(n).drop_last() =~= ts.take(n - 1));
        assert(ts.take(n).last() == ts[n - 1]);
        assert(nested::rewritten_token(ts, n - 1, shared, depth) == Ok::<Seq<char>, ErrorView>(
            ts[n - 1].shown(),
        ));
    }
}

/// The code of a program holds the code of its statements, all of it; so does
/// that of an agent, after the copies of its parameters.
pub proof fn programs_hold_their_statements(b: BlockView, a: AgentView, depth: nat)
    ensures
        ({
            let r = expand::program_code(b, depth);
            let inner = expand::codes(b.stmts, Mode::Top, Seq::empty(), depth);
            &&& r is Ok <==> inner is Ok
            &&& r is Ok ==> exists|pre: Seq<char>|
                r->Ok_0 == #[trigger] (pre + inner->Ok_0)
                    + " }); __engine.run_until_complete(); }"@
            &&& inner matches Err(e) ==> r == Err::<Seq<char>, ErrorView>(e)
        }),
        ({
            let r = agent::agent_code(a, depth);
            let inner = expand::codes(a.stmts, Mode::Agent, Seq::empty(), depth);
            &&& r is Ok <==> inner is Ok
            &&& r is Ok ==> exists|pre: Seq<char>|
                r->Ok_0 == #[trigger] (pre + agent::clones(a.head.names)
                    + "engine.spawn(move |ctx: Ctx| { let __ctx = ctx.clone(); async move { "@
                    + inner->Ok_0) + " } }); engine.run_until_complete(); }"@
            &&& inner matches Err(e) ==> r == Err::<Seq<char>, ErrorView>(e)
        }),
{
    let x = expand::codes(b.stmts, Mode::Top, Seq::empty(), depth);
    if x is Ok {
        let config = match b.config {
            Some(c) => "let __config = rust_timing_lib::"@ + expand::settings(c),
            None => "let __config = rust_timing_lib::EngineConfig::default();"@,
        };
        let pre =
            "{ use rust_timing_lib::{Engine, EngineConfig, SchedulerMode, BranchOptions, Ctx}; "@
            + config + " let mut __engine = Engine::new(SchedulerMode::Realtime, __config); "@
            + "__engine.spawn(|__ctx: Ctx| async move { "@;
        let code = expand::program_code(b, depth)->Ok_0;
        assert(code =~= (pre + x->Ok_0) + " }); __engine.run_until_complete(); }"@);
    }
    let y = expand::codes(a.stmts, Mode::Agent, Seq::empty(), depth);
    if y is Ok {
        let pre = "fn "@ + a.head.name + "("@ + a.head.params + ") { "@
            + "use rust_timing_lib::{Engine, EngineConfig, SchedulerMode, BranchOptions, Ctx}; "@
            + "use std::sync::atomic::{AtomicBool, Ordering}; use std::sync::Arc; "@
            + "let config = "@ + expand::settings(a.config)
            + " let mut engine = Engine::new(SchedulerMode::Realtime, config); "@;
        let code = agent::agent_code(a, depth)->Ok_0;
        assert(code =~= (pre + agent::clones(a.head.names)
            + "engine.spawn(move |ctx: Ctx| { let __ctx = ctx.clone(); async move { "@ + y->Ok_0)
            + " } }); engine.run_until_complete(); }"@);
    }
}

} // verus!
