//! Functions that run as agents.
use quote::ToTokens;
use vstd::prelude::*;
use vstd::string::*;

use crate::notation::expand;
use crate::notation::expand::{expand_all, Mode};
use crate::notation::parse;
use crate::notation::parse::{
    parse_block, parse_config, ErrorView, ParseError, StmtView, TimingConfig, TimingStmt,
};
use crate::notation::token;
use crate::notation::token::{has_group, render, Token};

verus! {

/// What the head of a function holds.
#[verifier::ext_equal]
pub struct HeadView {
    /// Its name.
    pub name: Seq<char>,
    /// Its parameters.
    pub params: Seq<char>,
    /// The name of each parameter, where it has one.
    pub names: Seq<Option<Seq<char>>>,
}

/// The head of a function.
#[derive(Debug)]
pub struct Head {
    /// Its name.
    pub name: String,
    /// Its parameters.
    pub params: String,
    /// The name of each parameter, where it has one.
    pub names: Vec<Option<String>>,
}

/// A text that may be missing, as characters.
pub open spec fn maybe(s: Option<String>) -> Option<Seq<char>> {
    match s {
        Some(t) => Some(t@),
        None => None,
    }
}

impl View for Head {
    type V = HeadView;

    open spec fn view(&self) -> HeadView {
        HeadView {
            name: self.name@,
            params: self.params@,
            names: self.names@.map_values(|s: Option<String>| maybe(s)),
        }
    }
}

/// The head of the function that a text is, or why it is none.
pub uninterp spec fn head(text: Seq<char>) -> Result<HeadView, Seq<char>>;

/// Calls `syn::parse_str::<syn::ItemFn>`, and writes the name and the
/// parameters with `quote::ToTokens` and `Display`; a parameter has a name
/// where its pattern is `syn::Pat::Ident`. The claim is that the result
/// depends on the text alone.
#[verifier::external_body]
pub(crate) fn read_head(text: &str) -> (r: Result<Head, String>)
    ensures
        head(text@) == (match r {
            Ok(h) => Ok(h@),
            Err(e) => Err(e@),
        }),
{
    let f = syn::parse_str::<syn::ItemFn>(text).map_err(|e| e.to_string())?;
    let name_of = |arg: &syn::FnArg| match arg {
        syn::FnArg::Typed(t) => match &*t.pat {
            syn::Pat::Ident(i) => Some(i.ident.to_string()),
            _ => None,
        },
        syn::FnArg::Receiver(_) => None,
    };
    Ok(Head {
        name: f.sig.ident.to_string(),
        params: f.sig.inputs.to_token_stream().to_string(),
        names: f.sig.inputs.iter().map(name_of).collect(),
    })
}

/// What an agent holds.
#[verifier::ext_equal]
pub struct AgentView {
    /// How its engine starts.
    pub config: parse::ConfigView,
    /// The head of its function.
    pub head: HeadView,
    /// The statements of its function.
    pub stmts: Seq<StmtView>,
}

/// A function that runs as an agent.
#[derive(Debug)]
pub struct Agent {
    /// How its engine starts.
    pub config: TimingConfig,
    /// The head of its function.
    pub head: Head,
    /// The statements of its function.
    pub stmts: Vec<TimingStmt>,
}

impl View for Agent {
    type V = AgentView;

    open spec fn view(&self) -> AgentView {
        AgentView {
            config: self.config@,
            head: self.head@,
            stmts: parse::stmts_view(self.stmts@),
        }
    }
}

/// What the reading of an agent gives.
pub open spec fn agent_view(r: Result<Agent, ParseError>) -> Result<AgentView, ErrorView> {
    match r {
        Ok(a) => Ok(a@),
        Err(e) => Err(e@),
    }
}

/// The settings of an agent: names, each followed by an equals sign and a
/// literal.
pub open spec fn agent_config(text: Seq<char>) -> Result<parse::ConfigView, ErrorView> {
    match token::lexed(text) {
        None => Err(ErrorView::Tokens),
        Some(ts) => parse::configured(ts, 0, '=', parse::first_config()),
    }
}

/// The head of a function, from its tokens, of which the last is its body.
pub open spec fn function_head(ts: Seq<token::TokenView>) -> Result<HeadView, ErrorView> {
    if !token::group_at(ts, ts.len() - 1, '{') {
        Err(ErrorView::Expected('{'))
    } else {
        match head(parse::span(ts, 0, ts.len() - 1) + "{}"@) {
            Err(m) => Err(ErrorView::Syntax(m)),
            Ok(h) => Ok(h),
        }
    }
}

/// The agent with these settings and this function.
pub open spec fn agent_of(attr: Seq<char>, item: Seq<char>) -> Result<AgentView, ErrorView> {
    match agent_config(attr) {
        Err(e) => Err(e),
        Ok(config) => match token::lexed(item) {
            None => Err(ErrorView::Tokens),
            Some(ts) => match function_head(ts) {
                Err(e) => Err(e),
                Ok(head) => match parse::block_of(ts.last().inner) {
                    Err(e) => Err(e),
                    Ok(stmts) => Ok(AgentView { config, head, stmts }),
                },
            },
        },
    }
}

/// Copies of the named parameters.
pub open spec fn clones(names: Seq<Option<Seq<char>>>) -> Seq<char>
    decreases names.len(),
{
    if names.len() == 0 {
        Seq::empty()
    } else {
        let had = clones(names.drop_last());
        match names.last() {
            Some(n) => had + "let "@ + n + " = "@ + n + ".clone(); "@,
            None => had,
        }
    }
}

/// The code of an agent: a function of that name and those parameters, which
/// runs the statements on an engine of its own, to the end.
pub open spec fn agent_code(a: AgentView, depth: nat) -> Result<Seq<char>, ErrorView> {
    match expand::codes(a.stmts, Mode::Agent, Seq::empty(), depth) {
        Err(e) => Err(e),
        Ok(body) => Ok(
            "fn "@ + a.head.name + "("@ + a.head.params + ") { "@
                + "use rust_timing_lib::{Engine, EngineConfig, SchedulerMode, BranchOptions, Ctx}; "@
                + "use std::sync::atomic::{AtomicBool, Ordering}; use std::sync::Arc; "@
                + "let config = "@ + expand::settings(a.config)
                + " let mut engine = Engine::new(SchedulerMode::Realtime, config); "@ + clones(
                a.head.names,
            ) + "engine.spawn(move |ctx: Ctx| { let __ctx = ctx.clone(); async move { "@ + body
                + " } }); engine.run_until_complete(); }"@,
        ),
    }
}

/// Copies of the named parameters.
fn clone_text(names: &Vec<Option<String>>) -> (r: String)
    ensures
        r@ == clones(names@.map_values(|s: Option<String>| maybe(s))),
{
    let ghost all = names@.map_values(|s: Option<String>| maybe(s));
    let n: usize = names.len();
    let mut out: String = String::new();
    let mut i: usize = 0;
    assert(all.take(0) =~= Seq::empty());
    assert(out@ =~= Seq::empty());
    while i < n
        invariant
            n == names@.len(),
            i <= n,
            all == names@.map_values(|s: Option<String>| maybe(s)),
            out@ == clones(all.take(i as int)),
        decreases n - i,
    {
        proof {
            assert(all.take(i + 1).drop_last() =~= all.take(i as int));
            assert(all.take(i + 1).last() == maybe(names@[i as int]));
        }
        match &names[i] {
            Some(s) => {
                out.append("let ");
                out.append(s.as_str());
                out.append(" = ");
                out.append(s.as_str());
                out.append(".clone(); ");
            },
            None => {},
        }
        i = i + 1;
    }
    assert(all.take(n as int) =~= all);
    out
}

impl Agent {
    /// Reads an agent from its settings and its function.
    pub fn parse(attr: &str, item: &str) -> (r: Result<Agent, ParseError>)
        ensures
            agent_view(r) == agent_of(attr@, item@),
    {
        let settings: Vec<Token> = match token::lex(attr) {
            Some(ts) => ts,
            None => {
                return Err(ParseError::Tokens);
            },
        };
        let config: TimingConfig = match parse_config(&settings, '=') {
            Ok(c) => c,
            Err(e) => {
                return Err(e);
            },
        };
        let ts: Vec<Token> = match token::lex(item) {
            Some(ts) => ts,
            None => {
                return Err(ParseError::Tokens);
            },
        };
        let n: usize = ts.len();
        if n == 0 || !has_group(&ts, n - 1, '{') {
            return Err(ParseError::Expected('{'));
        }
        let mut text: String = render(&ts, 0, n - 1);
        text.append("{}");
        let head: Head = match read_head(text.as_str()) {
            Ok(h) => h,
            Err(m) => {
                return Err(ParseError::Syntax(m));
            },
        };
        match parse_block(ts[n - 1].inner.as_str()) {
            Err(e) => Err(e),
            Ok(stmts) => Ok(Agent { config, head, stmts }),
        }
    }

    /// The code of the agent. Blocks may be nested `depth` deep.
    pub fn expand(&self, depth: usize) -> (r: Result<String, ParseError>)
        ensures
            expand::code_view(r) == agent_code(self@, depth as nat),
    {
        let none: Vec<String> = Vec::new();
        assert(token::spelled(none@) =~= Seq::empty());
        let body: String = match expand_all(&self.stmts, Mode::Agent, &none, depth) {
            Ok(t) => t,
            Err(e) => {
                return Err(e);
            },
        };
        let mut s: String = "fn ".to_owned();
        s.append(self.head.name.as_str());
        s.append("(");
        s.append(self.head.params.as_str());
        s.append(") { ");
        s.append(
            "use rust_timing_lib::{Engine, EngineConfig, SchedulerMode, BranchOptions, Ctx}; ",
        );
        s.append("use std::sync::atomic::{AtomicBool, Ordering}; use std::sync::Arc; ");
        s.append("let config = ");
        s.append(expand::settings_text(&self.config).as_str());
        s.append(" let mut engine = Engine::new(SchedulerMode::Realtime, config); ");
        s.append(clone_text(&self.head.names).as_str());
        s.append("engine.spawn(move |ctx: Ctx| { let __ctx = ctx.clone(); async move { ");
        s.append(body.as_str());
        s.append(" } }); engine.run_until_complete(); }");
        Ok(s)
    }
}

/// The code of the agent with these settings and this function.
pub open spec fn acted(attr: Seq<char>, item: Seq<char>) -> Result<Seq<char>, ErrorView> {
    match agent_of(attr, item) {
        Err(e) => Err(e),
        Ok(a) => agent_code(a, item.len()),
    }
}

/// The code of the agent with these settings and this function.
pub fn agent(attr: &str, item: &str) -> (r: Result<String, ParseError>)
    ensures
        expand::code_view(r) == acted(attr@, item@),
{
    match Agent::parse(attr, item) {
        Err(e) => Err(e),
        Ok(a) => a.expand(item.unicode_len()),
    }
}

} // verus!
