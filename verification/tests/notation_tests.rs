//! The terse notation, and the code it stands for.
use rust_timing_lib::notation::agent::{agent, Agent};
use rust_timing_lib::notation::expand::{
    regular_code, timing, transform_expr, transform_stmt, Mode,
};
use rust_timing_lib::notation::nested::{rewrite, rewrite_all};
use rust_timing_lib::notation::parse::{complete, parse_block, Plan};
use rust_timing_lib::notation::parse::{ParseError, TimingConfig, TimingStmt};
use rust_timing_lib::notation::token::{ExprShape, Kind, Lit, StmtShape, Token};

/// The code without its gaps.
fn packed(s: &str) -> String {
    s.split_whitespace().collect()
}

fn has(code: &str, part: &str) -> bool {
    packed(code).contains(&packed(part))
}

fn code(text: &str) -> String {
    timing(text).expect("it is in the notation")
}

fn block(text: &str) -> Vec<TimingStmt> {
    parse_block(text).expect("it is a block")
}

/// It is code that the grammar of Rust accepts.
fn is_rust(code: &str) -> bool {
    syn::parse_str::<syn::Expr>(code).is_ok()
}

#[test]
fn tilde_waits_for_beats() {
    let c = code("~1.0;");
    assert!(has(&c, "let _ = __ctx.wait(1.0).await;"), "{c}");
    assert!(is_rust(&c));
    let c = code("~(x + 1.0) * 2.0;");
    assert!(has(&c, "let _ = __ctx.wait((x + 1.0) * 2.0).await;"), "{c}");
}

#[test]
fn tilde_s_waits_for_seconds() {
    let c = code("~s 0.5;");
    assert!(has(&c, "let _ = __ctx.wait_sec(0.5).await;"), "{c}");
    // Another name is a number of beats.
    let c = code("~t;");
    assert!(has(&c, "let _ = __ctx.wait(t).await;"), "{c}");
}

#[test]
fn fork_is_a_branch_and_join_waits_for_it() {
    let c = code("fork { ~1.0; ~2.0; } join { ~s 3.0; } ~4.0;");
    assert!(
        has(
            &c,
            "__ctx.branch(|__ctx| async move { let _ = __ctx.wait(1.0).await; \
             let _ = __ctx.wait(2.0).await; }, BranchOptions::default());"
        ),
        "{c}"
    );
    assert!(
        has(
            &c,
            "let _ = __ctx.branch_wait(|__ctx| async move { let _ = __ctx.wait_sec(3.0).await; }, \
             BranchOptions::default()).await;"
        ),
        "{c}"
    );
    assert!(is_rust(&c));
}

#[test]
fn loops_ask_whether_they_are_cancelled() {
    let c = code("repeat 3 { ~1.0; } repeat n { } loop { ~0.5; }");
    assert!(
        has(
            &c,
            "for _ in 0..(3) { if __ctx.is_canceled() { break; } let _ = __ctx.wait(1.0).await; }"
        ),
        "{c}"
    );
    assert!(has(&c, "for _ in 0..(n) { if __ctx.is_canceled() { break; } }"), "{c}");
    assert!(
        has(&c, "loop { if __ctx.is_canceled() { break; } let _ = __ctx.wait(0.5).await; }"),
        "{c}"
    );
    assert!(is_rust(&c));
}

#[test]
fn shared_values_are_wrapped_and_modified() {
    let c = code("let x = shared!(vec![1, 2]); x.push(3); y.push(4); let z = 5;");
    assert!(has(&c, "let x = Shared::new(vec![1, 2]);"), "{c}");
    assert!(has(&c, "x.modify(|__inner| __inner.push(3));"), "{c}");
    assert!(has(&c, "y.push(4);"), "{c}");
    assert!(has(&c, "let z = 5;"), "{c}");
    assert!(is_rust(&c));
}

#[test]
fn blocks_modify_shared_variables_only() {
    let c = code("fork { midi.on(60, 100); ~1.0; midi.off(60); let k = 1; f(k); }");
    assert!(has(&c, "midi.on(60, 100);"), "{c}");
    assert!(has(&c, "midi.off(60);"), "{c}");
    assert!(has(&c, "let k = 1; f(k);"), "{c}");
    assert!(is_rust(&c));
    let c = code("let a = shared!(1); let x = shared!(2); fork { { a.b(); } x.y().z(1) }");
    assert!(has(&c, "{ a.modify(|__inner| __inner.b()); }"), "{c}");
    assert!(has(&c, "x.modify(|__inner| __inner.y()).z(1)"), "{c}");
    let c = code("let v = shared!(vec![1]); fork { v.iter().copied().collect::<Vec<u8>>(); w.q(); }");
    assert!(
        has(&c, "v.modify(|__inner| __inner.iter()).copied().collect::<Vec<u8>>(); w.q();"),
        "{c}"
    );
    assert!(is_rust(&c));
}

#[test]
fn blocks_may_use_the_words_as_names() {
    let c = code("fork { join.push(1); fork = 2; repeat.clear(); repeat += 1; repeat(3); join(); }");
    assert!(has(&c, "join.push(1);"), "{c}");
    assert!(has(&c, "fork = 2;"), "{c}");
    assert!(has(&c, "repeat.clear();"), "{c}");
    assert!(has(&c, "repeat += 1;"), "{c}");
    assert!(has(&c, "repeat(3);"), "{c}");
    assert!(has(&c, "join();"), "{c}");
    let c = code("fork { repeat (n + 1) { ~1; } repeat n { ~2; } }");
    assert!(has(&c, "for _ in 0..((n + 1))"), "{c}");
    assert!(has(&c, "for _ in 0..(n)"), "{c}");
}

#[test]
fn point_at_the_end_of_a_tempo_is_dropped() {
    let c = code("config { bpm: 120. } ~4.0;");
    assert!(has(&c, "bpm: 120f64,"), "{c}");
    let c = code("config { bpm: 90.5 } ~4.0;");
    assert!(has(&c, "bpm: 90.5f64,"), "{c}");
}

#[test]
fn blocks_nest() {
    let c = code("fork { repeat 2 { join { ~1.0; } } }");
    assert!(
        has(
            &c,
            "for _ in 0..(2) { if __ctx.is_canceled() { break; } \
             let _ = __ctx.branch_wait(|__ctx| async move { let _ = __ctx.wait(1.0).await; }"
        ),
        "{c}"
    );
    assert!(is_rust(&c));
}

#[test]
fn program_starts_an_engine() {
    let c = code("config { bpm: 120, seed: \"demo\" } ~4.0;");
    assert!(
        has(
            &c,
            "let __config = rust_timing_lib::EngineConfig { bpm: 120f64, \
             seed: \"demo\".to_string(), ..Default::default() };"
        ),
        "{c}"
    );
    assert!(has(&c, "let mut __engine = Engine::new(SchedulerMode::Realtime, __config);"), "{c}");
    assert!(has(&c, "__engine.spawn(|__ctx: Ctx| async move {"), "{c}");
    assert!(has(&c, "__engine.run_until_complete();"), "{c}");
    assert!(is_rust(&c));
    let c = code("~4.0;");
    assert!(has(&c, "let __config = rust_timing_lib::EngineConfig::default();"), "{c}");
}

#[test]
fn settings_have_defaults_and_forms() {
    let c = code("config { }");
    assert!(has(&c, "bpm: 120f64, seed: \"default\".to_string()"), "{c}");
    let c = code("config { bpm: 90.5, seed: \"a\\\"b\" }");
    assert!(has(&c, "bpm: 90.5f64, seed: \"a\\\"b\".to_string()"), "{c}");
    assert!(is_rust(&c));
    // A literal of another sort changes nothing.
    let c = code("config { bpm: \"x\", seed: 3 }");
    assert!(has(&c, "bpm: 120f64, seed: \"default\".to_string()"), "{c}");
    // The last configuration counts.
    let c = code("config { bpm: 1 } config { bpm: 2 }");
    assert!(has(&c, "bpm: 2f64"), "{c}");
}

fn error(text: &str) -> ParseError {
    timing(text).expect_err("it is not in the notation")
}

#[test]
fn each_error_has_its_cause() {
    assert!(matches!(error("{"), ParseError::Tokens));
    assert!(matches!(error("~1.0"), ParseError::Expected(';')));
    assert!(matches!(error("~1.0 x;"), ParseError::Expected(';')));
    assert!(matches!(error("~;"), ParseError::Syntax(_)));
    assert!(matches!(error("fork ~1.0;"), ParseError::Expected('{')));
    assert!(matches!(error("join;"), ParseError::Expected('{')));
    assert!(matches!(error("loop;"), ParseError::Expected('{')));
    assert!(matches!(error("repeat 3;"), ParseError::Expected('{')));
    assert!(matches!(error("repeat { }"), ParseError::Expected('{') | ParseError::Syntax(_)));
    assert!(matches!(error("let x = shared![3];"), ParseError::Expected('(')));
    assert!(matches!(error("let x = shared!(3 4);"), ParseError::Leftover));
    assert!(matches!(error("let x = shared!();"), ParseError::Syntax(_)));
    assert!(matches!(error("let x = shared!(3)"), ParseError::Expected(';')));
    assert!(matches!(error("f()"), ParseError::Syntax(_)));
    assert!(matches!(error(";"), ParseError::Syntax(_)));
    assert!(matches!(error("config;"), ParseError::Expected('{')));
    assert!(matches!(error("config { 3: 4 }"), ParseError::Name));
    assert!(matches!(error("config { type: 4 }"), ParseError::Name));
    assert!(matches!(error("config { bpm = 4 }"), ParseError::Expected(':')));
    assert!(matches!(error("config { bpm: x }"), ParseError::Syntax(_)));
    assert!(matches!(error("config { bpm: -3 }"), ParseError::Number(_)));
    assert!(matches!(error("config { bpm: 99999999999999999999 }"), ParseError::Number(_)));
    // What follows an unknown setting is not read with it.
    assert!(matches!(error("config { key: 4 }"), ParseError::Name));
    assert!(matches!(error("fork { ~; }"), ParseError::Syntax(_)));
}

#[test]
fn blocks_allow_what_programs_do_not() {
    let v = block("; f(); g()");
    assert_eq!(v.len(), 3);
    match &v[2] {
        TimingStmt::Regular(t) => assert_eq!(packed(t), "g()"),
        _ => panic!("a statement"),
    }
}

#[test]
fn statements_are_read_in_order() {
    let v = block("~1; ~s 2; fork {} join {} repeat 3 {} loop {} let a = shared!(0); if x { y } z;");
    let kinds: Vec<&str> = v
        .iter()
        .map(|s| match s {
            TimingStmt::Wait(_) => "wait",
            TimingStmt::WaitSec(_) => "wait_sec",
            TimingStmt::Fork(_) => "fork",
            TimingStmt::Join(_) => "join",
            TimingStmt::Repeat(_, _) => "repeat",
            TimingStmt::InfiniteLoop(_) => "loop",
            TimingStmt::Let(_, _) => "let",
            TimingStmt::Regular(_) => "regular",
        })
        .collect();
    assert_eq!(
        kinds,
        vec!["wait", "wait_sec", "fork", "join", "repeat", "loop", "let", "regular", "regular"]
    );
}

#[test]
fn statement_follows_from_what_was_read() {
    let word = |s: &str| Token::plain(Kind::Word, s.to_string(), false);
    let mark = |s: &str| Token::plain(Kind::Mark, s.to_string(), false);
    let ts = vec![mark("~"), word("x"), mark(";"), word("y")];
    match complete(&ts, 0, false, Plan::Beats(1), Ok(2), Ok(0)) {
        Ok((TimingStmt::Wait(e), 3)) => assert_eq!(e, "x "),
        other => panic!("{other:?}"),
    }
    match complete(&ts, 0, false, Plan::Beats(1), Ok(1), Ok(0)) {
        Err(ParseError::Expected(';')) => {}
        other => panic!("{other:?}"),
    }
    match complete(&ts, 0, false, Plan::Beats(1), Ok(3), Ok(0)) {
        Err(ParseError::Stuck) => {}
        other => panic!("{other:?}"),
    }
    match complete(&ts, 0, false, Plan::Beats(1), Err("no".to_string()), Ok(0)) {
        Err(ParseError::Syntax(m)) => assert_eq!(m, "no"),
        other => panic!("{other:?}"),
    }
    match complete(&ts, 3, true, Plan::Rust, Err("no".to_string()), Ok(0)) {
        Ok((TimingStmt::Regular(t), 4)) => assert_eq!(t, "y "),
        other => panic!("{other:?}"),
    }
}

#[test]
fn setting_follows_from_its_literal() {
    let c = TimingConfig::first();
    let c = c.set("bpm", Ok(Lit::Int("90".to_string()))).unwrap();
    let c = c.set("seed", Ok(Lit::Text("s".to_string()))).unwrap();
    let c = c.set("seed", Ok(Lit::Other)).unwrap();
    assert_eq!((c.bpm.as_str(), c.seed.as_str()), ("90", "s"));
    assert!(matches!(
        c.set("bpm", Ok(Lit::Int("-1".to_string()))),
        Err(ParseError::Number(_))
    ));
}

#[test]
fn depth_is_bounded() {
    let names = vec!["a".to_string()];
    assert!(matches!(transform_expr("a.b().c()", &names, 1), Err(ParseError::Deep)));
    assert!(transform_expr("a.b().c()", &names, 2).is_ok());
    assert_eq!(packed(&transform_stmt("let q = a.b();", &names, 0).unwrap()), "letq=a.b();");
    assert_eq!(
        packed(&transform_stmt("a.b();", &names, 1).unwrap()),
        "a.modify(|__inner|__inner.b());"
    );
    assert_eq!(packed(&transform_stmt("z.b();", &names, 1).unwrap()), "z.b();");
}

#[test]
fn agent_runs_its_body() {
    let c = agent(
        "bpm = 120, seed = \"demo\"",
        "fn my_piece(midi: Midi, (a, b): (u8, u8)) { fork { midi.on(60, 100); ~1.0; midi.off(60); } ~4.0; }",
    )
    .unwrap();
    assert!(has(&c, "fn my_piece(midi: Midi, (a, b): (u8, u8)) {"), "{c}");
    assert!(
        has(
            &c,
            "let config = EngineConfig { bpm: 120f64, seed: \"demo\".to_string(), \
             ..Default::default() };"
        ),
        "{c}"
    );
    assert!(has(&c, "let midi = midi.clone();"), "{c}");
    assert!(!has(&c, "let a = a.clone();"), "{c}");
    assert!(
        has(
            &c,
            "__ctx.branch(|__ctx| async move { midi.on(60, 100); let _ = __ctx.wait(1.0).await; \
             midi.off(60); }, BranchOptions::default()); let _ = __ctx.wait(4.0).await;"
        ),
        "{c}"
    );
    assert!(has(&c, "engine.run_until_complete();"), "{c}");
    assert!(syn::parse_str::<syn::ItemFn>(&c).is_ok(), "{c}");
}

#[test]
fn agent_reads_minus_and_labels() {
    let c = agent("", "fn p() { -1.0; 'fork: { f(); } let s = shared!(0); s.set(1); s2.set(2); }")
        .unwrap();
    assert!(has(&c, "bpm: 120f64, seed: \"default\".to_string()"), "{c}");
    assert!(has(&c, "let _ = __ctx.wait(1.0).await;"), "{c}");
    assert!(
        has(&c, "__ctx.branch(|__ctx| async move { f(); }, BranchOptions::default());"),
        "{c}"
    );
    assert!(has(&c, "s.modify(|__m| __m.set(1));"), "{c}");
    assert!(has(&c, "s2.set(2);"), "{c}");
    assert!(syn::parse_str::<syn::ItemFn>(&c).is_ok(), "{c}");
}

#[test]
fn agent_rejects_what_is_no_function() {
    assert!(matches!(agent("", "struct S;"), Err(ParseError::Expected('{'))));
    assert!(matches!(agent("", "struct S { }"), Err(ParseError::Syntax(_))));
    assert!(matches!(agent("bpm: 3", "fn p() { }"), Err(ParseError::Expected('='))));
    let a = Agent::parse("", "fn p(x: u8) { }").unwrap();
    assert_eq!(a.head.name, "p");
    assert_eq!(a.head.names, vec![Some("x".to_string())]);
}

#[test]
fn statement_of_rust_follows_from_its_shape() {
    let stmt = StmtShape::Expr { expr: "-1.0".to_string(), semi: true };
    let neg = ExprShape::Neg("1.0".to_string());
    let none: Vec<String> = Vec::new();
    assert_eq!(regular_code("-1.0;", Mode::Top, &none, &stmt, &neg), "-1.0;");
    assert_eq!(
        regular_code("-1.0;", Mode::Agent, &none, &stmt, &neg),
        "let _ = __ctx.wait(1.0).await;"
    );
    assert_eq!(
        regular_code("x", Mode::Agent, &none, &StmtShape::Other, &neg),
        "x"
    );
}

#[test]
fn type_arguments_go_where_a_call_goes_through_modify() {
    let names = vec!["a".to_string()];
    assert_eq!(
        packed(&transform_stmt("a.get::<u8>(1);", &names, 9).unwrap()),
        "a.modify(|__inner|__inner.get(1));"
    );
    assert_eq!(packed(&transform_stmt("z.get::<u8>(1);", &names, 9).unwrap()), "z.get::<u8>(1);");
    let c = code("let a = shared!(0); a.get::<u8>(1);");
    assert!(has(&c, "a.modify(|__inner| __inner.get(1));"), "{c}");
    let c = agent("", "fn p() { let a = shared!(0); a.get::<u8>(1); z.get::<u8>(1); }").unwrap();
    assert!(has(&c, "a.modify(|__m| __m.get(1));"), "{c}");
    assert!(has(&c, "z.get::<u8>(1);"), "{c}");
}

#[test]
fn agent_reads_the_statements_inside_of_others() {
    let c = agent(
        "",
        "fn p() { for i in 0..3 { -1.0; } if x { f(); -2.0; } else { { -3.0; } } \
         while !y { -4.0; 'fork: { g(-5.0); -6.0; } } }",
    )
    .unwrap();
    assert!(has(&c, "for i in 0..3 { let _ = __ctx.wait(1.0).await; }"), "{c}");
    assert!(
        has(
            &c,
            "if x { f(); let _ = __ctx.wait(2.0).await; } \
             else { { let _ = __ctx.wait(3.0).await; } }"
        ),
        "{c}"
    );
    // What stands in a branch of an agent stays as it is.
    assert!(
        has(
            &c,
            "while !y { let _ = __ctx.wait(4.0).await; \
             __ctx.branch(|__ctx| async move { g(-5.0); -6.0; }, BranchOptions::default()); }"
        ),
        "{c}"
    );
    assert!(syn::parse_str::<syn::ItemFn>(&c).is_ok(), "{c}");
    let c = agent("", "fn p() { match x { -1 => { -7.0; } _ => h(|| { -8.0; }), } let q = [-9.0]; }")
        .unwrap();
    assert!(has(&c, "match x { -1 => { let _ = __ctx.wait(7.0).await; }"), "{c}");
    assert!(has(&c, "h(|| { let _ = __ctx.wait(8.0).await; })"), "{c}");
    assert!(has(&c, "let q = [-9.0];"), "{c}");
}

#[test]
fn statement_without_statements_inside_stays_as_it_is() {
    let none: Vec<String> = Vec::new();
    for text in [
        "let x = f(-1.0, { g() });",
        "println!(\"{}\", { -1.0 });",
        "macro_rules! m { () => { -1.0; } }",
        "let p = Point { x: -1.0, y };",
        "x = -1.0;",
        "struct S { x: u8 }",
        "#[allow(unused)] let z = -1;",
    ] {
        assert_eq!(rewrite(text, &none, 100).unwrap(), text);
    }
    let shared = vec!["a".to_string()];
    assert_eq!(
        packed(&rewrite("if x { a.set(1); b.set(2); }", &shared, 100).unwrap()),
        "ifx{a.modify(|__m|__m.set(1));b.set(2);}"
    );
}

#[test]
fn brackets_may_be_nested_only_so_deep() {
    let none: Vec<String> = Vec::new();
    assert!(matches!(rewrite("if x { { -1.0; } }", &none, 1), Err(ParseError::Deep)));
    assert!(rewrite("if x { { -1.0; } }", &none, 2).is_ok());
    assert_eq!(
        packed(&rewrite_all(&vec!["-1.0;".to_string(), "f();".to_string()], &none, 1).unwrap()),
        "let_=__ctx.wait(1.0).await;f();"
    );
}
