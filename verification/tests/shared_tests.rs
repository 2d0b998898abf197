//! Values that voices share, and numbers as text.
use rust_timing_lib::demo::shared::{MessageQueue, NoteSet, Params, Shared, Store};
use rust_timing_lib::demo::terse::{N, P, Q, V};
use rust_timing_lib::flt::Flt;
use rust_timing_lib::text::{parse_number, parse_u64, push_decimal, same};

fn f(x: f64) -> Flt {
    Flt::from_bits(x.to_bits())
}

#[test]
fn shared_values_change() {
    let mut st = Store::new();
    let s = Shared::new(&mut st, 3);
    let c = s.clone();
    assert_eq!(s.get(&st), 3);
    s.set(&mut st, 4);
    assert_eq!(c.get(&st), 4);
    let old = s.modify(&mut st, |x| {
        let was = *x;
        *x += 10;
        was
    });
    assert_eq!((old, *c.inner(&st)), (4, 14));
    let mut st = Store::new();
    let v = V::new(&mut st, vec![1]);
    v.m(&mut st, |x| x.push(2));
    assert_eq!(v.g(&st), vec![1, 2]);
    let mut st = Store::new();
    let n = V::new(&mut st, 3);
    let c = n.clone();
    let r = n.m(&mut st, |x| {
        *x += 4;
        *x * 10
    });
    assert_eq!((r, n.g(&st), c.g(&st)), (70, 7, 7));
    c.s(&mut st, 5);
    assert_eq!(n.g(&st), 5);
}

#[test]
fn holders_of_different_values_do_not_meet() {
    let mut st = Store::new();
    let a = Shared::new(&mut st, f(0.5));
    let b = Shared::new(&mut st, f(0.25));
    a.set(&mut st, f(0.8));
    assert_eq!((a.get(&st), b.get(&st)), (f(0.8), f(0.25)));
}

#[test]
fn queue_is_first_in_first_out() {
    let mut st = Store::new();
    let q = MessageQueue::new(&mut st);
    let p = q.clone();
    assert!(q.is_empty(&st) && q.pop(&mut st).is_none());
    q.push(&mut st, "a");
    p.push(&mut st, "b");
    q.push(&mut st, "c");
    assert_eq!((p.pop(&mut st), q.len(&st)), (Some("a"), 2));
    assert_eq!(q.drain_all(&mut st), vec!["b", "c"]);
    assert!(p.is_empty(&st));
    let mut st = Store::new();
    let q = Q::new(&mut st);
    let p = q.clone();
    q.push(&mut st, 1);
    p.push(&mut st, 2);
    assert_eq!(q.pop(&mut st), Some(1));
    q.push(&mut st, 3);
    assert_eq!(q.len(&st), 2);
    assert_eq!((p.pop(&mut st), q.pop(&mut st), q.pop(&mut st)), (Some(2), Some(3), None));
    assert_eq!(q.len(&st), 0);
}

#[test]
fn note_set_keeps_each_note_once() {
    let mut st = Store::new();
    let n = NoteSet::new(&mut st);
    let c = n.clone();
    assert!(n.is_empty(&st));
    n.add(&mut st, 60);
    c.add(&mut st, 60);
    c.add(&mut st, 64);
    assert_eq!(n.len(&st), 2);
    let mut all = n.notes(&st);
    all.sort();
    assert_eq!(all, vec![60, 64]);
    n.remove(&mut st, 60);
    n.remove(&mut st, 99);
    assert!(!c.contains(&st, 60) && c.contains(&st, 64));
    n.clear(&mut st);
    assert!(n.is_empty(&st) && c.is_empty(&st));
    let t = N::new(&mut st);
    let u = t.clone();
    t.add(&mut st, 1);
    t.add(&mut st, 2);
    u.rm(&mut st, 1);
    assert!(t.has(&st, 2) && !t.has(&st, 1));
    assert_eq!(t.all(&st), vec![2]);
    u.clear(&mut st);
    assert!(t.all(&st).is_empty());
}

#[test]
fn params_stand_under_names() {
    let mut st = Store::new();
    let p = Params::new(&mut st);
    let c = p.clone();
    assert_eq!(p.get(&st, "x"), None);
    assert_eq!(p.get_or(&st, "x", f(2.0)), f(2.0));
    p.set(&mut st, "x", f(1.0));
    p.set(&mut st, "y", f(5.0));
    c.set(&mut st, "x", f(3.0));
    assert_eq!(p.get(&st, "x"), Some(f(3.0)));
    p.modify(&mut st, "x", |v| v.sum(Flt::one()));
    p.modify(&mut st, "z", |v| v.sum(Flt::one()));
    assert_eq!((c.get(&st, "x"), c.get(&st, "y"), c.get(&st, "z")), (Some(f(4.0)), Some(f(5.0)), None));
    let t = P::new(&mut st);
    let u = t.clone();
    assert_eq!(t.g(&st, "k"), f(0.0));
    t.s(&mut st, "k", f(7.0));
    assert_eq!(u.g(&st, "k"), f(7.0));
}

#[test]
fn numbers_read_back() {
    for n in [0u64, 7, 10, 409, u64::MAX] {
        let mut s = String::from("#");
        push_decimal(&mut s, n);
        assert_eq!(s, format!("#{n}"));
        assert_eq!(parse_u64(&s[1..]), Some(n));
    }
    for bad in ["", "+", "-1", "1 ", "x", "1_0", "18446744073709551616"] {
        assert_eq!(parse_u64(bad), bad.parse::<u64>().ok(), "{bad}");
    }
    for ok in ["+5", "007", "18446744073709551615"] {
        assert_eq!(parse_u64(ok), ok.parse::<u64>().ok(), "{ok}");
        assert_eq!(parse_number(ok), ok.parse::<usize>().ok(), "{ok}");
    }
    assert!(same("ab", "ab") && !same("ab", "ac"));
}
