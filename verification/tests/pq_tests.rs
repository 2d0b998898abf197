use rust_timing_lib::flt::Flt;
use rust_timing_lib::pq::MinPq;

fn f(x: f64) -> Flt {
    Flt::from_bits(x.to_bits())
}

fn g(x: Flt) -> f64 {
    f64::from_bits(x.to_bits())
}

#[test]
fn test_basic_operations() {
    let mut pq: MinPq<&str> = MinPq::new();

    assert!(pq.add(1, f(0.5), 0, "first"));
    assert!(pq.add(2, f(0.2), 1, "second"));
    assert!(pq.add(3, f(0.8), 2, "third"));

    // Should return second (smallest deadline)
    let (id, dl, _, meta) = pq.pop().unwrap();
    assert_eq!(id, 2);
    assert!((g(dl) - 0.2).abs() < 1e-10);
    assert_eq!(meta, "second");

    // Next should be first
    let (id, dl, _, meta) = pq.pop().unwrap();
    assert_eq!(id, 1);
    assert!((g(dl) - 0.5).abs() < 1e-10);
    assert_eq!(meta, "first");
}

#[test]
fn test_remove() {
    let mut pq: MinPq<i32> = MinPq::new();

    pq.add(1, f(0.5), 0, 100);
    pq.add(2, f(0.2), 1, 200);
    pq.add(3, f(0.8), 2, 300);

    // Remove the minimum
    let removed = pq.remove(2);
    assert_eq!(removed, Some(200));

    // Now first should be the minimum
    let (id, _, _, _) = pq.pop().unwrap();
    assert_eq!(id, 1);
}

#[test]
fn test_adjust_deadline() {
    let mut pq: MinPq<&str> = MinPq::new();

    pq.add(1, f(0.5), 0, "a");
    pq.add(2, f(0.2), 1, "b");

    // Adjust so 1 is now smaller
    assert!(pq.adjust_deadline(1, f(0.1)));

    let (id, dl, _, _) = pq.pop().unwrap();
    assert_eq!(id, 1);
    assert!((g(dl) - 0.1).abs() < 1e-10);
}

#[test]
fn test_tie_breaking() {
    let mut pq: MinPq<u32> = MinPq::new();

    // Same deadline, different tie values
    pq.add(1, f(0.5), 2, 100);
    pq.add(2, f(0.5), 0, 200);
    pq.add(3, f(0.5), 1, 300);

    // Should come out in tie order: 0, 1, 2
    let (id, _, _, _) = pq.pop().unwrap();
    assert_eq!(id, 2);

    let (id, _, _, _) = pq.pop().unwrap();
    assert_eq!(id, 3);

    let (id, _, _, _) = pq.pop().unwrap();
    assert_eq!(id, 1);
}

#[test]
fn pops_agree_with_a_sorted_list() {
    let mut pq: MinPq<u64> = MinPq::default();
    assert!(pq.is_empty());
    let mut all: Vec<(f64, u64, u64)> = Vec::new();
    let mut x: u64 = 12345;
    for id in 0..300u64 {
        x = x.wrapping_mul(6364136223846793005).wrapping_add(1442695040888963407);
        let d = ((x >> 40) % 50) as f64 / 4.0 - 3.0;
        let tie = (x >> 20) % 7;
        assert!(pq.add(id, f(d), tie, id * 2));
        all.push((d, tie, id));
    }
    assert!(!pq.add(7, f(0.0), 0, 1));
    for id in 0..300u64 {
        if id % 5 == 0 {
            assert_eq!(pq.remove(id), Some(id * 2));
            all.retain(|e| e.2 != id);
        } else if id % 7 == 0 {
            assert!(pq.adjust_deadline(id, f(1.5)));
            for e in all.iter_mut() {
                if e.2 == id {
                    e.0 = 1.5;
                }
            }
        }
    }
    assert_eq!(pq.remove(0), None);
    assert!(!pq.adjust_deadline(0, f(1.0)));
    assert_eq!(pq.len(), all.len());
    all.sort_by(|a, b| a.0.total_cmp(&b.0).then_with(|| a.1.cmp(&b.1)).then_with(|| a.2.cmp(&b.2)));
    for (d, tie, id) in all {
        assert_eq!(pq.peek_deadline().map(g), Some(d));
        assert_eq!(pq.peek_meta().map(|e| (e.0, e.3)), Some((id, id * 2)));
        let (i, dl, t, m) = pq.pop().unwrap();
        assert_eq!((i, g(dl), t, m), (id, d, tie, id * 2));
    }
    assert!(pq.pop().is_none());
    assert!(pq.peek_deadline().is_none());
    assert!(pq.peek_meta().is_none());
}

#[test]
fn minus_zero_comes_before_zero_and_nan_comes_last() {
    let mut pq: MinPq<()> = MinPq::new();
    pq.add(1, f(f64::NAN), 0, ());
    pq.add(2, f(0.0), 0, ());
    pq.add(3, f(-0.0), 0, ());
    pq.add(4, f(f64::INFINITY), 0, ());
    pq.add(5, f(-1.0), 0, ());
    let mut order = Vec::new();
    while let Some((id, _, _, _)) = pq.pop() {
        order.push(id);
    }
    assert_eq!(order, vec![5, 3, 2, 4, 1]);
}

#[test]
fn entries_due_together_come_out_together() {
    let mut pq: MinPq<u8> = MinPq::new();
    pq.add(10, f(1.0), 3, 0);
    pq.add(11, f(1.0), 1, 0);
    pq.add(12, f(2.0), 0, 0);
    pq.add(13, f(1.0), 2, 0);
    assert_eq!(pq.pop_due(f(1.0)), vec![11, 13, 10]);
    assert_eq!(pq.pop_due(f(1.0)), Vec::<u64>::new());
    assert_eq!(pq.len(), 1);
}
