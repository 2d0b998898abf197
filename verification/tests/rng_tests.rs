use rust_timing_lib::flt::Flt;
use rust_timing_lib::rng::{derive_seed, fnv1a64, DetRng};

fn g(x: Flt) -> f64 {
    f64::from_bits(x.to_bits())
}

#[test]
fn test_fnv1a64_deterministic() {
    let h1 = fnv1a64("test_seed");
    let h2 = fnv1a64("test_seed");
    assert_eq!(h1, h2);

    let h3 = fnv1a64("different_seed");
    assert_ne!(h1, h3);
}

#[test]
fn test_rng_deterministic() {
    let mut rng1 = DetRng::new("test");
    let mut rng2 = DetRng::new("test");

    for _ in 0..100 {
        assert_eq!(rng1.next_u64(), rng2.next_u64());
    }
}

#[test]
fn test_rng_random_range() {
    let mut rng = DetRng::new("test");

    for _ in 0..1000 {
        let r = g(rng.random());
        assert!(r >= 0.0 && r < 1.0);
    }
}

#[test]
fn test_fork_deterministic() {
    let rng = DetRng::new("parent");

    let mut fork1a = rng.fork("parent", 0);
    let mut fork1b = rng.fork("parent", 0);

    for _ in 0..100 {
        assert_eq!(fork1a.next_u64(), fork1b.next_u64());
    }
}

#[test]
fn test_fork_different_indices() {
    let rng = DetRng::new("parent");

    let mut fork0 = rng.fork("parent", 0);
    let mut fork1 = rng.fork("parent", 1);

    // Different forks should produce different sequences
    let v0: Vec<_> = (0..10).map(|_| fork0.next_u64()).collect();
    let v1: Vec<_> = (0..10).map(|_| fork1.next_u64()).collect();

    assert_ne!(v0, v1);
}

#[test]
fn hashes_have_their_published_values() {
    assert_eq!(fnv1a64(""), 0xcbf29ce484222325);
    assert_eq!(fnv1a64("a"), 0xaf63dc4c8601ec8c);
    assert_eq!(fnv1a64("foobar"), 0x85944171f73967e8);
}

#[test]
fn split_mix_has_its_published_values() {
    let mut rng = DetRng::from_u64(0);
    assert_eq!(rng.next_u64(), 0xe220a8397b1dcdaf);
    assert_eq!(rng.next_u64(), 0x6e789e6aa1b965f4);
    assert_eq!(rng.next_u64(), 0x06c45d188009454f);
}

#[test]
fn seeds_of_children_name_their_number() {
    assert_eq!(derive_seed("abc", 0), "abc::fork:0");
    assert_eq!(derive_seed("abc", 1234567890), "abc::fork:1234567890");
    assert_eq!(derive_seed("", u64::MAX), "::fork:18446744073709551615");
}

#[test]
fn random_numbers_are_the_upper_bits() {
    let mut a = DetRng::new("bits");
    let mut b = DetRng::new("bits");
    for _ in 0..1000 {
        let x = (a.next_u64() >> 11) as f64 / (1u64 << 53) as f64;
        assert_eq!(x, g(b.random()));
    }
}

#[test]
fn children_have_different_seeds() {
    let seeds: Vec<String> = (0..40).map(|i| derive_seed("root", i)).collect();
    for (i, a) in seeds.iter().enumerate() {
        assert_ne!(a, "root");
        for b in &seeds[i + 1..] {
            assert_ne!(a, b);
        }
    }
    assert_eq!(seeds[12], "root::fork:12");
}
