//! Doubles, held against the machine's own.
use rust_timing_lib::flt::Flt;

fn f(x: f64) -> Flt {
    Flt::from_bits(x.to_bits())
}

fn g(x: Flt) -> f64 {
    f64::from_bits(x.to_bits())
}

fn same(a: f64, b: f64) -> bool {
    (a.is_nan() && b.is_nan()) || a.to_bits() == b.to_bits()
}

struct Mix(u64);

impl Mix {
    fn next(&mut self) -> u64 {
        self.0 = self.0.wrapping_add(0x9e37_79b9_7f4a_7c15);
        let mut z = self.0;
        z = (z ^ (z >> 30)).wrapping_mul(0xbf58_476d_1ce4_e5b9);
        z = (z ^ (z >> 27)).wrapping_mul(0x94d0_49bb_1331_11eb);
        z ^ (z >> 31)
    }
}

fn samples() -> Vec<f64> {
    let mut v = vec![
        0.0,
        -0.0,
        1.0,
        -1.0,
        0.5,
        2.0,
        3.0,
        10.0,
        60.0,
        0.1,
        0.2,
        0.3,
        1e-12,
        1e-10,
        1e300,
        1e-300,
        f64::MIN_POSITIVE,
        f64::from_bits(1),
        f64::from_bits(3),
        f64::from_bits(0x000f_ffff_ffff_ffff),
        f64::MAX,
        -f64::MAX,
        f64::INFINITY,
        f64::NEG_INFINITY,
        f64::NAN,
        9007199254740991.0,
        9007199254740993.0,
        4503599627370497.5,
        120.0 / 60.0,
    ];
    let mut r = Mix(7);
    for _ in 0..60 {
        // Any pattern at all, and numbers near one.
        v.push(f64::from_bits(r.next()));
        v.push((r.next() >> 11) as f64 / (1u64 << 53) as f64);
        v.push((r.next() >> 40) as f64 / 1024.0 - 4096.0);
    }
    v
}

#[test]
fn sums_and_differences_match_the_machine() {
    let v = samples();
    for &a in &v {
        for &b in &v {
            assert!(same(g(f(a).sum(f(b))), a + b), "{a:?} + {b:?}");
            assert!(same(g(f(a).difference(f(b))), a - b), "{a:?} - {b:?}");
        }
    }
}

#[test]
fn products_match_the_machine() {
    let v = samples();
    for &a in &v {
        for &b in &v {
            assert!(same(g(f(a).product(f(b))), a * b), "{a:?} * {b:?}");
        }
    }
}

#[test]
fn quotients_match_the_machine() {
    let v = samples();
    for &a in &v {
        for &b in &v {
            assert!(same(g(f(a).quotient(f(b))), a / b), "{a:?} / {b:?}");
        }
    }
}

#[test]
fn roots_match_the_machine() {
    for a in samples() {
        assert!(same(g(f(a).sqrt()), a.sqrt()), "sqrt {a:?}");
    }
}

#[test]
fn comparisons_match_the_machine() {
    let v = samples();
    for &a in &v {
        for &b in &v {
            assert_eq!(f(a).lt(f(b)), a < b, "{a:?} < {b:?}");
            assert_eq!(f(a).le(f(b)), a <= b, "{a:?} <= {b:?}");
            assert_eq!(f(a).is_nan(), a.is_nan());
            assert_eq!(f(a).is_finite(), a.is_finite());
        }
    }
}

#[test]
fn larger_and_smaller_match_the_machine() {
    let v = samples();
    for &a in &v {
        for &b in &v {
            // Which zero comes out of a pair of zeros is left open.
            let high = g(f(a).max(f(b)));
            let low = g(f(a).min(f(b)));
            assert!(high == a.max(b) || (high.is_nan() && a.max(b).is_nan()), "max {a:?} {b:?}");
            assert!(low == a.min(b) || (low.is_nan() && a.min(b).is_nan()), "min {a:?} {b:?}");
        }
    }
}

#[test]
fn conversions_match_the_machine() {
    for a in samples() {
        assert_eq!(f(a).trunc_u64(), a as u64, "{a:?} as u64");
        assert_eq!(f(a).trunc_u8(), a as u8, "{a:?} as u8");
        assert!(same(g(f(a).abs()), a.abs()));
    }
    let mut r = Mix(11);
    for i in 0..400u32 {
        let n = r.next() >> (i % 64);
        assert!(same(g(Flt::from_u64(n)), n as f64), "{n} as f64");
    }
}

#[test]
fn ratios_are_what_decimals_mean() {
    assert!(same(g(Flt::ratio(5, 100)), 0.05));
    assert!(same(g(Flt::ratio(3, 100)), 0.03));
    assert!(same(g(Flt::ratio(1, 10)), 0.1));
    assert!(same(g(Flt::ratio(9, 10)), 0.9));
    assert!(same(g(Flt::ratio(18, 10)), 1.8));
    assert!(same(g(Flt::ratio(13, 10)), 1.3));
    assert!(same(g(Flt::ratio(25, 100)), 0.25));
    assert!(same(g(Flt::ratio(1, 3)), 1.0 / 3.0));
}

#[test]
fn constants_are_what_they_say() {
    assert!(same(g(Flt::zero()), 0.0));
    assert!(same(g(Flt::half()), 0.5));
    assert!(same(g(Flt::one()), 1.0));
    assert!(same(g(Flt::two()), 2.0));
    assert!(same(g(Flt::sixty()), 60.0));
    assert!(same(g(Flt::infinity()), f64::INFINITY));
    assert!(same(g(Flt::neg_infinity()), f64::NEG_INFINITY));
}

#[test]
fn total_rank_orders_like_the_machine() {
    let v = samples();
    for &a in &v {
        for &b in &v {
            assert_eq!(
                f(a).total_rank().cmp(&f(b).total_rank()),
                a.total_cmp(&b),
                "{a:?} against {b:?}"
            );
        }
        if !a.is_nan() {
            assert!(same(g(f(a).negate()), -a));
        }
    }
}
