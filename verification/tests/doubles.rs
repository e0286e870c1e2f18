use diskwatch::binary64::{parts, Double};

fn double(x: f64) -> Double {
    Double { bits: x.to_bits() }
}

fn samples() -> Vec<f64> {
    let mut out = vec![
        0.0, -0.0, 1.0, -1.0, 0.1, 0.2, 0.3, 0.01, 1e-3, 2.5, 3.5, 1e9, 1e16, 9007199254740991.0, 9007199254740992.0,
        9007199254740993.0, 1e22, 1e300, -1e300, f64::MAX, f64::MIN, f64::MIN_POSITIVE, 5e-324, -5e-324, 1e-310, 1e-320,
        f64::INFINITY, f64::NEG_INFINITY, f64::NAN, 4503599627370496.5, 0.5, 1.5, 0.25, 0.75, 1.0 - 1e-16,
    ];
    let mut seed: u64 = 99;
    for _ in 0..120 {
        seed = seed.wrapping_mul(6364136223846793005).wrapping_add(1442695040888963407);
        out.push(f64::from_bits(seed));
        out.push((seed >> 12) as f64 * 1e-3);
        out.push(f64::from_bits(seed & 0x800F_FFFF_FFFF_FFFF | 0x3FF0_0000_0000_0000));
        out.push(f64::from_bits(seed & 0x000F_FFFF_FFFF_FFFF));
    }
    out
}

fn same(ours: Double, theirs: f64, what: &str) {
    if theirs.is_nan() {
        assert!(ours.is_nan(), "{}", what);
    } else {
        assert_eq!(ours.bits, theirs.to_bits(), "{}", what);
    }
}

#[test]
fn sums_and_quotients_are_rounded_as_doubles() {
    let all = samples();
    for a in &all {
        for b in &all {
            same(double(*a).plus(double(*b)), a + b, &format!("{:e} + {:e}", a, b));
            same(double(*a).over(double(*b)), a / b, &format!("{:e} / {:e}", a, b));
        }
    }
}

#[test]
fn comparisons_are_those_of_doubles() {
    let all = samples();
    for a in &all {
        for b in &all {
            assert_eq!(double(*a).below(double(*b)), a < b, "{:e} < {:e}", a, b);
            assert_eq!(double(*a).at_least(double(*b)), a >= b, "{:e} >= {:e}", a, b);
        }
        assert_eq!(double(*a).is_nan(), a.is_nan());
        assert_eq!(double(*a).is_positive(), *a > 0.0);
        assert_eq!(double(*a).is_at_least(1000), *a >= 1000.0);
        assert_eq!(double(*a).is_below(1), *a < 1.0);
    }
}

#[test]
fn whole_numbers_become_the_nearest_double() {
    let mut seed: u64 = 3;
    for i in 0..2000u32 {
        seed = seed.wrapping_mul(6364136223846793005).wrapping_add(1442695040888963407);
        let n = seed >> (i % 64);
        assert_eq!(Double::from_u64(n).bits, (n as f64).to_bits(), "{n}");
    }
    for n in [0, 1, (1 << 53) - 1, 1 << 53, (1 << 53) + 1, (1 << 53) + 3, u64::MAX, u64::MAX - 1024, u64::MAX - 1023] {
        assert_eq!(Double::from_u64(n).bits, (n as f64).to_bits(), "{n}");
    }
}

#[test]
fn fixed_places_are_those_of_the_formatter() {
    for x in samples() {
        assert_eq!(double(x).to_fixed(0), format!("{:.0}", x), "{:e}", x);
        assert_eq!(double(x).to_fixed(1), format!("{:.1}", x), "{:e}", x);
        assert_eq!(double(x).to_fixed(2), format!("{:.2}", x), "{:e}", x);
    }
    assert_eq!(double(0.125).to_fixed(2), "0.12");
    assert_eq!(double(0.375).to_fixed(2), "0.38");
    assert_eq!(double(2.675).to_fixed(2), "2.67");
}

#[test]
fn encodings_split_into_mantissa_and_doublings() {
    assert_eq!(parts(0), (0, 0));
    assert_eq!(parts(1), (1, 0));
    assert_eq!(parts(1f64.to_bits()), (1 << 52, 1022));
    assert_eq!(parts(f64::MAX.to_bits()), ((1 << 53) - 1, 2045));
}
