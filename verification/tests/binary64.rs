use chunk_router::binary64::Binary64;

fn of(x: f64) -> Binary64 {
    Binary64::from_bits(x.to_bits())
}

fn same(ours: Binary64, theirs: f64) -> bool {
    let ours = f64::from_bits(ours.to_bits());
    if theirs.is_nan() {
        ours.is_nan()
    } else {
        ours.to_bits() == theirs.to_bits()
    }
}

/// Bit patterns of all kinds: subnormals, halves, neighbours of powers of two,
/// infinities, and a pseudo-random spread.
fn samples() -> Vec<f64> {
    let mut out = vec![
        0.0,
        -0.0,
        1.0,
        -1.0,
        0.1,
        0.2,
        0.3,
        1.5,
        4.0,
        8192.0,
        1e-9,
        f64::EPSILON,
        f64::MAX,
        f64::MIN,
        f64::MIN_POSITIVE,
        f64::INFINITY,
        f64::NEG_INFINITY,
        f64::NAN,
        5e-324,
        2.2250738585072009e-308,
        9007199254740991.0,
        9007199254740993.0,
        9223372036854775807.0,
        18446744073709551615.0,
        0.5,
        -0.5,
        2.5,
        -2.5,
        1e300,
        -1e300,
        1e-300,
    ];
    let mut state: u64 = 0x9e3779b97f4a7c15;
    for _ in 0..60 {
        state = state.wrapping_mul(6364136223846793005).wrapping_add(1442695040888963407);
        out.push(f64::from_bits(state));
        // The same mantissa at a moderate exponent.
        out.push(f64::from_bits((state & 0x800f_ffff_ffff_ffff) | 0x4000_0000_0000_0000));
    }
    out
}

#[test]
fn arithmetic_is_bit_exact() {
    let samples = samples();
    for &a in &samples {
        for &b in &samples {
            assert!(same(of(a).plus(of(b)), a + b), "{a:e} + {b:e}");
            assert!(same(of(a).minus(of(b)), a - b), "{a:e} - {b:e}");
            assert!(same(of(a).times(of(b)), a * b), "{a:e} * {b:e}");
            assert!(same(of(a).divided_by(of(b)), a / b), "{a:e} / {b:e}");
            assert_eq!(of(a).is_less_than(of(b)), a < b, "{a:e} < {b:e}");
            assert_eq!(of(a).is_at_most(of(b)), a <= b, "{a:e} <= {b:e}");
            if a != b {
                assert!(same(of(a).min(of(b)), a.min(b)), "min {a:e} {b:e}");
                assert!(same(of(a).max(of(b)), a.max(b)), "max {a:e} {b:e}");
            }
        }
    }
}

#[test]
fn conversions_are_exact() {
    for a in samples() {
        assert_eq!(of(a).round_to_i64(), a.round() as i64, "round {a:e}");
        assert_eq!(of(a).ceil_to_usize(), a.ceil() as usize, "ceil {a:e}");
        assert_eq!(of(a).is_finite(), a.is_finite());
        assert_eq!(of(a).is_infinite(), a.is_infinite());
        assert_eq!(of(a).is_nan(), a.is_nan());
        assert_eq!(of(a).is_positive(), a > 0.0);
        assert_eq!(of(a).is_zero(), a == 0.0);
        assert!(same(of(a).negate(), -a));
    }
    for n in [0, 1, -1, 3, 1000, 9007199254740993, i64::MAX, i64::MIN, -9007199254740995] {
        assert!(same(Binary64::from_i64(n), n as f64), "{n}");
        assert!(same(Binary64::from_i128(n as i128 * 2), (n as i128 * 2) as f64), "{n}");
    }
    for n in [0, 1, 16777217, 16777219, 40000, usize::MAX, usize::MAX / 3] {
        assert!(same(Binary64::from_usize(n), n as f64), "{n}");
        assert!(same(Binary64::single_from_usize(n), n as f32 as f64), "{n}");
    }
    for exact in [0.49999999999999994, 0.5, 1.5, -1.5, 2.4999, 40.5] {
        assert_eq!(of(exact).round_to_i64(), exact.round() as i64, "{exact}");
        assert_eq!(of(exact).ceil_to_usize(), exact.ceil() as usize, "{exact}");
    }
}

#[test]
fn single_precision_products_are_exact() {
    let rates = [0.3f32, 0.2, 1.0, 0.0, -0.5, 1e-40, 3.4e38, f32::INFINITY, f32::NAN, 1e-45, 0.7];
    for chars in [0usize, 1, 3, 10, 39_998, 16_777_217, usize::MAX] {
        for rate in rates {
            let ours = Binary64::single_from_usize(chars).times_single(of(rate as f64));
            let theirs = chars as f32 * rate;
            assert!(same(ours, theirs as f64), "{chars} * {rate}");
            assert_eq!(ours.ceil_to_usize(), theirs.ceil() as usize, "{chars} * {rate}");
        }
    }
}

#[test]
fn ratios_are_the_written_constants() {
    assert!(same(Binary64::ratio(3, 10), 0.3));
    assert!(same(Binary64::ratio(1, 1_000_000_000), 1e-9));
    assert!(same(Binary64::ratio(0, 7), 0.0));
    assert!(same(Binary64::ratio(u32::MAX, 1), u32::MAX as f64));
    assert!(same(Binary64::ratio(1, u32::MAX), 1.0 / u32::MAX as f64));
    assert!(same(Binary64::single_ratio(2, 10), 0.2f32 as f64));
    assert!(same(Binary64::single_ratio(3, 10), 0.3f32 as f64));
    assert!(same(Binary64::single_ratio(11, 10), 1.1f32 as f64));
    assert!(same(Binary64::single_ratio(10001, 10000), 1.0001f32 as f64));
    assert!(same(Binary64::infinite(true), f64::NEG_INFINITY));
    assert!(same(Binary64::zero(true), -0.0));
}
