//! Double-precision arithmetic against the hardware.

use telemetry_edge::decimal::exact_text;
use telemetry_edge::double::Double;

fn double(v: f64) -> Double {
    Double::from_bits(v.to_bits())
}

fn float(d: Double) -> f64 {
    f64::from_bits(d.to_bits())
}

/// The same number, or both not a number.
fn assert_same(ours: Double, theirs: f64, what: &str) {
    if theirs.is_nan() {
        assert!(ours.is_nan(), "{what}: {:?}", float(ours));
    } else {
        assert_eq!(ours.to_bits(), theirs.to_bits(), "{what}: {theirs:?}");
    }
}

fn next(state: &mut u64) -> u64 {
    *state ^= *state << 13;
    *state ^= *state >> 7;
    *state ^= *state << 17;
    *state
}

const SPECIAL: [f64; 24] = [
    0.0,
    -0.0,
    1.0,
    -1.0,
    0.5,
    1.5,
    2.5,
    -2.5,
    0.1,
    3.0,
    10.0,
    5.0e-324,
    -5.0e-324,
    2.225_073_858_507_201e-308,
    f64::MIN_POSITIVE,
    f64::EPSILON,
    f64::MAX,
    f64::MIN,
    f64::INFINITY,
    f64::NEG_INFINITY,
    f64::NAN,
    9_007_199_254_740_992.0,
    9_007_199_254_740_993.0,
    1.0e16,
];

/// Numbers of every kind: special ones, arbitrary bits, and close magnitudes.
fn samples() -> Vec<f64> {
    let mut state = 0x5eed_5eed_5eed_5eed;
    let mut v = SPECIAL.to_vec();
    for _ in 0..60 {
        v.push(f64::from_bits(next(&mut state)));
    }
    for _ in 0..60 {
        let exponent = 1023 - 30 + next(&mut state) % 60;
        let sign = next(&mut state) & (1 << 63);
        v.push(f64::from_bits(sign | (exponent << 52) | (next(&mut state) >> 12)));
    }
    for _ in 0..30 {
        v.push(f64::from_bits(next(&mut state) >> 14));
    }
    v
}

#[test]
fn operations_match_the_hardware() {
    for &a in &samples() {
        for &b in &samples() {
            let (x, y) = (double(a), double(b));
            assert_same(x.plus(y), a + b, "+");
            assert_same(x.minus(y), a - b, "-");
            assert_same(x.times(y), a * b, "*");
            assert_same(x.divided_by(y), a / b, "/");
            assert_eq!(x.equals(y), a == b, "{a:?} == {b:?}");
            assert_eq!(x.is_less_than(y), a < b, "{a:?} < {b:?}");
            // The sign of the lesser or greater of two zeros is open.
            if a != 0.0 || b != 0.0 {
                assert_same(x.min(y), a.min(b), "min");
                assert_same(x.max(y), a.max(b), "max");
            }
        }
    }
}

#[test]
fn remainders_match_the_hardware() {
    for &a in &samples() {
        for b in [60.0, -60.0, 0.1, 1.0, 7.5e-3, f64::INFINITY, 0.0, f64::NAN] {
            let (x, y) = (double(a), double(b));
            assert_same(x.remainder(y), a % b, "%");
        }
    }
}

#[test]
fn parts_match_the_hardware() {
    for &a in &samples() {
        let x = double(a);
        assert_eq!(x.is_nan(), a.is_nan());
        assert_eq!(x.is_finite(), a.is_finite());
        assert_eq!(x.is_zero(), a == 0.0);
        assert_eq!(x.is_negative(), a.is_sign_negative());
        assert_same(x.abs(), a.abs(), "abs");
        assert_same(x.negated(), -a, "neg");
        assert_same(
            x.clamp(double(-2.0), double(3.0)),
            a.clamp(-2.0, 3.0),
            "clamp",
        );
        assert_eq!(
            f32::from_bits(x.to_single()).is_nan(),
            (a as f32).is_nan()
        );
        if !a.is_nan() {
            assert_eq!(x.to_single(), (a as f32).to_bits(), "{a:?} as f32");
        }
        if a.is_finite() && a.abs() < 1.0e38 {
            assert_eq!(x.round_to_integer(), a.round() as i128, "round {a:?}");
        }
    }
}

#[test]
fn conversions_match_the_hardware() {
    let mut state = 0x0dd_b175;
    for _ in 0..4000 {
        let bits = next(&mut state);
        let single = f32::from_bits(bits as u32);
        assert_same(
            Double::from_single(bits as u32),
            f64::from(single),
            "from single",
        );
        let shift = (next(&mut state) % 127) as u32;
        let wide =
            ((u128::from(next(&mut state)) << 64 | u128::from(next(&mut state))) as i128) >> shift;
        assert_same(Double::from_integer(wide), wide as f64, "from integer");
    }
    for i in [0, 1, -1, i128::MAX, i128::MIN, (1 << 53) + 1, (1 << 54) + 2] {
        assert_same(Double::from_integer(i), i as f64, "from integer");
    }
}

#[test]
fn exact_text_is_read_back() {
    for &a in &samples() {
        let text = exact_text(double(a));
        assert_same(double(text.parse::<f64>().unwrap()), a, &text);
    }
    assert_eq!(exact_text(double(f64::INFINITY)), "inf");
    assert_eq!(exact_text(double(f64::NEG_INFINITY)), "-inf");
    assert_eq!(exact_text(double(f64::NAN)), "NaN");
}

#[test]
fn half_way_cases_go_to_even() {
    // 2^53 + 1 lies between two doubles.
    assert_eq!(
        float(Double::from_integer(9_007_199_254_740_993)),
        9_007_199_254_740_992.0
    );
    assert_eq!(
        float(Double::from_integer(9_007_199_254_740_995)),
        9_007_199_254_740_996.0
    );
    // Halves round away from zero.
    assert_eq!(double(2.5).round_to_integer(), 3);
    assert_eq!(double(-2.5).round_to_integer(), -3);
    assert_eq!(double(0.499_999_999_999_999_94).round_to_integer(), 0);
}

#[test]
fn neutral_numbers() {
    for a in [0.25, -3.0, 1.0e300] {
        assert_eq!(float(double(a).times(double(1.0))), a);
        assert_eq!(float(double(a).plus(double(0.0))), a);
    }
}
