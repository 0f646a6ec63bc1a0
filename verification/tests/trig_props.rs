use epicycles::fixed::{isqrt, HALF_PI_FP, PI_FP, QUARTER_PI_FP, SCALE, TWO_PI_FP};
use epicycles::trig::{atan2_fp, cos_fp, sin_fp};

#[test]
fn isqrt_exact_values() {
    assert_eq!(isqrt(0), 0);
    assert_eq!(isqrt(1), 1);
    assert_eq!(isqrt(2), 1);
    assert_eq!(isqrt(3), 1);
    assert_eq!(isqrt(4), 2);
    assert_eq!(isqrt(999_999), 999);
    assert_eq!(isqrt(1_000_000_000_000), 1_000_000);
    assert_eq!(isqrt(u128::MAX), u64::MAX);
}

#[test]
fn trig_zero_is_exact() {
    assert_eq!(cos_fp(0), SCALE);
    assert_eq!(sin_fp(0), 0);
}

#[test]
fn trig_quarter_and_half_turns() {
    assert!((SCALE - sin_fp(HALF_PI_FP)).abs() < 2_000);
    assert!(cos_fp(HALF_PI_FP).abs() < 2_000);
    assert!((SCALE + cos_fp(PI_FP)).abs() < 2_000);
    assert!(sin_fp(PI_FP).abs() < 2_000);
    assert!((SCALE + sin_fp(-HALF_PI_FP)).abs() < 2_000);
}

#[test]
fn trig_matches_float_reference() {
    let mut worst: f64 = 0.0;
    let mut a: i64 = -7_000_000;
    while a <= 7_000_000 {
        let s = sin_fp(a) as f64 / SCALE as f64;
        let c = cos_fp(a) as f64 / SCALE as f64;
        let ar = a as f64 / SCALE as f64;
        worst = worst.max((s - ar.sin()).abs()).max((c - ar.cos()).abs());
        a += 37_321;
    }
    assert!(worst < 0.002, "worst trig error {worst}");
}

#[test]
fn trig_periodicity_is_exact() {
    for &a in &[0i64, 1, -1, 123_456, -987_654, 3_000_000] {
        assert_eq!(sin_fp(a), sin_fp(a + 3 * TWO_PI_FP));
        assert_eq!(cos_fp(a), cos_fp(a - 5 * TWO_PI_FP));
    }
}

#[test]
fn atan2_axes_are_exact() {
    assert_eq!(atan2_fp(0, 0), 0);
    assert_eq!(atan2_fp(0, 5), 0);
    assert_eq!(atan2_fp(0, -5), PI_FP);
    assert_eq!(atan2_fp(5, 0), HALF_PI_FP);
    assert_eq!(atan2_fp(-5, 0), -HALF_PI_FP);
}

#[test]
fn atan2_diagonal_and_range() {
    assert!((atan2_fp(1_000, 1_000) - QUARTER_PI_FP).abs() < 2_000);
    let vals = [-9i64, -1, 0, 1, 9, 1_000_000, -1_000_000];
    for &y in &vals {
        for &x in &vals {
            let a = atan2_fp(y, x);
            assert!(-PI_FP < a && a <= PI_FP, "atan2({y},{x}) = {a} out of range");
            let f = (y as f64).atan2(x as f64);
            if y != 0 || x != 0 {
                let mut d = (a as f64 / SCALE as f64 - f).abs();
                // both conventions may land on the cut at pi
                d = d.min((d - 2.0 * std::f64::consts::PI).abs());
                assert!(d < 0.005, "atan2({y},{x}) = {a} vs {f}");
            }
        }
    }
}
