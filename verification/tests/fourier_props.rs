use epicycles::fixed::{PI_FP, SCALE};
use epicycles::fourier::{calc_coefficient, fourier_coefficients, Complex, FourierError};
use num_complex::Complex64;

fn micro(units: f64) -> i64 {
    (units * SCALE as f64).round() as i64
}

fn diamond() -> Vec<Complex> {
    vec![
        Complex { re: micro(4.0), im: 0 },
        Complex { re: 0, im: micro(4.0) },
        Complex { re: micro(-4.0), im: 0 },
        Complex { re: 0, im: micro(-4.0) },
    ]
}

#[test]
fn empty_path_is_invalid_input() {
    let r = fourier_coefficients(&Vec::new(), &vec![0, 1, 2]);
    assert_eq!(r, Err(FourierError::InvalidInput));
}

#[test]
fn constant_path_mean_is_exact() {
    let points = vec![Complex { re: 3_000_000, im: 0 }; 4];
    let c = calc_coefficient(0, &points);
    assert_eq!(c, Complex { re: 3_000_000, im: 0 });
    let terms = fourier_coefficients(&points, &vec![0, 1, -1]).unwrap();
    assert_eq!(terms.len(), 3);
    assert_eq!(terms[0].speed, 0);
    assert_eq!(terms[0].radius, 3_000_000);
    assert_eq!(terms[0].phase, 0);
    // away from the mean frequency the coefficient nearly vanishes
    assert!(terms[1].radius < 5_000);
    assert!(terms[2].radius < 5_000);
}

#[test]
fn magnitude_nonnegative_phase_in_range() {
    let points = diamond();
    let freqs: Vec<i32> = (-150..150).collect();
    let terms = fourier_coefficients(&points, &freqs).unwrap();
    assert_eq!(terms.len(), 300);
    for (t, &k) in terms.iter().zip(freqs.iter()) {
        assert_eq!(t.speed, k);
        assert!(t.radius >= 0);
        assert!(-PI_FP < t.phase && t.phase <= PI_FP);
    }
}

#[test]
fn zero_coefficient_has_zero_phase() {
    let points = vec![
        Complex { re: 5_000_000, im: 0 },
        Complex { re: -5_000_000, im: 0 },
    ];
    let terms = fourier_coefficients(&points, &vec![0]).unwrap();
    assert_eq!(terms[0].radius, 0);
    assert_eq!(terms[0].phase, 0);
}

#[test]
fn aliased_frequencies_agree() {
    let points = diamond();
    let terms = fourier_coefficients(&points, &vec![2, 150, -150]).unwrap();
    // 150 = 2 + 37 * 4, so both see the same angles on four samples
    assert_eq!(terms[0].radius, terms[1].radius);
    assert_eq!(terms[0].phase, terms[1].phase);
    // -150 = 2 - 38 * 4 as well
    assert_eq!(terms[0].radius, terms[2].radius);
    assert_eq!(terms[0].phase, terms[2].phase);
}

#[test]
fn coefficients_match_float_reference() {
    let points = vec![
        Complex { re: micro(3.5), im: micro(-1.25) },
        Complex { re: micro(0.5), im: micro(2.0) },
        Complex { re: micro(-2.75), im: micro(1.5) },
        Complex { re: micro(-1.0), im: micro(-3.0) },
        Complex { re: micro(2.0), im: micro(0.25) },
    ];
    let n = points.len();
    for k in -6i32..=6 {
        let c = calc_coefficient(k, &points);
        let mut acc = Complex64::new(0.0, 0.0);
        for (j, p) in points.iter().enumerate() {
            let z = Complex64::new(p.re as f64 / SCALE as f64, p.im as f64 / SCALE as f64);
            let ang = -2.0 * std::f64::consts::PI * (k as f64) * (j as f64) / (n as f64);
            acc += z * Complex64::new(0.0, ang).exp();
        }
        acc /= n as f64;
        assert!((c.re as f64 / SCALE as f64 - acc.re).abs() < 0.01, "k={k}");
        assert!((c.im as f64 / SCALE as f64 - acc.im).abs() < 0.01, "k={k}");
    }
}

#[test]
fn round_trip_reconstructs_samples() {
    let points = diamond();
    let n = points.len();
    let freqs: Vec<i32> = vec![-2, -1, 0, 1];
    let terms = fourier_coefficients(&points, &freqs).unwrap();
    for (j, p) in points.iter().enumerate() {
        let mut x = 0.0f64;
        let mut y = 0.0f64;
        for t in &terms {
            let r = t.radius as f64 / SCALE as f64;
            let phi = t.phase as f64 / SCALE as f64;
            let ang = 2.0 * std::f64::consts::PI * (t.speed as f64) * (j as f64) / (n as f64);
            x += r * (ang + phi).cos();
            y += r * (ang + phi).sin();
        }
        assert!((x - p.re as f64 / SCALE as f64).abs() < 0.1, "sample {j}: {x}");
        assert!((y - p.im as f64 / SCALE as f64).abs() < 0.1, "sample {j}: {y}");
    }
}
