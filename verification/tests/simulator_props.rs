use epicycles::fixed::{HALF_PI_FP, SCALE};
use epicycles::fourier::{FourierCircle, FourierError};
use epicycles::simulator::Simulator;

fn term(speed: i32, radius_units: i64, phase: i64) -> FourierCircle {
    FourierCircle { speed, radius: radius_units * SCALE, phase }
}

#[test]
fn too_few_terms_are_refused() {
    assert!(matches!(
        Simulator::build(&Vec::new(), SCALE),
        Err(FourierError::InsufficientTerms)
    ));
    assert!(matches!(
        Simulator::build(&vec![term(0, 5, 0)], SCALE),
        Err(FourierError::InsufficientTerms)
    ));
    // two terms leave a single survivor after the dominant one is
    // discarded: not enough for a circle and a tip
    assert!(matches!(
        Simulator::build(&vec![term(0, 5, 0), term(1, 1, 0)], SCALE),
        Err(FourierError::InsufficientTerms)
    ));
    // the count is checked before the frequencies
    assert!(matches!(
        Simulator::build(&vec![term(7, 1, 0), term(7, 2, 0)], SCALE),
        Err(FourierError::InsufficientTerms)
    ));
}

#[test]
fn duplicate_frequency_is_refused() {
    let terms = vec![term(0, 5, 0), term(1, 3, 0), term(1, 1, 0)];
    assert!(matches!(
        Simulator::build(&terms, SCALE),
        Err(FourierError::DuplicateFrequency)
    ));
    let shared = vec![term(7, 1, 0), term(7, 2, 0), term(2, 3, 0)];
    assert!(matches!(
        Simulator::build(&shared, SCALE),
        Err(FourierError::DuplicateFrequency)
    ));
}

#[test]
fn dominant_term_is_removed() {
    let terms = vec![term(0, 5, 0), term(1, 3, 0), term(-1, 1, 0)];
    let sim = Simulator::build(&terms, SCALE).unwrap();
    assert_eq!(sim.circles.len(), 2);
    assert_eq!(sim.circles[0].speed, 1);
    assert_eq!(sim.circles[0].radius, 3 * SCALE);
    assert_eq!(sim.circles[1].speed, -1);
    assert_eq!(sim.circles[1].radius, SCALE);
    assert_eq!(sim.last(), (-1, 0, 0));
}

#[test]
fn build_scales_radii() {
    let terms = vec![term(0, 9, 0), term(1, 4, 0), term(2, 2, 0)];
    let sim = Simulator::build(&terms, SCALE / 2).unwrap();
    assert_eq!(sim.circles[0].radius, 2 * SCALE);
    assert_eq!(sim.circles[1].radius, SCALE);
}

#[test]
fn stable_sort_keeps_equal_magnitudes_in_order() {
    let terms = vec![term(0, 9, 0), term(3, 2, 10), term(4, 2, 20), term(5, 2, 30)];
    let sim = Simulator::build(&terms, SCALE).unwrap();
    let speeds: Vec<i32> = sim.circles.iter().map(|c| c.speed).collect();
    assert_eq!(speeds, vec![3, 4, 5]);
}

#[test]
fn chain_geometry_after_zero_tick() {
    let terms = vec![term(0, 99, 0), term(1, 10, 0), term(2, 4, 0)];
    let mut sim = Simulator::build(&terms, SCALE).unwrap();
    sim.advance(0);
    let pos = sim.positions();
    assert_eq!(pos[0], (1, 0, 0));
    assert_eq!(pos[1], (2, 10 * SCALE, 0));
}

#[test]
fn phase_decreases_by_frequency_times_delta() {
    let terms = vec![term(0, 5, 0), term(1, 1, 0), term(2, 1, 0)];
    let mut sim = Simulator::build(&terms, SCALE).unwrap();
    sim.advance(HALF_PI_FP);
    assert_eq!(sim.circles[0].speed, 1);
    assert_eq!(sim.circles[0].phase, -HALF_PI_FP);
    // a second tick accumulates, scaled by the frequency
    sim.advance(HALF_PI_FP);
    assert_eq!(sim.circles[0].phase, -2 * HALF_PI_FP);
}

#[test]
fn negative_frequency_turns_the_other_way() {
    let terms = vec![term(0, 5, 0), term(-3, 1, 0), term(2, 1, 1)];
    let mut sim = Simulator::build(&terms, SCALE).unwrap();
    sim.advance(1000);
    for c in sim.circles.iter() {
        if c.speed == -3 {
            assert_eq!(c.phase, 3000);
        }
        if c.speed == 2 {
            assert_eq!(c.phase, 1 - 2000);
        }
    }
}

#[test]
fn zero_delta_is_idempotent() {
    let terms = vec![term(0, 99, 0), term(1, 10, 500_000), term(2, 4, -250_000)];
    let mut sim = Simulator::build(&terms, SCALE).unwrap();
    sim.advance(0);
    let pos = sim.positions();
    let circles = sim.circles.clone();
    for _ in 0..5 {
        sim.advance(0);
        assert_eq!(sim.positions(), pos);
        assert_eq!(sim.circles, circles);
    }
}

#[test]
fn previous_tip_position_lags_one_tick() {
    let terms = vec![term(0, 99, 0), term(1, 10, 0), term(2, 4, 0)];
    let mut sim = Simulator::build(&terms, SCALE).unwrap();
    assert_eq!(sim.last(), (2, 0, 0));
    sim.advance(0);
    // the tip had not moved yet when the tick began
    assert_eq!(sim.last(), (2, 0, 0));
    sim.advance(0);
    // now it reports where the tip stood after the first tick
    assert_eq!(sim.last(), (2, 10 * SCALE, 0));
}

#[test]
fn try_advance_matches_advance_and_guards_overflow() {
    let terms = vec![term(0, 9, 0), term(1, 4, 0), term(2, 2, 0)];
    let mut a = Simulator::build(&terms, SCALE).unwrap();
    let mut b = Simulator::build(&terms, SCALE).unwrap();
    a.advance(12_345);
    assert!(b.try_advance(12_345));
    assert_eq!(a.positions(), b.positions());
    assert_eq!(a.circles, b.circles);
    // a tick so large that a phase would leave the machine range is refused
    let before = b.circles.clone();
    assert!(!b.try_advance(i64::MAX / 2 + 1));
    assert_eq!(b.circles, before);
}
