use cornu::integration::integrate;
use cornu::spiral::spiral;

fn distance(acc: i64, t0: i64, t1: i64) -> i64 {
    acc + (t1 - t0)
}

#[test]
fn integrate_one_record_per_target() {
    let targets = vec![2, 5, 9];
    let r = integrate(100i64, 0, &targets, distance);
    assert_eq!(r, vec![(102, 2), (105, 5), (109, 9)]);
}

#[test]
fn integrate_uses_previous_point() {
    let targets = vec![1, 3, 6];
    let r = integrate(0i64, 0, &targets, |s: i64, a: i64, b: i64| {
        s * 10 + (b - a)
    });
    assert_eq!(r, vec![(1, 1), (12, 3), (123, 6)]);
}

#[test]
fn integrate_tolerates_zero_length_step() {
    let targets = vec![0, 4];
    let r = integrate(7i64, 0, &targets, distance);
    assert_eq!(r, vec![(7, 0), (11, 4)]);
}

#[test]
fn integrate_no_targets() {
    let r = integrate(7i64, 0, &Vec::new(), distance);
    assert!(r.is_empty());
}

#[test]
fn spiral_keeps_every_nth_record() {
    let r = spiral(0i64, 0, 10, 1, 3, distance);
    assert_eq!(r, vec![(1, 1), (4, 4), (7, 7)]);
}

#[test]
fn spiral_skips_first_sample_and_keeps_all() {
    let r = spiral(0i64, 20, 30, 2, 1, distance);
    assert_eq!(r, vec![(22, 2), (24, 4), (26, 6), (28, 8)]);
}

#[test]
fn spiral_inverted_bounds_is_empty() {
    let r = spiral(0i64, 5, 1, 1, 1000, distance);
    assert!(r.is_empty());
}

#[test]
fn spiral_single_sample_is_empty() {
    let r = spiral(0i64, 0, 1, 1, 1, distance);
    assert!(r.is_empty());
}

#[test]
fn spiral_decimation_count() {
    let span: i64 = 2_000_000;
    let r = spiral(0i64, 0, span, 1, 1000, distance);
    let approx = (span / 1000) as usize;
    assert!(r.len() + 1 >= approx && r.len() <= approx + 1);
    assert_eq!(r.len(), 2000);
    assert_eq!(r[1999], (1_999_001, 1_999_001));
}

#[test]
fn spiral_sample_points_increase() {
    let r = spiral(0i64, -50, 5000, 3, 7, distance);
    assert!(!r.is_empty());
    for w in r.windows(2) {
        assert!(w[1].0 > w[0].0);
        assert_eq!(w[1].0 - w[0].0, 21);
    }
}

type Heading = (f64, f64, f64);

const DT: f64 = 0.001;

fn rk4(curvature: f64) -> impl Fn(Heading, i64, i64) -> Heading {
    move |s: Heading, t0: i64, t1: i64| {
        let h = (t1 - t0) as f64 * DT;
        let rate = |a: f64| (curvature, a.cos(), a.sin());
        let k1 = rate(s.0);
        let k2 = rate(s.0 + 0.5 * h * k1.0);
        let k3 = rate(s.0 + 0.5 * h * k2.0);
        let k4 = rate(s.0 + h * k3.0);
        (
            s.0 + h / 6.0 * (k1.0 + 2.0 * k2.0 + 2.0 * k3.0 + k4.0),
            s.1 + h / 6.0 * (k1.1 + 2.0 * k2.1 + 2.0 * k3.1 + k4.1),
            s.2 + h / 6.0 * (k1.2 + 2.0 * k2.2 + 2.0 * k3.2 + k4.2),
        )
    }
}

#[test]
fn spiral_zero_curvature_is_straight_line() {
    let a0 = 0.7f64;
    let r = spiral((a0, 0.0, 0.0), 0, 3000, 1, 100, rk4(0.0));
    assert_eq!(r.len(), 30);
    for (t, (_, x, y)) in r {
        let s = t as f64 * DT;
        assert!((x - s * a0.cos()).abs() < 1e-4);
        assert!((y - s * a0.sin()).abs() < 1e-4);
    }
}

#[test]
fn spiral_constant_curvature_is_circle() {
    let k = 0.5f64;
    let r = spiral((0.0, 0.0, 0.0), 0, 8000, 1, 250, rk4(k));
    assert_eq!(r.len(), 32);
    for (_, (_, x, y)) in r {
        let radius = 1.0 / k;
        let err = x * x + (y - radius) * (y - radius) - radius * radius;
        assert!(err.abs() < 1e-6);
    }
}

#[test]
fn spiral_is_deterministic() {
    let first = spiral((0.3, 0.0, 0.0), 0, 5000, 1, 100, rk4(1.5));
    let second = spiral((0.3, 0.0, 0.0), 0, 5000, 1, 100, rk4(1.5));
    assert_eq!(first.len(), second.len());
    for (p, q) in first.iter().zip(second.iter()) {
        assert_eq!(p.0, q.0);
        assert_eq!((p.1).1.to_bits(), (q.1).1.to_bits());
        assert_eq!((p.1).2.to_bits(), (q.1).2.to_bits());
    }
}
