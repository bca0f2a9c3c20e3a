use calculus::double::{equal_to, has_sign_change, is_within, less_than, sign_of, Sign};
use calculus::root::{
    bissec_root, bissec_root_many, merge_roots, newton_root, Bracketing, MAX_BISECTIONS,
    MAX_NEWTON_STEPS,
};

fn bits(x: f64) -> u64 {
    x.to_bits()
}

fn value_of(b: u64) -> f64 {
    f64::from_bits(b)
}

fn on_bits(fx: fn(f64) -> f64) -> impl Fn(u64) -> u64 {
    move |b: u64| fx(value_of(b)).to_bits()
}

fn midpoint(a: u64, b: u64) -> u64 {
    ((value_of(a) + value_of(b)) / 2.0).to_bits()
}

// central differences with a step that starts at 1 and is halved 20 times
fn derivative(fx: fn(f64) -> f64, x: f64) -> f64 {
    let mut h = 1.0;
    let mut estimate = 0.0;
    for _ in 0..20 {
        estimate = (fx(x + h) - fx(x - h)) / (2.0 * h);
        h /= 2.0;
    }
    estimate
}

fn newton_step(fx: fn(f64) -> f64) -> impl Fn(u64) -> u64 {
    move |b: u64| {
        let x = value_of(b);
        (x - fx(x) / derivative(fx, x)).to_bits()
    }
}

fn grid(xmin: f64, xmax: f64, n: u64) -> impl Fn(u64) -> u64 {
    let delx = (xmax - xmin) / n as f64;
    move |i: u64| (xmin + i as f64 * delx).to_bits()
}

fn quadratic(x: f64) -> f64 {
    x.powf(2.0) + x - 6.0
}

fn cubic(x: f64) -> f64 {
    (x.powf(3.0)) + (-6.0 * x.powf(2.0)) + (11.0 * x) - 6.0
}

fn identity(x: f64) -> f64 {
    x
}

fn bisect(fx: fn(f64) -> f64, xmin: f64, xmax: f64, precision: f64) -> Bracketing {
    bissec_root(&on_bits(fx), &midpoint, bits(xmin), bits(xmax), bits(precision), MAX_BISECTIONS)
}

fn newton(fx: fn(f64) -> f64, xo: f64, precision: f64) -> Option<f64> {
    newton_root(&on_bits(fx), &newton_step(fx), bits(xo), bits(precision), MAX_NEWTON_STEPS)
        .map(value_of)
}

fn scan(fx: fn(f64) -> f64, xmin: f64, xmax: f64, n: u64, precision: f64) -> Option<Vec<f64>> {
    bissec_root_many(
        &on_bits(fx),
        &midpoint,
        &grid(xmin, xmax, n),
        n,
        bits(precision),
        MAX_BISECTIONS,
    )
    .map(|roots| roots.into_iter().map(value_of).collect())
}

#[test]
fn test_newton_root() {
    let tests: Vec<(fn(f64) -> f64, f64, f64)> = vec![
        (quadratic, 1.0, 2.0),
        (quadratic, -2.0, -3.0),
        (cubic, 0.5, 1.0),
        (cubic, 2.2, 2.0),
        (cubic, 4.0, 3.0),
    ];
    let precision = 1.0e-12;
    for (fx, xo, expect) in tests {
        let root = newton(fx, xo, precision).unwrap();
        assert!((root - expect).abs() < precision);
    }
}

#[test]
fn test_bissec_root() {
    let tests: Vec<(fn(f64) -> f64, f64, f64, f64)> = vec![
        (quadratic, 0.0, 4.0, 2.0),
        (quadratic, -5.0, -1.0, -3.0),
        (cubic, 0.5, 1.5, 1.0),
        (cubic, 1.5, 2.5, 2.0),
        (cubic, 2.5, 3.5, 3.0),
    ];
    let precision = 1.0e-20;
    for (fx, xmin, xmax, expect) in tests {
        let root = match bisect(fx, xmin, xmax, precision) {
            Bracketing::Root(r) => value_of(r),
            other => panic!("no root: {:?}", other),
        };
        assert!((root - expect).abs() < precision);
    }
}

#[test]
fn bisection_residual_within_precision() {
    let precision = 1.0e-12;
    for (fx, xmin, xmax) in [
        (quadratic as fn(f64) -> f64, 0.3, 4.1),
        (quadratic, -5.2, -1.1),
        (cubic, 0.7, 1.6),
        (cubic, 2.6, 3.3),
    ] {
        match bisect(fx, xmin, xmax, precision) {
            Bracketing::Root(r) => assert!(fx(value_of(r)).abs() <= precision),
            other => panic!("no root: {:?}", other),
        }
    }
}

#[test]
fn bisection_without_sign_change_finds_nothing() {
    assert_eq!(bisect(identity, 5.0, 10.0, 1.0e-16), Bracketing::NoSignChange);
}

#[test]
fn bisection_zero_at_an_end_is_the_root() {
    assert_eq!(bisect(quadratic, 2.0, 7.0, 1.0e-16), Bracketing::Root(bits(2.0)));
    assert_eq!(bisect(quadratic, 0.0, 2.0, 1.0e-16), Bracketing::Root(bits(2.0)));
}

#[test]
fn bisection_out_of_steps_does_not_converge() {
    let r = bissec_root(&on_bits(identity), &midpoint, bits(-1.0), bits(2.0), bits(0.0), 0);
    assert_eq!(r, Bracketing::NotConverged);
}

#[test]
fn bisection_is_repeatable() {
    let first = bisect(cubic, 0.7, 1.6, 1.0e-12);
    let second = bisect(cubic, 0.7, 1.6, 1.0e-12);
    assert_eq!(first, second);
}

#[test]
fn newton_without_root_does_not_converge() {
    fn no_root(x: f64) -> f64 {
        x * x + 1.0
    }
    assert_eq!(newton(no_root, 3.0, 1.0e-12), None);
}

#[test]
fn scan_finds_three_roots_of_cubic() {
    let roots = scan(cubic, 0.0, 4.0, 4, 1.0e-12).unwrap();
    assert_eq!(roots.len(), 3);
    for (root, expect) in roots.iter().zip([1.0, 2.0, 3.0]) {
        assert!((root - expect).abs() <= 1.0e-12);
    }
}

#[test]
fn scan_of_quadratic_is_ascending_and_near_roots() {
    let roots = scan(quadratic, -5.0, 4.0, 10, 1.0e-12).unwrap();
    assert_eq!(roots.len(), 2);
    assert!(roots[0] < roots[1]);
    assert!((roots[0] + 3.0).abs() < 1.0e-9);
    assert!((roots[1] - 2.0).abs() < 1.0e-9);
}

#[test]
fn scan_without_intervals_finds_nothing() {
    assert_eq!(scan(cubic, 0.0, 4.0, 0, 1.0e-12), Some(Vec::new()));
    assert!(merge_roots(&Vec::new()).is_empty());
}

#[test]
fn scan_fails_when_a_sub_interval_does_not_converge() {
    fn square_minus_two(x: f64) -> f64 {
        x * x - 2.0
    }
    // no double has a square of exactly 2, so a precision of zero is never met
    assert_eq!(scan(square_minus_two, 0.0, 2.0, 1, 0.0), None);
    assert_eq!(scan(square_minus_two, -2.0, 2.0, 2, 0.0), None);
    assert!(scan(square_minus_two, -2.0, 2.0, 2, 1.0e-12).is_some());
}

#[test]
fn merge_sorts_and_drops_duplicates_and_nan() {
    let found = vec![bits(3.0), bits(1.0), bits(f64::NAN), bits(1.0), bits(-0.0), bits(0.0), bits(2.0)];
    let merged = merge_roots(&found);
    assert_eq!(merged, vec![bits(-0.0), bits(1.0), bits(2.0), bits(3.0)]);
}

#[test]
fn sign_change_needs_opposite_nonzero_signs() {
    assert!(has_sign_change(bits(-2.0), bits(3.0)));
    assert!(has_sign_change(bits(2.0), bits(-3.0)));
    assert!(!has_sign_change(bits(2.0), bits(3.0)));
    assert!(!has_sign_change(bits(0.0), bits(-3.0)));
    assert!(!has_sign_change(bits(-2.0), bits(-0.0)));
    assert!(!has_sign_change(bits(4.0), bits(4.0)));
    assert!(!has_sign_change(bits(f64::NAN), bits(-1.0)));
}

#[test]
fn double_order_and_sign() {
    assert_eq!(sign_of(bits(-1.5)), Sign::Negative);
    assert_eq!(sign_of(bits(-0.0)), Sign::Zero);
    assert_eq!(sign_of(bits(7.0)), Sign::Positive);
    assert_eq!(sign_of(bits(f64::NAN)), Sign::Undefined);
    assert!(less_than(bits(-2.0), bits(-1.0)));
    assert!(less_than(bits(-1.0), bits(0.5)));
    assert!(!less_than(bits(-0.0), bits(0.0)));
    assert!(!less_than(bits(f64::NAN), bits(1.0)));
    assert!(equal_to(bits(-0.0), bits(0.0)));
    assert!(!equal_to(bits(f64::NAN), bits(f64::NAN)));
    assert!(is_within(bits(-1.0e-13), bits(1.0e-12)));
    assert!(!is_within(bits(2.0e-12), bits(1.0e-12)));
}
