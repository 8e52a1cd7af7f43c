use bspline::rat::Rat;
use bspline::spline::{BSpline, Point2, SplineError};

fn example_knots() -> Vec<Rat> {
    [0, 0, 0, 0, 1, 2, 3, 3, 3, 3].iter().map(|&v| Rat::from_int(v)).collect()
}

fn example_control_points() -> Vec<Point2> {
    vec![
        Point2::new(Rat::from_int(0), Rat::from_int(2)),
        Point2::new(Rat::new(1, 5), Rat::from_int(-1)),
        Point2::new(Rat::new(2, 5), Rat::from_int(1)),
        Point2::new(Rat::new(3, 5), Rat::from_int(-1)),
        Point2::new(Rat::new(4, 5), Rat::from_int(1)),
        Point2::new(Rat::from_int(1), Rat::from_int(2)),
    ]
}

fn example_spline() -> BSpline {
    BSpline::new(3, example_knots(), 100, example_control_points()).unwrap()
}

#[test]
fn construction_rejects_bad_control_point_count() {
    let mut cps = example_control_points();
    cps.pop();
    let r = BSpline::new(3, example_knots(), 100, cps);
    assert_eq!(r.unwrap_err(), SplineError::InvalidControlPointCount);
}

#[test]
fn construction_rejects_short_knot_vector() {
    // A knot vector shorter than degree + 1 admits no control-point
    // count at all, so it is structurally inconsistent.
    let knots = vec![Rat::from_int(0), Rat::from_int(1)];
    let r = BSpline::new(3, knots, 10, Vec::new());
    assert_eq!(r.unwrap_err(), SplineError::InvalidControlPointCount);
}

#[test]
fn construction_accepts_matching_count() {
    let s = example_spline();
    assert_eq!(s.degree(), 3);
    assert_eq!(s.num_samples(), 100);
    assert_eq!(s.num_control_points(), 6);
}

#[test]
fn construction_reports_overflow() {
    // Knot values whose exact difference cannot be represented in 64
    // bits even after reduction.
    let knots = vec![Rat::new(1, 2147483647), Rat::new(1, 2305843009213693951)];
    let cps = vec![Point2::new(Rat::from_int(0), Rat::from_int(0))];
    let r = BSpline::new(0, knots, 2, cps);
    assert_eq!(r.unwrap_err(), SplineError::ArithmeticOverflow);
}

#[test]
fn parameter_samples_span_the_domain_evenly() {
    let s = example_spline();
    assert!(s.t_value(0).eq_value(Rat::from_int(0)));
    assert!(s.t_value(33).eq_value(Rat::from_int(1)));
    assert!(s.t_value(99).eq_value(Rat::from_int(3)));
    // t_k = 3 k / 99 = k / 33 exactly.
    assert!(s.t_value(17).eq_value(Rat::new(17, 33)));
}

#[test]
fn generates_one_sequence_per_control_point() {
    let s = example_spline();
    let bases = s.generate_bases().unwrap();
    assert_eq!(bases.len(), 6);
    for row in &bases {
        assert_eq!(row.len(), 100);
    }
}

#[test]
fn basis_values_are_nonnegative() {
    let s = example_spline();
    let bases = s.generate_bases().unwrap();
    for row in &bases {
        for v in row {
            assert!(v.num() >= 0);
        }
    }
}

#[test]
fn basis_vanishes_outside_its_support() {
    let s = example_spline();
    let bases = s.generate_bases().unwrap();
    // Basis 0 lives on [knots[0], knots[4]) = [0, 1): zero from t = 1 on.
    for k in 33usize..100 {
        assert_eq!(bases[0][k].num(), 0);
    }
    // Basis 5 lives on [knots[5], knots[9]] = [2, 3]: zero before t = 2.
    for k in 0usize..66 {
        assert_eq!(bases[5][k].num(), 0);
    }
    // Basis 1 lives on [knots[1], knots[5]) = [0, 2): zero from t = 2 on.
    for k in 66usize..100 {
        assert_eq!(bases[1][k].num(), 0);
    }
}

#[test]
fn basis_peaks_inside_its_home_span() {
    let s = example_spline();
    let bases = s.generate_bases().unwrap();
    assert!(bases[0][0].eq_value(Rat::from_int(1)));
    assert!(bases[2][33].num() > 0);
    assert!(bases[3][50].num() > 0);
    // The final basis covers the right edge exactly.
    assert!(bases[5][99].eq_value(Rat::from_int(1)));
}

#[test]
fn partition_of_unity_at_samples() {
    let s = example_spline();
    let bases = s.generate_bases().unwrap();
    for &k in &[0usize, 1, 17, 33, 50, 66, 83, 98, 99] {
        let mut sum = Rat::from_int(0);
        for row in &bases {
            sum = sum.add(row[k]).unwrap();
        }
        assert!(sum.eq_value(Rat::from_int(1)), "sum at sample {} is {}/{}", k, sum.num(), sum.den());
    }
}

#[test]
fn right_edge_sample_is_covered() {
    let s = example_spline();
    let bases = s.generate_bases().unwrap();
    let mut sum = Rat::from_int(0);
    for row in &bases {
        sum = sum.add(row[99]).unwrap();
    }
    assert!(sum.eq_value(Rat::from_int(1)));
}

#[test]
fn curve_passes_through_end_control_points() {
    let s = example_spline();
    let (xs, ys) = s.interpolate().unwrap();
    assert_eq!(xs.len(), 100);
    assert_eq!(ys.len(), 100);
    assert!(xs[0].eq_value(Rat::from_int(0)));
    assert!(ys[0].eq_value(Rat::from_int(2)));
    assert!(xs[99].eq_value(Rat::from_int(1)));
    assert!(ys[99].eq_value(Rat::from_int(2)));
}

#[test]
fn repeated_evaluation_is_bit_identical() {
    let s = example_spline();
    let b1 = s.generate_bases().unwrap();
    let b2 = s.generate_bases().unwrap();
    assert_eq!(b1, b2);
    let c1 = s.interpolate().unwrap();
    let c2 = s.interpolate().unwrap();
    assert_eq!(c1, c2);
}

#[test]
fn degree_zero_spans_are_half_open_with_closed_right_edge() {
    let knots = vec![Rat::from_int(0), Rat::from_int(1), Rat::from_int(2)];
    let cps = vec![
        Point2::new(Rat::from_int(0), Rat::from_int(0)),
        Point2::new(Rat::from_int(1), Rat::from_int(1)),
    ];
    let s = BSpline::new(0, knots, 3, cps).unwrap();
    // At t = 0 only the first span is active.
    assert!(s.cox_de_boor(s.t_value(0), 0, 0).unwrap().eq_value(Rat::from_int(1)));
    assert!(s.cox_de_boor(s.t_value(0), 0, 1).unwrap().eq_value(Rat::from_int(0)));
    // At t = 1 the first half-open span has ended.
    assert!(s.cox_de_boor(s.t_value(1), 0, 0).unwrap().eq_value(Rat::from_int(0)));
    assert!(s.cox_de_boor(s.t_value(1), 0, 1).unwrap().eq_value(Rat::from_int(1)));
    // At t = 2 the closure rule keeps the last span active.
    assert!(s.cox_de_boor(s.t_value(2), 0, 1).unwrap().eq_value(Rat::from_int(1)));
}

#[test]
fn cubic_basis_value_is_exact() {
    let s = example_spline();
    // At t = 1/33 only the first four bases are active; their values are
    // cubic polynomials in t with exact rational values.
    let t = s.t_value(1);
    let v0 = s.cox_de_boor(t, 3, 0).unwrap();
    // Basis 0 on [0, 1) is (1 - t)^3: (32/33)^3 = 32768/35937.
    assert_eq!(v0.num(), 32768);
    assert_eq!(v0.den(), 35937);
}
