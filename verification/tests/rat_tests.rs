use bspline::rat::Rat;

#[test]
fn add_reduces_to_lowest_terms() {
    let r = Rat::new(1, 2).add(Rat::new(1, 3)).unwrap();
    assert_eq!(r.num(), 5);
    assert_eq!(r.den(), 6);
}

#[test]
fn sub_can_be_negative() {
    let r = Rat::new(1, 2).sub(Rat::new(2, 3)).unwrap();
    assert_eq!(r.num(), -1);
    assert_eq!(r.den(), 6);
}

#[test]
fn mul_reduces_to_lowest_terms() {
    let r = Rat::new(2, 3).mul(Rat::new(3, 4)).unwrap();
    assert_eq!(r.num(), 1);
    assert_eq!(r.den(), 2);
}

#[test]
fn div_by_negative_keeps_denominator_positive() {
    let r = Rat::new(1, 2).div(Rat::new(-1, 3)).unwrap();
    assert_eq!(r.num(), -3);
    assert_eq!(r.den(), 2);
}

#[test]
fn eq_value_sees_through_representations() {
    assert!(Rat::new(2, 4).eq_value(Rat::new(1, 2)));
    assert!(!Rat::new(2, 4).eq_value(Rat::new(2, 3)));
}

#[test]
fn comparisons_follow_the_values() {
    assert!(Rat::new(1, 3).lt_value(Rat::new(1, 2)));
    assert!(Rat::new(2, 4).le_value(Rat::new(1, 2)));
    assert!(!Rat::new(1, 2).lt_value(Rat::new(1, 2)));
}

#[test]
fn add_overflow_returns_none() {
    // Two prime denominators whose product leaves the 64-bit range, so
    // the sum cannot be reduced into range.
    let a = Rat::new(1, 2147483647);
    let b = Rat::new(1, 2305843009213693951);
    assert!(a.add(b).is_none());
}

#[test]
fn zero_reduces_to_canonical_form() {
    let r = Rat::new(0, 7).mul(Rat::new(3, 5)).unwrap();
    assert_eq!(r.num(), 0);
    assert_eq!(r.den(), 1);
}
