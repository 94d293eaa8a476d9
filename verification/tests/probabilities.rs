//! The exact probability type: construction, reduction and checked
//! arithmetic.

use bayesian_network::Prob;

#[test]
fn new_reduces_to_lowest_terms() {
    let p = Prob::new(2, 4).unwrap();
    assert_eq!((p.num(), p.den()), (1, 2));
    let q = Prob::new(0, 7).unwrap();
    assert_eq!((q.num(), q.den()), (0, 1));
    let r = Prob::new(30, 12).unwrap();
    assert_eq!((r.num(), r.den()), (5, 2));
}

#[test]
fn new_rejects_zero_denominator() {
    assert!(Prob::new(1, 0).is_none());
}

#[test]
fn new_rejects_out_of_bounds_parts() {
    // u64::MAX does not fit the bounded representation and shares no
    // divisor with the denominator.
    assert!(Prob::new(u64::MAX, 1).is_none());
    assert!(Prob::new(1, u64::MAX).is_none());
    // After reduction the same magnitude fits.
    let p = Prob::new(u64::MAX, u64::MAX).unwrap();
    assert_eq!((p.num(), p.den()), (1, 1));
}

#[test]
fn checked_arithmetic_is_exact() {
    let third = Prob::new(1, 3).unwrap();
    let half = Prob::new(1, 2).unwrap();
    let product = third.checked_mul(half).unwrap();
    assert_eq!((product.num(), product.den()), (1, 6));
    let sum = third.checked_add(half).unwrap();
    assert_eq!((sum.num(), sum.den()), (5, 6));
    let quotient = third.checked_div(half).unwrap();
    assert_eq!((quotient.num(), quotient.den()), (2, 3));
}

#[test]
fn checked_arithmetic_reports_overflow() {
    let a = Prob::new(1, (1 << 62) - 1).unwrap();
    let b = Prob::new(1, 1 << 62).unwrap();
    assert!(a.checked_mul(b).is_none());
    assert!(a.checked_add(b).is_none());
}

#[test]
fn zero_and_one_constants() {
    assert_eq!((Prob::zero().num(), Prob::zero().den()), (0, 1));
    assert_eq!((Prob::one().num(), Prob::one().den()), (1, 1));
    assert!(Prob::zero().is_zero());
    assert!(!Prob::one().is_zero());
}
