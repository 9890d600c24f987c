use simplex::rational::Rat;

fn r(n: i64) -> Rat {
    Rat::from_int(n)
}

fn q(n: i64, d: i64) -> Rat {
    Rat::new(n, d).unwrap()
}

#[test]
fn from_int_and_accessors() {
    let x = r(5);
    assert_eq!(x.numer(), 5);
    assert_eq!(x.denom(), 1);
    assert!(x.is_pos());
    assert!(!x.is_neg());
    assert!(!x.is_zero());
    assert!(!x.is_one());
    assert!(Rat::one().is_one());
    assert!(Rat::zero().is_zero());
}

#[test]
fn new_reduces_and_normalizes_sign() {
    let x = q(2, -4);
    assert_eq!(x.numer(), -1);
    assert_eq!(x.denom(), 2);
    let y = q(-6, -4);
    assert_eq!(y.numer(), 3);
    assert_eq!(y.denom(), 2);
    let z = q(0, 7);
    assert_eq!(z.numer(), 0);
    assert_eq!(z.denom(), 1);
}

#[test]
fn new_rejects_zero_denominator_and_extreme_magnitude() {
    assert!(Rat::new(1, 0).is_none());
    assert!(Rat::new(i64::MIN, 1).is_none());
    assert!(Rat::new(1, i64::MIN).is_none());
    assert!(Rat::new(i64::MAX, i64::MAX).is_some());
}

#[test]
fn add_sub_mul_div_exact_values() {
    let half = q(1, 2);
    let third = q(1, 3);
    let s = half.checked_add(&third).unwrap();
    assert_eq!((s.numer(), s.denom()), (5, 6));
    let d = half.checked_sub(&third).unwrap();
    assert_eq!((d.numer(), d.denom()), (1, 6));
    let p = q(2, 3).checked_mul(&q(3, 4)).unwrap();
    assert_eq!((p.numer(), p.denom()), (1, 2));
    let v = half.checked_div(&q(3, 4)).unwrap();
    assert_eq!((v.numer(), v.denom()), (2, 3));
}

#[test]
fn div_by_negative_normalizes_sign() {
    let v = q(1, 2).checked_div(&q(-1, 4)).unwrap();
    assert_eq!((v.numer(), v.denom()), (-2, 1));
}

#[test]
fn neg_is_exact() {
    let x = q(-3, 7).neg();
    assert_eq!((x.numer(), x.denom()), (3, 7));
}

#[test]
fn overflow_is_reported_not_silently_wrapped() {
    let big = r(i64::MAX);
    assert!(big.checked_add(&big).is_none());
    assert!(big.checked_mul(&big).is_none());
    assert!(big.checked_sub(&r(-2)).is_none());
    // A quotient whose numerator would be MAX * 2 cannot be represented.
    assert!(big.checked_div(&q(1, 2)).is_none());
    // The same magnitudes are fine when the result reduces.
    assert!(big.checked_sub(&big).unwrap().is_zero());
}

#[test]
fn comparisons_are_exact() {
    assert!(q(1, 2).lt(&q(2, 3)));
    assert!(q(1, 2).le(&q(1, 2)));
    assert!(!q(2, 3).lt(&q(1, 2)));
    assert!(q(-1, 2).lt(&Rat::zero()));
    assert!(q(1, 2).eq_val(&q(3, 6)));
    assert!(!q(1, 2).eq_val(&q(1, 3)));
}
