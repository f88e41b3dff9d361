use fio::Rat;

#[test]
fn new_reduces_to_lowest_terms() {
    let r = Rat::new(2, 4).unwrap();
    assert_eq!(r.numerator(), 1);
    assert_eq!(r.denominator(), 2);
}

#[test]
fn new_rejects_zero_denominator() {
    assert!(Rat::new(1, 0).is_none());
}

#[test]
fn new_normalizes_negative_denominator() {
    let a = Rat::new(1, -2).unwrap();
    let b = Rat::new(-1, 2).unwrap();
    assert!(a.equals(&b));
    assert!(a.denominator() > 0);
}

#[test]
fn addition_is_exact() {
    let a = Rat::new(1, 2).unwrap();
    let b = Rat::new(1, 3).unwrap();
    let s = a.checked_add(&b).unwrap();
    assert!(s.equals(&Rat::new(5, 6).unwrap()));
}

#[test]
fn subtraction_is_exact() {
    let a = Rat::new(1, 2).unwrap();
    let b = Rat::new(1, 3).unwrap();
    let d = a.checked_sub(&b).unwrap();
    assert!(d.equals(&Rat::new(1, 6).unwrap()));
}

#[test]
fn multiplication_is_exact() {
    let a = Rat::new(3, 4).unwrap();
    let b = Rat::new(2, 9).unwrap();
    let p = a.checked_mul(&b).unwrap();
    assert!(p.equals(&Rat::new(1, 6).unwrap()));
}

#[test]
fn division_is_exact_and_rejects_zero() {
    let a = Rat::new(3, 4).unwrap();
    let b = Rat::new(3, 2).unwrap();
    let q = a.checked_div(&b).unwrap();
    assert!(q.equals(&Rat::new(1, 2).unwrap()));
    assert!(a.checked_div(&Rat::zero()).is_none());
}

#[test]
fn order_and_sign_predicates() {
    let a = Rat::new(-1, 3).unwrap();
    let b = Rat::new(1, 4).unwrap();
    assert!(a.le(&b));
    assert!(!b.le(&a));
    assert!(!a.is_nonneg());
    assert!(b.is_nonneg());
    assert!(Rat::zero().is_zero());
    assert!(!Rat::one().is_zero());
}

#[test]
fn negation_flips_sign() {
    let a = Rat::new(5, 7).unwrap();
    let n = a.neg();
    assert_eq!(n.numerator(), -5);
    assert_eq!(n.denominator(), 7);
    assert!(n.checked_add(&a).unwrap().is_zero());
}

#[test]
fn overflow_is_reported_not_rounded() {
    let big = Rat::new(i64::MAX, 1).unwrap();
    assert!(big.checked_mul(&big).is_none());
    assert!(big.checked_add(&Rat::zero()).is_some());
    assert!(big.checked_add(&Rat::new(1, 3).unwrap()).is_none());
}
