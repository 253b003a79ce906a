use num_bigint::BigUint;
use num_rational::Ratio;
use yatzy::{ExpectedValue, Value};

fn ratio(n: u64, d: u64) -> Ratio<BigUint> {
    Ratio::new(BigUint::from(n), BigUint::from(d))
}

fn value(n: u16, d: u16) -> ExpectedValue {
    ExpectedValue::ratio(n, d).unwrap()
}

#[test]
fn whole_numbers() {
    assert_eq!(ExpectedValue::from_u8(50).into_ratio(), ratio(50, 1));
    assert_eq!(ExpectedValue::from_u16(375).into_ratio(), ratio(375, 1));
    assert_eq!(ExpectedValue::zero().into_ratio(), ratio(0, 1));
}

#[test]
fn fractions_come_in_lowest_terms() {
    let v = value(10, 36).into_ratio();
    assert_eq!(v, ratio(5, 18));
    assert_eq!(v.numer(), &BigUint::from(5u8));
    assert_eq!(v.denom(), &BigUint::from(18u8));
}

#[test]
fn no_fraction_over_zero() {
    assert!(ExpectedValue::ratio(1, 0).is_none());
    assert!(ExpectedValue::ratio(0, 0).is_none());
    assert!(ExpectedValue::from_ratio(Ratio::new_raw(BigUint::from(1u8), BigUint::from(0u8))).is_none());
}

#[test]
fn a_ratio_goes_in_and_out() {
    let big = Ratio::new(
        BigUint::parse_bytes(b"1167963082189405", 10).unwrap(),
        BigUint::parse_bytes(b"42845606719488", 10).unwrap(),
    );
    let v = ExpectedValue::from_ratio(big.clone()).unwrap();
    assert_eq!(v.into_ratio(), big);
}

#[test]
fn plus_adds() {
    assert_eq!(value(1, 6).plus(&value(1, 3)).into_ratio(), ratio(1, 2));
    assert_eq!(value(5, 1).plus(&ExpectedValue::zero()).into_ratio(), ratio(5, 1));
}

#[test]
fn times_multiplies() {
    assert_eq!(value(2, 3).times(&value(3, 4)).into_ratio(), ratio(1, 2));
    assert_eq!(value(1, 7776).times(&ExpectedValue::from_u8(50)).into_ratio(), ratio(25, 3888));
    assert_eq!(value(7, 2).times(&ExpectedValue::zero()).into_ratio(), ratio(0, 1));
}

#[test]
fn less_than_orders() {
    assert!(value(1, 3).less_than(&value(1, 2)));
    assert!(!value(1, 2).less_than(&value(1, 3)));
    assert!(!value(2, 4).less_than(&value(1, 2)));
    assert!(value(0, 5).less_than(&value(1, 1000)));
}

#[test]
fn same_as_compares_numbers() {
    assert!(value(2, 4).same_as(&value(1, 2)));
    assert!(!value(2, 4).same_as(&value(1, 3)));
    assert!(ExpectedValue::from_u8(3).same_as(&ExpectedValue::from_u16(3)));
}

#[test]
fn duplicate_copies() {
    let v = value(455, 216);
    let copy = v.duplicate();
    assert!(copy.same_as(&v));
    assert_eq!(copy.into_ratio(), ratio(455, 216));
    assert_eq!(v.into_ratio(), ratio(455, 216));
}

#[test]
fn values_grow_past_machine_words() {
    let mut v = value(1, 7776);
    for _ in 0..40 {
        v = v.times(&value(1, 7776));
    }
    let r = v.into_ratio();
    assert_eq!(r.numer(), &BigUint::from(1u8));
    assert!(r.denom().bits() > 500);
    v = ExpectedValue::from_ratio(r).unwrap();
    v.not_negative();
    assert!(ExpectedValue::zero().less_than(&v));
}
