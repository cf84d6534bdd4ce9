use crypto::error::EccError;
use crypto::fieldelement::FieldElement;

const LARGE_PRIME: i64 = 9223372036854775783;

#[test]
fn test_field_element_creation() {
    let fe = FieldElement::new(2, 7);
    assert!(fe.is_ok());

    let fe_invalid = FieldElement::new(7, 7);
    assert!(fe_invalid.is_err());
}

#[test]
fn test_field_arithmetic() {
    let fe1 = FieldElement::new(3, 13).unwrap();
    let fe2 = FieldElement::new(7, 13).unwrap();

    let sum = fe1.clone().add(fe2.clone()).unwrap();
    assert_eq!(sum.num(), 10);

    let diff = fe1.clone().sub(fe2.clone()).unwrap();
    assert_eq!(diff.num(), 9);

    let prod = fe1.clone().mul(fe2.clone()).unwrap();
    assert_eq!(prod.num(), 8);

    let quot = fe1.clone().div(fe2.clone()).unwrap();
    assert_eq!(quot.num(), 6);
}

#[test]
fn field_creation_errors() {
    assert_eq!(FieldElement::new(0, 1), Err(EccError::InvalidField));
    assert_eq!(FieldElement::new(0, -5), Err(EccError::InvalidField));
    assert_eq!(FieldElement::new(-1, 7), Err(EccError::OutOfRange));
    assert_eq!(FieldElement::new(7, 7), Err(EccError::OutOfRange));
    let e = FieldElement::new(6, 7).unwrap();
    assert_eq!(e.num(), 6);
    assert_eq!(e.prime(), 7);
}

#[test]
fn every_residue_is_accepted() {
    for n in 0..13 {
        assert!(FieldElement::new(n, 13).is_ok());
    }
    assert!(FieldElement::new(LARGE_PRIME - 1, LARGE_PRIME).is_ok());
}

#[test]
fn mixing_fields_fails() {
    let a = FieldElement::new(3, 13).unwrap();
    let b = FieldElement::new(3, 11).unwrap();
    assert_eq!(a.add(b), Err(EccError::FieldMismatch));
    assert_eq!(a.sub(b), Err(EccError::FieldMismatch));
    assert_eq!(a.mul(b), Err(EccError::FieldMismatch));
    assert_eq!(a.div(b), Err(EccError::FieldMismatch));
}

#[test]
fn dividing_by_zero_fails() {
    let a = FieldElement::new(3, 13).unwrap();
    let zero = FieldElement::new(0, 13).unwrap();
    assert_eq!(a.div(zero), Err(EccError::DivisionByZero));
    assert_eq!(zero.div(a).unwrap().num(), 0);
}

#[test]
fn results_stay_in_range() {
    for x in 0..13 {
        for y in 0..13 {
            let a = FieldElement::new(x, 13).unwrap();
            let b = FieldElement::new(y, 13).unwrap();
            for r in [a.add(b), a.sub(b), a.mul(b)] {
                let r = r.unwrap();
                assert!(0 <= r.num() && r.num() < 13);
                assert_eq!(r.prime(), 13);
            }
        }
    }
}

#[test]
fn wide_operands_do_not_overflow() {
    let a = FieldElement::new(LARGE_PRIME - 1, LARGE_PRIME).unwrap();
    let b = FieldElement::new(LARGE_PRIME - 2, LARGE_PRIME).unwrap();
    assert_eq!(a.add(b).unwrap().num(), LARGE_PRIME - 3);
    assert_eq!(b.sub(a).unwrap().num(), LARGE_PRIME - 1);
    assert_eq!(a.mul(b).unwrap().num(), 2);
}

#[test]
fn an_element_divided_by_itself_is_one() {
    for x in 1..13 {
        let a = FieldElement::new(x, 13).unwrap();
        assert_eq!(a.div(a).unwrap().num(), 1);
    }
    let big = FieldElement::new(123456789, LARGE_PRIME).unwrap();
    assert_eq!(big.div(big).unwrap().num(), 1);
    let m = FieldElement::new(2305843009213693950, 2305843009213693951).unwrap();
    assert_eq!(m.div(m).unwrap().num(), 1);
}

#[test]
fn division_uses_the_full_exponent() {
    let a = FieldElement::new(123456789, LARGE_PRIME).unwrap();
    let b = FieldElement::new(987654321, LARGE_PRIME).unwrap();
    assert_eq!(a.div(b).unwrap().num(), 2557206871975172636);
}

#[test]
fn division_in_a_composite_modulus_follows_the_power() {
    let a = FieldElement::new(5, 15).unwrap();
    let b = FieldElement::new(9, 15).unwrap();
    assert_eq!(a.div(b).unwrap().num(), 0);
}

#[test]
fn field_text() {
    assert_eq!(FieldElement::new(6, 13).unwrap().to_text(), "FieldElement_13(6)");
    assert_eq!(FieldElement::new(0, 2).unwrap().to_text(), "FieldElement_2(0)");
    assert_eq!(
        FieldElement::new(1234567890, LARGE_PRIME).unwrap().to_text(),
        "FieldElement_9223372036854775783(1234567890)"
    );
}
