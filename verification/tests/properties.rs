//! Scenario checks of the laws the operations obey: round trips,
//! commutativity, identities, and the division identity.

use big_num_math::{divrem, mul, pow, rel, sub, PlacesRow as Row, Rel};

#[test]
fn text_round_trip_test() {
    let text = "906270343964631595182454599872171919";
    let row = Row::new_from_str(text).unwrap();
    assert_eq!(text, row.to_number());

    let again = Row::new_from_str(row.to_number().as_str()).unwrap();
    assert_eq!(row, again);
}

#[test]
fn zero_text_round_trip_test() {
    let zero = Row::zero();
    assert_eq!("0", zero.to_number());
    assert_eq!(zero, Row::new_from_str("0").unwrap());
}

#[test]
fn native_round_trip_test() {
    let n: u128 = 90817263545;
    let row = Row::new_from_num(n);
    assert_eq!("90817263545", row.to_number());
    assert_eq!(row, Row::new_from_str(row.to_number().as_str()).unwrap());
}

#[test]
fn add_commutativity_test() {
    let a = Row::new_from_str("123456789012345678901234567890").unwrap();
    let b = Row::new_from_num(98989898);
    assert_eq!(big_num_math::add(&a, &b), big_num_math::add(&b, &a));
}

#[test]
fn add_identity_test() {
    let a = Row::new_from_num(40302010);
    let zero = Row::zero();
    assert_eq!(a, big_num_math::add(&a, &zero));
    assert_eq!(a, big_num_math::add(&zero, &a));
}

#[test]
fn sub_add_inverse_test() {
    let a = Row::new_from_str("6577102745386680762814942322444851025767571854389858533375").unwrap();
    let b = Row::new_from_str("6296101835386680762814942322444851025767571854389858533376").unwrap();
    let diff = sub(&a, &b).unwrap();
    assert_eq!(a, big_num_math::add(&diff, &b));
}

#[test]
fn mul_identity_test() {
    let a = Row::new_from_str("987654321098765432109876543210").unwrap();
    let one = Row::new_from_num(1);
    assert_eq!(a, mul(&a, &one));
    assert_eq!(a, mul(&one, &a));
}

#[test]
fn mul_zero_property_test() {
    let a = Row::new_from_str("987654321098765432109876543210").unwrap();
    let zero = Row::zero();
    assert_eq!(zero, mul(&a, &zero));
    assert_eq!(zero, mul(&zero, &a));
}

#[test]
fn div_identity_test() {
    let dividend = Row::new_from_num(90);
    let divisor = Row::new_from_num(19);
    let (quotient, remainder) = divrem(&dividend, &divisor).unwrap();

    let back = big_num_math::add(&mul(&divisor, &quotient), &remainder);
    assert_eq!(dividend, back);
    assert_eq!(Rel::Lesser, rel(&remainder, &divisor));
}

#[test]
fn div_identity_advanced_test() {
    // The remainder loop subtracts the divisor once per quotient unit, so
    // a large dividend needs a divisor of its own magnitude.
    let divisor = Row::new_from_str("926336713898529563388567880069503262826159877325124").unwrap();
    let dividend = big_num_math::add(&mul(&divisor, &Row::new_from_num(7)), &Row::new_from_num(13));
    let (quotient, remainder) = divrem(&dividend, &divisor).unwrap();

    assert_eq!(Row::new_from_num(7), quotient);
    assert_eq!(Row::new_from_num(13), remainder);
    let back = big_num_math::add(&mul(&divisor, &quotient), &remainder);
    assert_eq!(dividend, back);
    assert_eq!(Rel::Lesser, rel(&remainder, &divisor));
}

#[test]
fn pow_boundary_test() {
    let one = Row::new_from_num(1);
    let zero = Row::zero();
    let x = Row::new_from_num(906270);

    assert_eq!(one, pow(&zero, 0));
    assert_eq!(one, pow(&x, 0));
    assert_eq!(x, pow(&x, 1));
    assert_eq!(zero, pow(&zero, 1));
}

#[test]
fn remainder_nine_digit_test() {
    // A remainder ending in 9 sits right where the overrun correction's
    // nines stop; only the borrow chain's own nines may be dropped.
    let dividend = Row::new_from_num(192);
    let divisor = Row::new_from_num(97);
    let (quotient, remainder) = divrem(&dividend, &divisor).unwrap();

    assert_eq!(Row::new_from_num(1), quotient);
    assert_eq!(Row::new_from_num(95), remainder);
}

#[test]
fn remainder_below_divisor_test() {
    let dividend = Row::new_from_num(700);
    let divisor = Row::new_from_num(699);
    let (quotient, remainder) = divrem(&dividend, &divisor).unwrap();

    assert_eq!(Row::new_from_num(1), quotient);
    assert_eq!(Row::new_from_num(1), remainder);
    assert_eq!(Rel::Lesser, rel(&remainder, &divisor));
}
