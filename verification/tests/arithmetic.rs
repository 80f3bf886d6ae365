//! The public arithmetic operations: comparison, addition, subtraction,
//! multiplication, exponentiation and division with remainder.

use big_num_math::{divrem, mul, pow, rel, sub, PlacesRow as Row, Rel};

#[test]
fn longer_test() {
    let num = Row::new_from_num(11);
    let comparand = Row::new_from_num(9);

    assert_eq!(Rel::Greater, rel(&num, &comparand));
}

#[test]
fn shorter_test() {
    let num = Row::new_from_num(9);
    let comparand = Row::new_from_num(10);

    assert_eq!(Rel::Lesser, rel(&num, &comparand));
}

#[test]
fn greater_test() {
    let num_num = 1234567899;
    let cpd_num = 1234567890;

    let num = Row::new_from_num(num_num);
    let comparand = Row::new_from_num(cpd_num);

    assert_eq!(Rel::Greater, rel(&num, &comparand));
}

#[test]
fn equal_test() {
    let num = Row::new_from_num(1234567890);
    assert_eq!(Rel::Equal, rel(&num, &num));
}

#[test]
fn lesser_test() {
    let num_num = 1234567890;
    let cpd_num = 1234567899;

    let num = Row::new_from_num(num_num);
    let comparand = Row::new_from_num(cpd_num);

    assert_eq!(Rel::Lesser, rel(&num, &comparand));
}

#[test]
fn add_basic_test() {
    let row1 = Row::new_from_num(4);
    let row2 = Row::new_from_num(5);

    let sum = big_num_math::add(&row1, &row2);
    assert_eq!(&[9], &*sum.row);
}

#[test]
fn left_num_longer_test() {
    let row1 = Row::new_from_num(10_000);
    let row2 = Row::new_from_num(5);

    let sum = big_num_math::add(&row1, &row2);
    assert_eq!(Row::new_from_num(10_005), sum);
}

#[test]
fn right_num_longer_test2() {
    let row1 = Row::new_from_num(5);
    let row2 = Row::new_from_num(10_000);

    let sum = big_num_math::add(&row1, &row2);
    assert_eq!(Row::new_from_num(10_005), sum);
}

#[test]
fn add_advanced_test() {
    let row = Row::new_from_str("680564733841876926926749214863536422910").unwrap();

    let sum = big_num_math::add(&row, &row);
    assert_eq!("1361129467683753853853498429727072845820", sum.to_number());
}

#[test]
fn lesser_minuend_test() {
    let minuend = Row::new_from_num(4);
    let subtrahend = Row::new_from_num(5);

    assert!(sub(&minuend, &subtrahend).is_none());
}

#[test]
fn universal_test() {
    for triplet in [(99, 11, 88), (133, 133, 0), (90, 19, 71), (700, 699, 1)] {
        let minuend = Row::new_from_num(triplet.0);
        let subtrahend = Row::new_from_num(triplet.1);

        let proof = Row::new_from_num(triplet.2);
        let diff = sub(&minuend, &subtrahend);
        assert!(diff.is_some());

        assert_eq!(proof, diff.unwrap());
    }
}

#[test]
fn mul_basic_test() {
    let row1 = Row::new_from_num(2);
    let row2 = Row::new_from_num(3);
    let prod = mul(&row1, &row2);
    assert_eq!(&[6], prod.digits());
}

#[test]
fn zero_num_test() {
    let row1 = Row::new_from_num(0);
    let row2 = Row::new_from_num(123456);
    let prod = mul(&row1, &row2);
    assert_eq!(&[0], prod.digits());
    let prod_cap = prod.capacity();
    assert!(1 == prod_cap || prod_cap < row2.digits().len());
}

#[test]
fn zero_nums_test() {
    let row1 = Row::new_from_num(0);
    let row2 = Row::new_from_num(0);
    let prod = mul(&row1, &row2);
    assert_eq!(&[0], prod.digits());
}

#[test]
fn advanced_test() {
    let row = Row::new_from_num(u128::MAX);
    let prod = mul(&row, &row);
    let proof = "115792089237316195423570985008687907852589419931798687112530834793049593217025";
    assert_eq!(proof, prod.to_number());
}

#[test]
fn pow_basic_test() {
    let row = Row::new_from_num(2);
    assert_eq!(&[4], pow(&row, 2).digits());
}

#[test]
fn advanced_test2() {
    let proof = Row::new_from_str("88817841970012523233890533447265625").unwrap();
    let row = Row::new_from_num(25);
    assert_eq!(proof, pow(&row, 25));
}

#[test]
fn advanced_test3() {
    let proof = Row::new_from_str(
        "949279437109690919948053832937215463733689853138782229364504479870922851876864",
    )
    .unwrap();

    let row = Row::new_from_num(998);
    assert_eq!(proof, pow(&row, 26));
}

#[test]
fn advanced_test4() {
    let proof = Row::new_from_str(
        "926336713898529563388567880069503262826159877325124512315660672063305037119488",
    )
    .unwrap();

    let row = Row::new_from_num(2);
    assert_eq!(proof, pow(&row, 259));
}

#[test]
fn advanced_test5() {
    let row = Row::new_from_num(u128::MAX);
    let result = pow(&row, 500);
    let number = result.to_number();

    assert!(number.starts_with("8312324609993336522"));
    assert_eq!(19266, number.len());
}

#[test]
fn zero_power_test() {
    let row = Row::new_from_num(0);
    let result = pow(&row, 0);
    assert_eq!(&[1], result.digits());
}

#[test]
fn one_power_test() {
    let row = Row::new_from_num(3030);
    let result = pow(&row, 1);
    assert_eq!(&[0, 3, 0, 3], result.digits());
}

#[test]
fn power_of_zero_test() {
    let row = Row::new_from_num(0);
    let result = pow(&row, 1000);
    assert_eq!(&[0], result.digits());
}

#[test]
fn power_of_one_test() {
    let row = Row::new_from_num(1);
    let result = pow(&row, u16::MAX);
    assert_eq!(&[1], result.digits());
}

#[test]
fn zero_divisor_test() {
    let dividend = Row::new_from_num(1);
    let divisor = Row::new_from_num(0);

    let ratrem = divrem(&dividend, &divisor);
    assert!(ratrem.is_none());
}

#[test]
fn lesser_dividend_test() {
    let dividend = Row::new_from_num(998);
    let divisor = Row::new_from_num(999);

    let ratrem = divrem(&dividend, &divisor);
    assert!(ratrem.is_some());

    let ratrem = ratrem.unwrap();

    assert_eq!(Row::zero(), ratrem.0);
    assert_eq!(dividend, ratrem.1);
}

#[test]
fn lib_universal_test() {
    for quadruplet in [
        (0, 100, 0, 0),
        (99, 11, 9, 0),
        (133, 133, 1, 0),
        (90, 19, 4, 14),
        (700, 699, 1, 1),
    ] {
        let dividend = Row::new_from_num(quadruplet.0);
        let divisor = Row::new_from_num(quadruplet.1);

        let ratio = Row::new_from_num(quadruplet.2);
        let remainder = Row::new_from_num(quadruplet.3);
        let ratrem = divrem(&dividend, &divisor);

        assert!(ratrem.is_some());
        let ratrem = ratrem.unwrap();

        assert_eq!(ratio, ratrem.0);
        assert_eq!(remainder, ratrem.1);
    }
}
