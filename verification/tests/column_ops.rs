//! The column primitives: digit/carry split, scaled product, column
//! addition and the subtraction/remainder loop.

use big_num_math::{addition, ones, product, substraction, PlacesRow as Row};

#[test]
fn product_basic_test() {
    let mcand = vec![3, 2, 1];
    let mpler = 3;
    let mut prod = Vec::new();

    product(mpler, &mcand, &mut prod);

    assert_eq!(vec![9, 6, 3], prod);
}

#[test]
fn takeover_test() {
    let mcand = vec![9, 9, 9, 9, 9];
    let mpler = 9;
    let mut prod = Vec::new();

    product(mpler, &mcand, &mut prod);

    assert_eq!(vec![1, 9, 9, 9, 9, 8], prod);
}

#[test]
fn addition_basic_test() {
    let ad1 = vec![4, 3, 2, 5];
    let mut sum = vec![1, 2, 3];

    addition(&ad1, None, &mut sum, 0);

    assert_eq!(vec![5, 5, 5, 5], sum);
}

#[test]
fn takover_test() {
    let ad1 = vec![9];
    let mut sum = vec![9, 9, 9, 9, 9];

    addition(&ad1, None, &mut sum, 0);

    assert_eq!(vec![8, 0, 0, 0, 0, 1], sum);
}

#[test]
fn longer_addition_test() {
    let ad1 = vec![8, 9, 9, 9, 9];
    let mut sum = vec![1, 1];

    addition(&ad1, None, &mut sum, 0);

    assert_eq!(vec![9, 0, 0, 0, 0, 1], sum);
}

#[test]
fn offset_test() {
    let ad1 = vec![9, 9, 9, 9];
    let mut sum = vec![1, 1, 7, 8];

    addition(&ad1, None, &mut sum, 2);

    assert_eq!(vec![1, 1, 6, 8, 0, 0, 1], sum);
}

#[test]
fn two_addends_basic_test() {
    let ad1 = vec![1, 1, 2, 4, 9];
    let ad2 = vec![8, 8, 7, 5];
    let mut sum = Vec::new();

    addition(&ad1, Some(&ad2), &mut sum, 0);

    assert_eq!(vec![9, 9, 9, 9, 9], sum);
}

#[test]
fn two_addends_takover_test() {
    let ad1 = vec![9];
    let ad2 = vec![9];
    let mut sum = Vec::new();

    addition(&ad1, Some(&ad2), &mut sum, 0);

    assert_eq!(vec![8, 1], sum);
}

#[test]
fn two_addends_longer_addition_test() {
    let ad1 = vec![8, 8, 9, 9, 9];
    let ad2 = vec![1, 1];
    let mut sum = Vec::new();

    addition(&ad1, Some(&ad2), &mut sum, 0);

    assert_eq!(vec![9, 9, 9, 9, 9], sum);
}

#[test]
fn substracting_basic_test() {
    let diffratio = substraction(&vec![9, 9], &vec![0, 1], false);
    assert_eq!(&[9, 8], &*diffratio.0);
    assert_eq!(&[1], &*diffratio.1);
}

// minuend must be "copied" to difference if subtrahend is exhausted
#[test]
fn minuend_copy_test() {
    let diffratio = substraction(&vec![7, 7, 7], &vec![1], false);
    assert_eq!(&[6, 7, 7], &*diffratio.0);
    assert_eq!(&[1], &*diffratio.1);
}

#[test]
fn substracting_advanced_test() {
    let minuend =
        Row::new_from_str("6577102745386680762814942322444851025767571854389858533375").unwrap();
    let subtrahend =
        Row::new_from_str("6296101835386680762814942322444851025767571854389858533376").unwrap();
    let proof =
        Row::new_from_str("281000909999999999999999999999999999999999999999999999999").unwrap();

    let diffratio = substraction(&minuend.row, &subtrahend.row, false);
    assert_eq!(proof.row, diffratio.0);
    assert_eq!(&[1], &*diffratio.1);
}

/// tests takeover ∈ [0,1] carry on
#[test]
fn substracting_takeover_test() {
    let diffratio = substraction(&vec![8, 2, 2, 0, 1], &vec![9, 2, 1, 1], false);
    assert_eq!(&[9, 9, 0, 9], &*diffratio.0);
    assert_eq!(&[1], &*diffratio.1);
}

#[test]
fn zero_truncation_test() {
    let diffratio = substraction(&vec![9, 9, 9], &vec![8, 9, 9], false);
    let diff = diffratio.0;
    assert_eq!(&[1], &*diff);
    assert_eq!(&[1], &*diffratio.1);
    let diffcap = diff.capacity();
    assert!(1 == diffcap || diffcap < 3);
}

#[test]
fn remainder_basic_test() {
    let remratio = substraction(&vec![3, 3], &vec![1, 1], true);
    assert_eq!(&[0], &*remratio.0);
    assert_eq!(&[3], &*remratio.1);
}

// minuend must be "copied" to remainder if subtrahend is exhausted
#[test]
fn remainder_minuend_copy_test() {
    let remratio = substraction(&vec![7, 7, 7], &vec![1], true);
    assert_eq!(&[0], &*remratio.0);
    assert_eq!(&[7, 7, 7], &*remratio.1);
}

#[test]
fn remainder_test() {
    let remratio = substraction(&vec![9], &vec![7], true);
    assert_eq!(&[2], &*remratio.0);
    assert_eq!(&[1], &*remratio.1);
}

#[test]
fn remainder_takeover_test() {
    let remratio = substraction(&vec![9, 0, 9], &vec![9], true);
    assert_eq!(&[0], &*remratio.0);
    assert_eq!(&[1, 0, 1], &*remratio.1);
}

// after invalid substraction on remainder, places hold numbers resulting
// from borrowing and substracting
// e.g. [2,0,0,0,0]-[7,7,3]=[5,2,6,9,9]:
// - after remainder restoration [2,0,0,9,9],
// - after the borrow chain's nines are dropped [2,0,0],
// - after `0`s truncation [2]
#[test]
fn overrun_clearing_test() {
    let remratio = substraction(&vec![2, 0, 0, 7, 7], &vec![7, 7], true);
    let remainder = remratio.0;
    assert_ne!(vec![5, 2, 6, 9, 9], remainder);
    assert_ne!(vec![2, 0, 0, 9, 9], remainder);
    assert_ne!(vec![2, 0, 0], remainder);
    assert_eq!(vec![2], remainder);
    let remcap = remainder.capacity();
    assert!(1 == remcap || remcap < 5);
    assert_eq!(&[0, 0, 0, 1], &*remratio.1);
}

#[test]
fn remainder_advanced_test() {
    let minuend = Row::new_from_num(627710173);
    let remainder = Row::new_from_num(130);
    let ratio = Row::new_from_num(1955483);

    let remratio = substraction(&minuend.row, &vec![1, 2, 3], true);
    assert_eq!(&*remainder.row, &*remratio.0);
    assert_eq!(&*ratio.row, &*remratio.1);
}

#[test]
fn remainder_advanced_test2() {
    let minuend = Row::new_from_num(627710173);
    let subtrahend = Row::new_from_num(3552741);
    let remainder = Row::new_from_num(2427757);
    let ratio = Row::new_from_num(176);

    let remratio = substraction(&minuend.row, &subtrahend.row, true);
    assert_eq!(&*remainder.row, &*remratio.0);
    assert_eq!(&*ratio.row, &*remratio.1);
}

#[test]
fn remainder_advanced_test3() {
    let minuend = Row::new_from_num(242775712);
    let subtrahend = Row::new_from_num(33333);
    let remainder = Row::new_from_num(11473);
    let ratio = Row::new_from_num(7283);

    let remratio = substraction(&minuend.row, &subtrahend.row, true);
    assert_eq!(&*remainder.row, &*remratio.0);
    assert_eq!(&*ratio.row, &*remratio.1);
}

#[test]
fn ones_basic_test() {
    let num = 9;
    let mut takeover = 0;

    assert_eq!(9, ones(num, &mut takeover));
    assert_eq!(0, takeover);
}

#[test]
fn split_test() {
    let num = 9;
    let mut takeover = 3;

    assert_eq!(2, ones(num, &mut takeover));
    assert_eq!(1, takeover);
}

#[test]
fn maximum_test() {
    let num = 246;
    let mut takeover = 9;

    assert_eq!(5, ones(num, &mut takeover));
    assert_eq!(25, takeover);
}
