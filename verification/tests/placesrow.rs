//! Construction, rendering and normalization of digit rows.

use big_num_math::PlacesRow as Row;

#[test]
fn basic_test() {
    let row = vec![0, 1, 2, 3, 4, 5, 6, 7, 8, 9];
    let proof = row.clone();
    let row = Row::new_from_vec(row);

    assert!(row.is_ok());
    assert_eq!(proof, row.unwrap().row);
}

#[test]
fn zero_len_test() {
    let row = Row::new_from_vec(vec![0; 0]);
    assert!(row.is_err());
    assert_eq!(None, row.err().unwrap());
}

#[test]
fn unsupported_num_test() {
    let row = vec![0, 1, 2, 3, 4, 5, 6, 7, 8, 9, 10];
    let row = Row::new_from_vec(row);

    assert!(row.is_err());
    assert_eq!(Some(10), row.err().unwrap());
}

#[test]
fn leading_zeros_trim_test() {
    let row = Row::new_from_vec(vec![1, 2, 0, 0]);
    assert_eq!(&[1, 2], &*row.unwrap().row);
}

#[test]
fn new_from_num_test() {
    let row = Row::new_from_num(1234567890);
    assert_eq!(&[0, 9, 8, 7, 6, 5, 4, 3, 2, 1], row.digits());
}

#[test]
fn lib_zero_len_test() {
    let row = Row::new_from_str("");
    assert!(row.is_err());
    assert_eq!(None, row.err().unwrap());
}

#[test]
fn lib_leading_zeros_trim_test() {
    let row = Row::new_from_str("0021");
    assert!(row.is_ok());
    assert_eq!(&[1, 2], &*row.unwrap().row);
}

#[test]
fn zeros_reduction_test() {
    let row = Row::new_from_str("0000");
    assert!(row.is_ok());
    assert_eq!(&[0], &*row.unwrap().row);
}

#[test]
fn nondigit_str_test() {
    let row = Row::new_from_str("0012w123");
    assert!(row.is_err());
    let inx = row.err().unwrap();
    assert!(inx.is_some());
    assert_eq!(4, inx.unwrap());
}

#[test]
fn lib_basic_test() {
    let row = Row::new_from_str("1234567890");
    assert!(row.is_ok());
    assert_eq!(&[0, 9, 8, 7, 6, 5, 4, 3, 2, 1], &*row.unwrap().row);
}

#[test]
fn to_number_basic_test() {
    let row = Row::new_from_vec(vec![0, 9, 8, 7, 6, 5, 4, 3, 2, 1]).unwrap();
    assert_eq!("1234567890", row.to_number().as_str());
}

#[test]
fn zero_test() {
    assert_eq!(&[0], Row::zero().digits());
}

#[test]
fn to_string_test() {
    let row = Row::new_from_num(1);
    assert_eq!("1", row.to_number());
}

#[test]
fn from_test() {
    let row: Row = From::from(123);
    assert_eq!(&[3, 2, 1], row.digits());
}

#[test]
fn shrink_to_fit_raw_test() {
    let mut row = Vec::with_capacity(10);
    row.push(1);
    row.push(2);
    row.push(0);

    big_num_math::shrink_to_fit_raw(&mut row);
    assert_eq!(&[1, 2], row.as_slice());
    assert_eq!(2, row.capacity());
}

#[test]
fn truncate_basic_test() {
    let mut row = vec![1, 2, 0, 0];
    big_num_math::truncate_leading_raw(&mut row, 0);
    assert_eq!(vec![1, 2], row);
}

#[test]
fn preservation_test() {
    let mut row = vec![2, 2, 2];
    big_num_math::truncate_leading_raw(&mut row, 2);
    assert_eq!(vec![2], row);
}
