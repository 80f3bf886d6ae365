//! Arbitrary-precision arithmetic on non-negative decimal integers.
//!
//! A number is held as a [`PlacesRow`]: a vector of decimal digits in
//! little-endian order (index 0 is the ones place).  The arithmetic
//! operations — addition, subtraction, multiplication, exponentiation and
//! division with remainder — work directly on the digit rows and carry a
//! proof that the digits they return represent the exact numeric result.

use vstd::prelude::*;

pub mod column;
pub mod laws;
pub mod ops;
pub mod value;

pub use column::{addition, ones, product, shrink_to_fit_raw, truncate_leading_raw};
pub use ops::{add, divrem, mul, pow, rel, sub, substraction, Rel};

use crate::column::clone_row;
use crate::value::{
    char_digit, digit_char, digits_of_text, digits_ok, is_digit_char, last_nondigit,
    leading_zeros, lemma_leading_zeros_is, lemma_last_nondigit_is, lemma_truncate_zeros,
    lemma_value_push, normalized, pow10, row_value, text_of, wf,
};

verus! {

/// `PlacesRow` represents a row of decimal places starting at ones
/// (`0` index).
#[derive(Debug)]
pub struct PlacesRow {
    pub row: Vec<u8>,
}

impl View for PlacesRow {
    type V = Seq<u8>;

    open spec fn view(&self) -> Seq<u8> {
        self.row@
    }
}

impl Clone for PlacesRow {
    /// Returns a row holding the same places.
    fn clone(&self) -> (r: Self)
        ensures
            r@ == self@,
    {
        PlacesRow { row: clone_row(&self.row) }
    }
}

impl PartialEq for PlacesRow {
    /// Rows are equal exactly when they hold the same places.
    fn eq(&self, other: &Self) -> (r: bool) {
        let len = self.row.len();
        if len != other.row.len() {
            return false;
        }
        let mut inx: usize = 0;
        loop
            invariant
                len == self@.len(),
                len == other@.len(),
                inx <= len,
                forall|k: int| 0 <= k < inx ==> self@[k] == other@[k],
            ensures
                inx == len,
                forall|k: int| 0 <= k < len ==> self@[k] == other@[k],
            decreases len - inx,
        {
            if inx == len {
                break;
            }
            if self.row[inx] != other.row[inx] {
                return false;
            }
            inx += 1;
        }
        proof {
            assert(self@ =~= other@);
        }
        true
    }
}

impl vstd::std_specs::cmp::PartialEqSpecImpl for PlacesRow {
    open spec fn obeys_eq_spec() -> bool {
        true
    }

    open spec fn eq_spec(&self, other: &Self) -> bool {
        self@ == other@
    }
}

impl From<u128> for PlacesRow {
    /// Converts `value` into `PlacesRow`.
    fn from(value: u128) -> (r: Self)
        ensures
            wf(r@),
            row_value(r@) == value as nat,
    {
        Self::new_from_num(value)
    }
}

impl vstd::std_specs::convert::FromSpecImpl<u128> for PlacesRow {
    open spec fn obeys_from_spec() -> bool {
        false
    }

    open spec fn from_spec(v: u128) -> Self {
        arbitrary()
    }
}

/// Relies on `String::push`: it appends exactly the one character given.
#[verifier::external_body]
fn push_char(s: &mut String, c: char)
    ensures
        final(s)@ == old(s)@.push(c),
{
    s.push(c);
}

impl PlacesRow {
    /// View into the row's places.
    pub fn digits(&self) -> (s: &[u8])
        ensures
            s@ == self@,
    {
        self.row.as_slice()
    }

    /// Relies on `Vec::capacity`: reports how many places the row's backing
    /// buffer has room for without reallocation.
    #[verifier::external_body]
    pub fn capacity(&self) -> usize {
        self.row.capacity()
    }

    /// Strong ctor for usage with prebuilded raw places row.
    ///
    /// Only ones are allowed in `row`.
    /// Places in `row` have to be ordered from ones over tens, hundreds, …
    /// to the highest place; from 0-index to last-index.
    ///
    /// Leading zeros are truncated.
    ///
    /// Returns `PlacesRow` or index where place > `9` was encountered.
    /// `None` for 0-len `row`.
    pub fn new_from_vec(row: Vec<u8>) -> (res: Result<Self, Option<usize>>)
        ensures
            row@.len() == 0 <==> res == Err::<Self, Option<usize>>(None),
            res matches Err(Some(i)) ==> i < row@.len() && row@[i as int] > 9 && (forall|k: int|
                0 <= k < i ==> row@[k] <= 9),
            res is Ok <==> row@.len() > 0 && digits_ok(row@),
            res matches Ok(r) ==> wf(r@) && row_value(r@) == row_value(row@),
    {
        if row.len() == 0 {
            return Err(None);
        }

        let mut inx: usize = 0;
        loop
            invariant
                row@.len() > 0,
                inx <= row@.len(),
                forall|k: int| 0 <= k < inx ==> row@[k] <= 9,
            ensures
                inx == row@.len(),
                digits_ok(row@),
            decreases row@.len() - inx,
        {
            if inx == row.len() {
                break;
            }
            if row[inx] > 9 {
                return Err(Some(inx));
            }
            inx += 1;
        }

        let mut row = row;
        let ghost orig = row@;
        truncate_leading_raw(&mut row, 0);
        proof {
            lemma_truncate_zeros(orig, row@.len() as int);
        }

        Ok(PlacesRow { row })
    }

    /// Handy ctor for usage with _classic_ primitive numeric data type.
    pub fn new_from_num(num: u128) -> (r: Self)
        ensures
            wf(r@),
            row_value(r@) == num as nat,
    {
        let ghost n0 = num;
        let mut row: Vec<u8> = Vec::new();
        let mut num = num;
        proof {
            assert(row@ =~= Seq::<u8>::empty());
            assert(row_value(Seq::<u8>::empty()) == 0);
            assert((num as nat) * pow10(0nat) == num) by (nonlinear_arith);
        }
        loop
            invariant_except_break
                digits_ok(row@),
                row_value(row@) + (num as nat) * pow10(row@.len()) == n0 as nat,
                row@.len() == 0 ==> num == n0,
                row@.len() > 0 ==> num >= 1,
            ensures
                digits_ok(row@),
                normalized(row@),
                row_value(row@) == n0 as nat,
            decreases num,
        {
            let ghost before = row@;
            let ghost num_before = num;

            let d = (num % 10) as u8;
            row.push(d);
            num = num / 10;

            proof {
                lemma_value_push(before, d);
                assert(num_before % 10 + 10 * (num_before / 10) == num_before && num_before % 10
                    < 10 && (num_before >= 1 ==> num_before / 10 < num_before))
                    by (nonlinear_arith);
                let p = pow10(before.len());
                assert(pow10(before.len() + 1) == 10 * p);
                assert((d as nat) * p + ((num_before / 10) as nat) * (10 * p) == (
                num_before as nat) * p) by (nonlinear_arith)
                    requires
                        d + 10 * ((num_before / 10) as nat) == num_before,
                ;
            }

            if num == 0 {
                proof {
                    if before.len() > 0 {
                        assert(num_before >= 1 && num_before / 10 == 0);
                        assert(num_before <= 9 && d == num_before) by (nonlinear_arith)
                            requires
                                num_before >= 1,
                                num_before / 10 == 0,
                                d == num_before % 10,
                        ;
                    }
                }
                break;
            }
        }

        PlacesRow { row }
    }

    /// Handy ctor for usage with long numbers.
    ///
    /// Only digits are allowed in `s`.  Leading zeros are omitted.
    ///
    /// Returns `PlacesRow` or the position in `s` where an unconvertable
    /// `char` was encountered, scanning from the least-significant end.
    /// `None` for an empty string.
    pub fn new_from_str(s: &str) -> (res: Result<Self, Option<usize>>)
        ensures
            s@.len() == 0 <==> res == Err::<Self, Option<usize>>(None),
            res matches Ok(r) ==> wf(r@),
            s@.len() > 0 && leading_zeros(s@) == s@.len() ==> (res matches Ok(r) && r@ == seq![
                0u8,
            ]),
            ({
                let t = s@.skip(leading_zeros(s@));
                &&& (s@.len() > 0 && t.len() > 0 && (forall|j: int|
                    0 <= j < t.len() ==> is_digit_char(t[j])) ==> (res matches Ok(r) && r@
                    == digits_of_text(t)))
                &&& (s@.len() > 0 && t.len() > 0 && !(forall|j: int|
                    0 <= j < t.len() ==> is_digit_char(t[j])) ==> res == Err::<
                    Self,
                    Option<usize>,
                >(Some(last_nondigit(s@) as usize)))
            }),
    {
        let len = s.unicode_len();
        if len == 0 {
            return Err(None);
        }

        let mut lead: usize = 0;
        loop
            invariant
                len == s@.len(),
                lead <= len,
                forall|j: int| 0 <= j < lead ==> s@[j] as u32 == 48,
            ensures
                lead <= len,
                forall|j: int| 0 <= j < lead ==> s@[j] as u32 == 48,
                lead == len || s@[lead as int] as u32 != 48,
            decreases len - lead,
        {
            if lead == len {
                break;
            }
            // ASCII `'0'` is code point 48.
            if s.get_char(lead) as u32 == 48 {
                lead += 1;
            } else {
                break;
            }
        }

        proof {
            lemma_leading_zeros_is(s@, lead as int);
        }

        if lead == len {
            let mut z: Vec<u8> = Vec::new();
            z.push(0);
            proof {
                assert(z@ =~= seq![0u8]);
            }
            return Ok(PlacesRow { row: z });
        }

        let mut row: Vec<u8> = Vec::with_capacity(len - lead);
        let mut inx: usize = len;
        loop
            invariant
                len == s@.len(),
                lead < len,
                leading_zeros(s@) == lead,
                forall|j: int| 0 <= j < lead ==> s@[j] as u32 == 48,
                s@[lead as int] as u32 != 48,
                lead <= inx <= len,
                row@.len() == len - inx,
                forall|p: int| inx <= p < len ==> is_digit_char(s@[p]),
                forall|k: int|
                    0 <= k < len - inx ==> row@[k] == char_digit(s@[len - 1 - k]) && row@[k] <= 9,
            ensures
                inx == lead,
                row@.len() == len - lead,
                forall|p: int| lead <= p < len ==> is_digit_char(s@[p]),
                forall|k: int|
                    0 <= k < len - lead ==> row@[k] == char_digit(s@[len - 1 - k]) && row@[k] <= 9,
            decreases inx,
        {
            if inx == lead {
                break;
            }
            let c = s.get_char(inx - 1);
            let cv = c as u32;
            if 48 <= cv && cv <= 57 {
                row.push((cv - 48) as u8);
                inx -= 1;
            } else {
                proof {
                    lemma_last_nondigit_is(s@, inx - 1);
                    let t = s@.skip(lead as int);
                    assert(t[inx - 1 - lead] == s@[inx - 1]);
                    assert(!is_digit_char(t[inx - 1 - lead]));
                }
                return Err(Some(inx - 1));
            }
        }

        proof {
            let t = s@.skip(lead as int);
            assert(t.len() == len - lead);
            assert forall|j: int| 0 <= j < t.len() implies is_digit_char(t[j]) by {
                assert(t[j] == s@[lead + j]);
            }
            assert forall|k: int| 0 <= k < row@.len() implies row@[k] == digits_of_text(t)[k] by {
                assert(row@[k] == char_digit(s@[len - 1 - k]));
                assert(digits_of_text(t)[k] == char_digit(t[t.len() - 1 - k]));
                assert(t[t.len() - 1 - k] == s@[lead + (t.len() - 1 - k)]);
            }
            assert(row@ =~= digits_of_text(t));
            let last = row@.len() - 1;
            assert(row@[last] == char_digit(s@[len - 1 - last]));
            assert(len - 1 - last == lead);
            assert(is_digit_char(s@[lead as int]));
            assert(char_digit(s@[lead as int]) >= 1);
        }

        Ok(PlacesRow { row })
    }

    /// Returns `String` representation.
    pub fn to_number(&self) -> (r: String)
        requires
            digits_ok(self@),
        ensures
            r@ == text_of(self@),
    {
        let row = &self.row;
        let len = row.len();
        let mut number = String::new();
        let mut inx: usize = len;
        loop
            invariant
                row@ == self@,
                len == self@.len(),
                digits_ok(self@),
                inx <= len,
                number@.len() == len - inx,
                forall|k: int| 0 <= k < len - inx ==> number@[k] == digit_char(self@[len - 1 - k]),
            ensures
                inx == 0,
                number@.len() == len,
                forall|k: int| 0 <= k < len ==> number@[k] == digit_char(self@[len - 1 - k]),
            decreases inx,
        {
            if inx == 0 {
                break;
            }
            inx -= 1;
            let d = row[inx];
            let digit = if d == 0 {
                '0'
            } else if d == 1 {
                '1'
            } else if d == 2 {
                '2'
            } else if d == 3 {
                '3'
            } else if d == 4 {
                '4'
            } else if d == 5 {
                '5'
            } else if d == 6 {
                '6'
            } else if d == 7 {
                '7'
            } else if d == 8 {
                '8'
            } else {
                '9'
            };
            push_char(&mut number, digit);
        }

        proof {
            assert(number@ =~= text_of(self@));
        }
        number
    }

    /// Returns zero `PlacesRow`.
    pub fn zero() -> (r: PlacesRow)
        ensures
            wf(r@),
            row_value(r@) == 0,
            r@ =~= seq![0u8],
    {
        let r = PlacesRow { row: vec![0u8] };
        proof {
            assert(cloned(0u8, r.row@[0]));
            assert(r@ =~= seq![0u8]);
            crate::value::lemma_value_single(0u8);
        }
        r
    }
}

} // verus!
