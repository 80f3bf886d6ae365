//! The algebraic laws the operations obey, stated over the row model.
//!
//! Each operation's own contract fixes the numeric value of its result;
//! these lemmas lift those value facts to facts about the rows themselves,
//! resting on the unique normalized representation of every value.

use vstd::prelude::*;

use crate::value::{
    char_digit, digit_char, digits_of_text, is_digit_char, leading_zeros,
    lemma_leading_zeros_is, lemma_value_inj, lemma_value_single, pow_nat, row_value, text_of, wf,
};

verus! {

/// The digit characters carry their digit: rendering then reading a digit
/// is the identity, and only the digit `0` renders as `'0'`.
proof fn lemma_digit_char_props(d: u8)
    requires
        d <= 9,
    ensures
        is_digit_char(digit_char(d)),
        char_digit(digit_char(d)) == d,
        d != 0 ==> digit_char(d) as u32 != 48,
        d == 0 ==> digit_char(d) as u32 == 48,
{
    assert(('0' as u32) == 48);
    assert(('1' as u32) == 49);
    assert(('2' as u32) == 50);
    assert(('3' as u32) == 51);
    assert(('4' as u32) == 52);
    assert(('5' as u32) == 53);
    assert(('6' as u32) == 54);
    assert(('7' as u32) == 55);
    assert(('8' as u32) == 56);
    assert(('9' as u32) == 57);
}

/// Text round trip: the rendered text of a well-formed row reads back as
/// exactly that row.  For every row but `[0]` the text starts with a
/// non-zero digit, so trimming leading zeros leaves it whole and the
/// reading described by `new_from_str`'s contract returns the row; the
/// zero row renders as `"0"`, which trims to nothing and reads as `[0]`
/// again.
pub proof fn lemma_text_round_trip(s: Seq<u8>)
    requires
        wf(s),
    ensures
        text_of(s).len() == s.len(),
        forall|j: int| 0 <= j < text_of(s).len() ==> is_digit_char(#[trigger] text_of(s)[j]),
        digits_of_text(text_of(s)) == s,
        s == seq![0u8] ==> leading_zeros(text_of(s)) == text_of(s).len(),
        s != seq![0u8] ==> leading_zeros(text_of(s)) == 0 && text_of(s).skip(0) == text_of(s),
{
    let t = text_of(s);
    let l = s.len() as int;

    assert forall|j: int| 0 <= j < l implies is_digit_char(#[trigger] t[j]) by {
        lemma_digit_char_props(s[l - 1 - j]);
    }

    assert forall|i: int| 0 <= i < l implies digits_of_text(t)[i] == s[i] by {
        lemma_digit_char_props(s[i]);
        assert(t[l - 1 - i] == digit_char(s[l - 1 - (l - 1 - i)]));
    }
    assert(digits_of_text(t) =~= s);

    if s == seq![0u8] {
        assert(s[0] == 0);
        lemma_digit_char_props(0);
        assert(t[0] == digit_char(s[0]));
        lemma_leading_zeros_is(t, 1);
    } else {
        assert(s.last() != 0) by {
            if s.len() == 1 {
                if s[0] == 0 {
                    assert(s =~= seq![0u8]);
                }
            }
        }
        lemma_digit_char_props(s.last());
        assert(t[0] == digit_char(s[l - 1]));
        lemma_leading_zeros_is(t, 0);
        assert(t.skip(0) =~= t);
    }
}

/// One value, one row, one text: two well-formed rows of the same value
/// are the same row and render as the same text.  With `new_from_num`'s
/// and `to_number`'s contracts this makes the text of `new_from_num(n)`
/// the one decimal rendering of `n`.
pub proof fn lemma_value_determines_text(s1: Seq<u8>, s2: Seq<u8>)
    requires
        wf(s1),
        wf(s2),
        row_value(s1) == row_value(s2),
    ensures
        s1 == s2,
        text_of(s1) == text_of(s2),
{
    lemma_value_inj(s1, s2);
}

/// Addition commutes: any row that addition's contract allows for `a + b`
/// equals any it allows for `b + a`.
pub proof fn lemma_add_commutes(a: Seq<u8>, b: Seq<u8>, r1: Seq<u8>, r2: Seq<u8>)
    requires
        wf(r1),
        wf(r2),
        row_value(r1) == row_value(a) + row_value(b),
        row_value(r2) == row_value(b) + row_value(a),
    ensures
        r1 == r2,
{
    lemma_value_inj(r1, r2);
}

/// Zero is addition's identity: adding a zero-valued row to `a` gives a
/// row equal to `a` itself.
pub proof fn lemma_add_zero(a: Seq<u8>, z: Seq<u8>, r: Seq<u8>)
    requires
        wf(a),
        wf(r),
        row_value(z) == 0,
        row_value(r) == row_value(a) + row_value(z),
    ensures
        r == a,
{
    lemma_value_inj(r, a);
}

/// Subtraction inverts addition: for `a ≥ b`, adding `b` back onto the
/// difference `a − b` gives a row equal to `a`.
pub proof fn lemma_sub_add_inverse(a: Seq<u8>, b: Seq<u8>, d: Seq<u8>, r: Seq<u8>)
    requires
        wf(a),
        wf(r),
        row_value(a) >= row_value(b),
        row_value(d) == row_value(a) - row_value(b),
        row_value(r) == row_value(d) + row_value(b),
    ensures
        r == a,
{
    lemma_value_inj(r, a);
}

/// One is multiplication's identity: multiplying `a` by a one-valued row
/// gives a row equal to `a`.
pub proof fn lemma_mul_one(a: Seq<u8>, one: Seq<u8>, r: Seq<u8>)
    requires
        wf(a),
        wf(r),
        row_value(one) == 1,
        row_value(r) == row_value(a) * row_value(one),
    ensures
        r == a,
{
    assert(row_value(a) * 1 == row_value(a)) by (nonlinear_arith);
    lemma_value_inj(r, a);
}

/// Zero annihilates multiplication: multiplying `a` by a zero-valued row
/// gives the zero row `[0]`.
pub proof fn lemma_mul_zero(a: Seq<u8>, z: Seq<u8>, r: Seq<u8>)
    requires
        wf(r),
        row_value(z) == 0,
        row_value(r) == row_value(a) * row_value(z),
    ensures
        r == seq![0u8],
{
    assert(row_value(a) * 0 == 0) by (nonlinear_arith);
    lemma_value_single(0u8);
    assert(wf(seq![0u8]));
    lemma_value_inj(r, seq![0u8]);
}

/// Division identity: with `divrem`'s contract giving
/// `divisor × quotient + remainder == dividend`, multiplying the divisor
/// by the quotient and adding the remainder back — each step by its own
/// contract — lands on a row equal to the dividend.
pub proof fn lemma_div_identity(
    dividend: Seq<u8>,
    divisor: Seq<u8>,
    quotient: Seq<u8>,
    remainder: Seq<u8>,
    prod: Seq<u8>,
    total: Seq<u8>,
)
    requires
        wf(dividend),
        wf(total),
        row_value(divisor) * row_value(quotient) + row_value(remainder) == row_value(dividend),
        row_value(prod) == row_value(divisor) * row_value(quotient),
        row_value(total) == row_value(prod) + row_value(remainder),
    ensures
        total == dividend,
{
    lemma_value_inj(total, dividend);
}

/// Any power to the exponent zero is one — the zero row included: a row
/// whose value is `x^0` is the row `[1]`.
pub proof fn lemma_pow_zero(x: Seq<u8>, r: Seq<u8>)
    requires
        wf(r),
        row_value(r) == pow_nat(row_value(x), 0),
    ensures
        r == seq![1u8],
{
    lemma_value_single(1u8);
    assert(wf(seq![1u8]));
    lemma_value_inj(r, seq![1u8]);
}

/// The first power is the base itself: a row whose value is `x^1` equals
/// the base row `x`.
pub proof fn lemma_pow_one(x: Seq<u8>, r: Seq<u8>)
    requires
        wf(x),
        wf(r),
        row_value(r) == pow_nat(row_value(x), 1),
    ensures
        r == x,
{
    let b = row_value(x);
    assert(pow_nat(b, 1) == b * pow_nat(b, 0));
    assert(pow_nat(b, 0) == 1);
    assert(b * 1 == b) by (nonlinear_arith);
    lemma_value_inj(r, x);
}

} // verus!
