//! Mathematical model of a digit row.
//!
//! A row is a sequence of decimal digits in little-endian order: index 0 is
//! the ones place, the last index is the most significant place.  The spec
//! functions here give a row its numeric value and state the two invariants
//! every constructed row keeps: all elements are digits, and there is no
//! leading (most-significant) zero except in the one-element row `[0]`.

use vstd::prelude::*;

verus! {

/// Every element of the sequence is a decimal digit.
pub open spec fn digits_ok(s: Seq<u8>) -> bool {
    forall|i: int| 0 <= i < s.len() ==> s[i] <= 9
}

/// Non-empty and free of leading (most-significant) zeros; the value zero is
/// represented as the single-element row `[0]`.
pub open spec fn normalized(s: Seq<u8>) -> bool {
    s.len() >= 1 && (s.len() == 1 || s[s.len() - 1] != 0)
}

/// A well-formed row: decimal digits only, normalized.
pub open spec fn wf(s: Seq<u8>) -> bool {
    digits_ok(s) && normalized(s)
}

/// Ten to the power `n`.
pub open spec fn pow10(n: nat) -> nat
    decreases n,
{
    if n == 0 {
        1
    } else {
        10 * pow10((n - 1) as nat)
    }
}

/// Numeric value of a little-endian digit row.
pub open spec fn row_value(s: Seq<u8>) -> nat
    decreases s.len(),
{
    if s.len() == 0 {
        0
    } else {
        row_value(s.drop_last()) + (s.last() as nat) * pow10((s.len() - 1) as nat)
    }
}

/// `b` to the power `e` over the naturals.
pub open spec fn pow_nat(b: nat, e: nat) -> nat
    decreases e,
{
    if e == 0 {
        1
    } else {
        b * pow_nat(b, (e - 1) as nat)
    }
}

pub proof fn lemma_pow10_pos(n: nat)
    ensures
        pow10(n) >= 1,
    decreases n,
{
    if n > 0 {
        lemma_pow10_pos((n - 1) as nat);
    }
}

pub proof fn lemma_pow10_mono(a: nat, b: nat)
    requires
        a <= b,
    ensures
        pow10(a) <= pow10(b),
    decreases b,
{
    if a < b {
        lemma_pow10_mono(a, (b - 1) as nat);
        lemma_pow10_pos((b - 1) as nat);
    }
}

pub proof fn lemma_pow10_adds(a: nat, b: nat)
    ensures
        pow10(a + b) == pow10(a) * pow10(b),
    decreases a,
{
    if a == 0 {
        assert(pow10(0) * pow10(b) == pow10(b)) by (nonlinear_arith);
    } else {
        lemma_pow10_adds((a - 1) as nat, b);
        assert((a + b - 1) as nat == (a - 1) as nat + b);
        assert(10 * (pow10((a - 1) as nat) * pow10(b)) == (10 * pow10((a - 1) as nat)) * pow10(b))
            by (nonlinear_arith);
    }
}

/// The value of a row is below ten to its length.
pub proof fn lemma_value_bound(s: Seq<u8>)
    requires
        digits_ok(s),
    ensures
        row_value(s) < pow10(s.len()),
    decreases s.len(),
{
    if s.len() == 0 {
    } else {
        let l = (s.len() - 1) as nat;
        assert(digits_ok(s.drop_last()));
        lemma_value_bound(s.drop_last());
        lemma_pow10_pos(l);
        assert((s.last() as nat) * pow10(l) <= 9 * pow10(l)) by (nonlinear_arith)
            requires
                s.last() <= 9,
                pow10(l) >= 1,
        ;
    }
}

/// A row whose most-significant digit is non-zero is at least ten to the
/// power of its length less one.
pub proof fn lemma_value_msd(s: Seq<u8>)
    requires
        s.len() >= 1,
        s.last() >= 1,
    ensures
        row_value(s) >= pow10((s.len() - 1) as nat),
{
    let l = (s.len() - 1) as nat;
    lemma_pow10_pos(l);
    assert((s.last() as nat) * pow10(l) >= pow10(l)) by (nonlinear_arith)
        requires
            s.last() >= 1,
            pow10(l) >= 1,
    ;
}

/// A row of digits whose value reaches ten to the power of its length less
/// one cannot end in a zero digit: its most-significant digit is non-zero.
pub proof fn lemma_no_trailing_zero(s: Seq<u8>)
    requires
        digits_ok(s),
        s.len() >= 2,
        row_value(s) >= pow10((s.len() - 1) as nat),
    ensures
        s.last() != 0,
{
    if s.last() == 0 {
        assert(digits_ok(s.drop_last()));
        lemma_value_bound(s.drop_last());
        assert(row_value(s) == row_value(s.drop_last()));
    }
}

/// Appending a digit at the most-significant end adds its weighted value.
pub proof fn lemma_value_push(s: Seq<u8>, d: u8)
    ensures
        row_value(s.push(d)) == row_value(s) + (d as nat) * pow10(s.len()),
{
    assert(s.push(d).drop_last() =~= s);
    assert(s.push(d).last() == d);
}

/// Extending a prefix by one digit adds that digit's weighted value.
pub proof fn lemma_value_take_succ(s: Seq<u8>, i: int)
    requires
        0 <= i < s.len(),
    ensures
        row_value(s.take(i + 1)) == row_value(s.take(i)) + (s[i] as nat) * pow10(i as nat),
{
    assert(s.take(i + 1).drop_last() =~= s.take(i));
    assert(s.take(i + 1).last() == s[i]);
}

/// A row splits at any position into its low prefix and its high suffix.
pub proof fn lemma_value_split(s: Seq<u8>, i: int)
    requires
        0 <= i <= s.len(),
    ensures
        row_value(s) == row_value(s.take(i)) + pow10(i as nat) * row_value(s.skip(i)),
    decreases s.len(),
{
    if i == s.len() {
        assert(s.take(i) =~= s);
        assert(s.skip(i) =~= Seq::<u8>::empty());
        assert(pow10(i as nat) * 0 == 0) by (nonlinear_arith);
    } else {
        let dl = s.drop_last();
        let l = (s.len() - 1) as nat;
        lemma_value_split(dl, i);
        assert(dl.take(i) =~= s.take(i));
        assert(s.skip(i) =~= dl.skip(i).push(s.last()));
        lemma_value_push(dl.skip(i), s.last());
        lemma_pow10_adds(i as nat, (l - i) as nat);
        assert(dl.skip(i).len() == l - i);
        assert(pow10(i as nat) * (row_value(dl.skip(i)) + (s.last() as nat) * pow10((l - i) as nat))
            == pow10(i as nat) * row_value(dl.skip(i)) + (s.last() as nat) * (pow10(i as nat)
            * pow10((l - i) as nat))) by (nonlinear_arith);
    }
}

/// The value of a one-digit row is its digit.
pub proof fn lemma_value_single(d: u8)
    ensures
        row_value(seq![d]) == d as nat,
{
    reveal_with_fuel(row_value, 2);
    let s = seq![d];
    assert(s.len() == 1);
    assert(s.drop_last() =~= Seq::<u8>::empty());
    assert(row_value(s.drop_last()) == 0);
    assert(s.last() == d);
    assert(pow10(0) == 1);
    assert(row_value(s) == row_value(s.drop_last()) + (s.last() as nat) * pow10(0nat));
}

/// A row of zero digits has value zero.
pub proof fn lemma_value_all_zero(s: Seq<u8>)
    requires
        forall|i: int| 0 <= i < s.len() ==> s[i] == 0,
    ensures
        row_value(s) == 0,
    decreases s.len(),
{
    if s.len() > 0 {
        lemma_value_all_zero(s.drop_last());
    }
}

/// Value of the first `j` digits of a row; the whole row once `j` passes its
/// length.  Column passes consume their operands through this function, one
/// place per step.
pub open spec fn prefix_value(s: Seq<u8>, j: int) -> nat {
    if j < s.len() {
        row_value(s.take(j))
    } else {
        row_value(s)
    }
}

/// Taking one more digit into a prefix adds that digit's weighted value.
pub proof fn lemma_prefix_value_step(s: Seq<u8>, j: int)
    requires
        0 <= j,
    ensures
        prefix_value(s, j + 1) == prefix_value(s, j) + (if j < s.len() {
            (s[j] as nat) * pow10(j as nat)
        } else {
            0nat
        }),
{
    if j < s.len() {
        lemma_value_take_succ(s, j);
        if j + 1 >= s.len() {
            assert(s.take(j + 1) =~= s);
        }
    }
}

/// A prefix of length zero has value zero.
pub proof fn lemma_prefix_value_zero(s: Seq<u8>)
    ensures
        prefix_value(s, 0) == 0,
{
    if s.len() > 0 {
        assert(s.take(0) =~= Seq::<u8>::empty());
    }
    assert(row_value(Seq::<u8>::empty()) == 0);
}

/// A row of nine digits has the largest value of its length.
pub proof fn lemma_value_all_nines(s: Seq<u8>)
    requires
        forall|i: int| 0 <= i < s.len() ==> s[i] == 9,
    ensures
        row_value(s) + 1 == pow10(s.len()),
    decreases s.len(),
{
    if s.len() == 0 {
    } else {
        let p = pow10((s.len() - 1) as nat);
        lemma_value_all_nines(s.drop_last());
        assert((p - 1) + (9 as nat) * p + 1 == 10 * p) by (nonlinear_arith);
    }
}

/// Cutting zero digits off the most-significant end keeps the value.
pub proof fn lemma_truncate_zeros(s: Seq<u8>, k: int)
    requires
        0 <= k <= s.len(),
        forall|j: int| k <= j < s.len() ==> s[j] == 0,
    ensures
        row_value(s.take(k)) == row_value(s),
{
    lemma_value_split(s, k);
    lemma_value_all_zero(s.skip(k));
    assert(pow10(k as nat) * 0 == 0) by (nonlinear_arith);
}

/// The character that renders the decimal digit `d`.
pub open spec fn digit_char(d: u8) -> char {
    if d == 0 {
        '0'
    } else if d == 1 {
        '1'
    } else if d == 2 {
        '2'
    } else if d == 3 {
        '3'
    } else if d == 4 {
        '4'
    } else if d == 5 {
        '5'
    } else if d == 6 {
        '6'
    } else if d == 7 {
        '7'
    } else if d == 8 {
        '8'
    } else {
        '9'
    }
}

/// The decimal text of a row: its digits as characters, most-significant
/// place first.
pub open spec fn text_of(s: Seq<u8>) -> Seq<char> {
    Seq::new(s.len(), |i: int| digit_char(s[s.len() - 1 - i]))
}

/// Whether `c` is a decimal digit character.
pub open spec fn is_digit_char(c: char) -> bool {
    48 <= c as u32 <= 57
}

/// The decimal digit a digit character denotes.
pub open spec fn char_digit(c: char) -> u8 {
    ((c as u32) - 48) as u8
}

/// The row a run of digit characters denotes, ones place from the last
/// character.
pub open spec fn digits_of_text(t: Seq<char>) -> Seq<u8> {
    Seq::new(t.len(), |i: int| char_digit(t[t.len() - 1 - i]))
}

/// How many `'0'` characters the text starts with.
pub open spec fn leading_zeros(t: Seq<char>) -> int
    decreases t.len(),
{
    if t.len() == 0 || t[0] as u32 != 48 {
        0
    } else {
        1 + leading_zeros(t.skip(1))
    }
}

/// `leading_zeros` is pinned down by what the text looks like: zeros up to
/// a position, then something else or the end.
pub proof fn lemma_leading_zeros_is(t: Seq<char>, k: int)
    requires
        0 <= k <= t.len(),
        forall|j: int| 0 <= j < k ==> t[j] as u32 == 48,
        k == t.len() || t[k] as u32 != 48,
    ensures
        leading_zeros(t) == k,
    decreases t.len(),
{
    if k == 0 {
    } else {
        let u = t.skip(1);
        assert(t[0] as u32 == 48);
        assert(forall|j: int| 0 <= j < k - 1 ==> u[j] == t[j + 1] && u[j] as u32 == 48);
        if k - 1 < u.len() {
            assert(u[k - 1] == t[k]);
        }
        lemma_leading_zeros_is(u, k - 1);
    }
}

/// The position of the last character that is not a decimal digit.
pub open spec fn last_nondigit(t: Seq<char>) -> int
    decreases t.len(),
{
    if t.len() == 0 {
        -1
    } else if !is_digit_char(t.last()) {
        t.len() - 1
    } else {
        last_nondigit(t.drop_last())
    }
}

/// `last_nondigit` is pinned down by a non-digit with only digits above it.
pub proof fn lemma_last_nondigit_is(t: Seq<char>, j: int)
    requires
        0 <= j < t.len(),
        !is_digit_char(t[j]),
        forall|k: int| j < k < t.len() ==> is_digit_char(t[k]),
    ensures
        last_nondigit(t) == j,
    decreases t.len(),
{
    if j == t.len() - 1 {
    } else {
        assert(is_digit_char(t.last()));
        let u = t.drop_last();
        assert(u[j] == t[j]);
        assert(forall|k: int| j < k < u.len() ==> u[k] == t[k] && is_digit_char(u[k]));
        lemma_last_nondigit_is(u, j);
    }
}

/// Rows of equal length and equal value are equal digit for digit.
proof fn lemma_value_inj_same_len(s1: Seq<u8>, s2: Seq<u8>)
    requires
        digits_ok(s1),
        digits_ok(s2),
        s1.len() == s2.len(),
        row_value(s1) == row_value(s2),
    ensures
        s1 == s2,
    decreases s1.len(),
{
    if s1.len() == 0 {
        assert(s1 =~= s2);
    } else {
        let l = (s1.len() - 1) as nat;
        let p = pow10(l);
        assert(digits_ok(s1.drop_last()));
        assert(digits_ok(s2.drop_last()));
        lemma_value_bound(s1.drop_last());
        lemma_value_bound(s2.drop_last());
        lemma_pow10_pos(l);
        assert(s1.last() == s2.last() && row_value(s1.drop_last()) == row_value(s2.drop_last()))
            by (nonlinear_arith)
            requires
                row_value(s1.drop_last()) + (s1.last() as nat) * p == row_value(s2.drop_last()) + (
                s2.last() as nat) * p,
                row_value(s1.drop_last()) < p,
                row_value(s2.drop_last()) < p,
                p >= 1,
        ;
        lemma_value_inj_same_len(s1.drop_last(), s2.drop_last());
        assert forall|i: int| 0 <= i < s1.len() implies s1[i] == s2[i] by {
            if i < s1.len() - 1 {
                assert(s1[i] == s1.drop_last()[i]);
                assert(s2[i] == s2.drop_last()[i]);
            }
        }
        assert(s1 =~= s2);
    }
}

/// A value has exactly one well-formed row representation.
pub proof fn lemma_value_inj(s1: Seq<u8>, s2: Seq<u8>)
    requires
        wf(s1),
        wf(s2),
        row_value(s1) == row_value(s2),
    ensures
        s1 == s2,
{
    if s1.len() < s2.len() {
        lemma_wf_len_order(s1, s2);
    } else if s2.len() < s1.len() {
        lemma_wf_len_order(s2, s1);
    } else {
        lemma_value_inj_same_len(s1, s2);
    }
}

/// Digit rows of equal length compare as their digits do from the
/// most-significant position down: a larger digit above agreement wins.
pub proof fn lemma_value_lex(s1: Seq<u8>, s2: Seq<u8>, i: int)
    requires
        digits_ok(s1),
        digits_ok(s2),
        s1.len() == s2.len(),
        0 <= i < s1.len(),
        s1[i] > s2[i],
        forall|k: int| i < k < s1.len() ==> s1[k] == s2[k],
    ensures
        row_value(s1) > row_value(s2),
    decreases s1.len(),
{
    let l = s1.len() - 1;
    let p = pow10(l as nat);
    assert(digits_ok(s1.drop_last()));
    assert(digits_ok(s2.drop_last()));
    if i == l {
        lemma_value_bound(s2.drop_last());
        lemma_pow10_pos(l as nat);
        assert(row_value(s1.drop_last()) + (s1.last() as nat) * p > row_value(s2.drop_last()) + (
        s2.last() as nat) * p) by (nonlinear_arith)
            requires
                s1.last() > s2.last(),
                row_value(s2.drop_last()) < p,
                p >= 1,
        ;
    } else {
        assert(forall|k: int|
            i < k < s1.drop_last().len() ==> s1.drop_last()[k] == s2.drop_last()[k]);
        assert(s1.drop_last()[i] == s1[i] && s2.drop_last()[i] == s2[i]);
        lemma_value_lex(s1.drop_last(), s2.drop_last(), i);
        assert(s1.last() == s2.last());
    }
}

/// A well-formed row whose value stays under ten to the power `n` has at
/// most `n` digits.
pub proof fn lemma_wf_len_le(s: Seq<u8>, n: nat)
    requires
        wf(s),
        row_value(s) < pow10(n),
    ensures
        s.len() <= n || s.len() == 1,
{
    if s.len() > 1 && s.len() > n {
        lemma_value_msd(s);
        lemma_pow10_mono(n, (s.len() - 1) as nat);
    }
}

/// Among well-formed rows, a strictly shorter row has a strictly smaller
/// value.
pub proof fn lemma_wf_len_order(s1: Seq<u8>, s2: Seq<u8>)
    requires
        wf(s1),
        wf(s2),
        s1.len() < s2.len(),
    ensures
        row_value(s1) < row_value(s2),
{
    lemma_value_bound(s1);
    lemma_value_msd(s2);
    lemma_pow10_mono(s1.len(), (s2.len() - 1) as nat);
}

} // verus!
