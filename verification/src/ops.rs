//! The arithmetic operations on digit rows: comparison, addition,
//! subtraction, multiplication, exponentiation and division with remainder.

use vstd::prelude::*;

use crate::column::{addition, clone_row, ones, product, shrink_to_fit_raw};
use crate::value::{
    digits_ok, lemma_no_trailing_zero, lemma_prefix_value_step, lemma_prefix_value_zero,
    lemma_value_bound, lemma_value_lex, lemma_value_msd, lemma_value_single, lemma_value_split,
    lemma_value_take_succ, lemma_wf_len_le, lemma_wf_len_order, pow10, pow_nat, prefix_value,
    row_value, wf,
};
use crate::PlacesRow;
use vstd::pervasive::VecAdditionalExecFns;

verus! {

/// Relation enumeration.
#[derive(Debug, PartialEq, Eq, Structural)]
pub enum Rel {
    Greater,
    Equal,
    Lesser,
}

/// Checks relation of `num` to `comparand`.
///
/// Returns `Rel` relation.
pub fn rel(num: &PlacesRow, comparand: &PlacesRow) -> (r: Rel)
    requires
        wf(num@),
        wf(comparand@),
    ensures
        r == Rel::Greater <==> row_value(num@) > row_value(comparand@),
        r == Rel::Equal <==> row_value(num@) == row_value(comparand@),
        r == Rel::Lesser <==> row_value(num@) < row_value(comparand@),
{
    let r1 = &num.row;
    let r2 = &comparand.row;

    // With no leading zeros, a longer row always holds the larger number;
    // rows of one length compare digit by digit from the most-significant
    // place down.
    let r1_len = r1.len();
    let r2_len = r2.len();

    if r1_len > r2_len {
        proof {
            lemma_wf_len_order(comparand@, num@);
        }
        Rel::Greater
    } else if r1_len == r2_len {
        let mut inx: usize = r2_len;
        loop
            invariant
                r1@ == num@,
                r2@ == comparand@,
                digits_ok(num@),
                digits_ok(comparand@),
                num@.len() == r1_len,
                comparand@.len() == r2_len,
                r1_len == r2_len,
                inx <= r2_len,
                forall|k: int| inx <= k < r2_len ==> num@[k] == comparand@[k],
            ensures
                inx == 0,
                forall|k: int| 0 <= k < r2_len ==> num@[k] == comparand@[k],
            decreases inx,
        {
            if inx == 0 {
                break;
            }
            inx = inx - 1;
            if r1[inx] > r2[inx] {
                proof {
                    lemma_value_lex(num@, comparand@, inx as int);
                }
                return Rel::Greater;
            } else if r1[inx] < r2[inx] {
                proof {
                    lemma_value_lex(comparand@, num@, inx as int);
                }
                return Rel::Lesser;
            }
        }

        proof {
            assert(num@ =~= comparand@);
        }
        Rel::Equal
    } else {
        proof {
            lemma_wf_len_order(num@, comparand@);
        }
        Rel::Lesser
    }
}

/// Computes `addend1` and `addend2` sum.
///
/// Returns `PlacesRow` with result.
pub fn add(addend1: &PlacesRow, addend2: &PlacesRow) -> (r: PlacesRow)
    requires
        wf(addend1@),
        wf(addend2@),
        addend1@.len() + addend2@.len() + 2 <= usize::MAX,
    ensures
        wf(r@),
        row_value(r@) == row_value(addend1@) + row_value(addend2@),
{
    let r1 = &addend1.row;
    let r2 = &addend2.row;

    let (addend, augend) = if r1.len() > r2.len() {
        (r1, r2)
    } else {
        (r2, r1)
    };

    // One extra place holds a contingent final carry; reserving it up front
    // keeps the accumulator's backing storage stable for the whole pass.
    let mut sum: Vec<u8> = Vec::with_capacity(addend.len() + 1);

    addition(addend, Some(augend), &mut sum, 0);

    proof {
        let a = addend@;
        let cap = a.len() as int;
        if sum@.len() == cap + 1 {
            assert(sum@.last() == 1);
        } else {
            assert(sum@.len() == a.len());
            if sum@.len() > 1 {
                lemma_value_msd(a);
                lemma_no_trailing_zero(sum@);
            }
        }
    }
    PlacesRow { row: sum }
}

/// One borrow-propagating column pass of `working − subtrahend` into
/// `diffrem`.  Before the first pass `diffrem` holds scratch zeros and the
/// working value is read from `minuend`; once `populated`, the working value
/// is `diffrem`'s own contents, rewritten in place.  A returned carry of `1`
/// signals that the working value was smaller than the subtrahend: the
/// digits then hold `working + 10^len − subtrahend`, nines above the
/// subtrahend's places.
fn sub_pass(diffrem: &mut Vec<u8>, minuend: &Vec<u8>, subtrahend: &Vec<u8>, populated: bool) -> (t:
    u8)
    requires
        digits_ok(old(diffrem)@),
        digits_ok(minuend@),
        digits_ok(subtrahend@),
        1 <= subtrahend@.len() <= old(diffrem)@.len(),
        old(diffrem)@.len() == minuend@.len(),
    ensures
        ({
            let src = if populated {
                old(diffrem)@
            } else {
                minuend@
            };
            let l = old(diffrem)@.len() as int;
            &&& digits_ok(final(diffrem)@)
            &&& final(diffrem)@.len() == l
            &&& t <= 1
            &&& (t == 0 ==> row_value(src) >= row_value(subtrahend@) && row_value(final(diffrem)@)
                == row_value(src) - row_value(subtrahend@))
            &&& (t == 1 ==> row_value(src) < row_value(subtrahend@) && row_value(final(diffrem)@)
                == row_value(src) + pow10(l as nat) - row_value(subtrahend@) && (forall|k: int|
                subtrahend@.len() <= k < l ==> final(diffrem)@[k] == 9))
        }),
{
    let ghost src: Seq<u8> = if populated {
        diffrem@
    } else {
        minuend@
    };
    let ghost ss = subtrahend@;
    let minuend_len = diffrem.len();
    let subtrahend_len = subtrahend.len();

    let mut takeover: u8 = 0;
    let mut inx: usize = 0;

    proof {
        lemma_prefix_value_zero(ss);
        assert(diffrem@.take(0) =~= Seq::<u8>::empty());
        assert(src.take(0) =~= Seq::<u8>::empty());
        assert(row_value(Seq::<u8>::empty()) == 0);
    }

    loop
        invariant
            minuend@.len() == minuend_len,
            subtrahend@ == ss,
            ss.len() == subtrahend_len,
            1 <= subtrahend_len <= minuend_len,
            src == if populated {
                old(diffrem)@
            } else {
                minuend@
            },
            src.len() == minuend_len,
            digits_ok(src),
            digits_ok(ss),
            digits_ok(diffrem@),
            diffrem@.len() == minuend_len,
            populated ==> forall|k: int| inx <= k < minuend_len ==> diffrem@[k] == src[k],
            inx <= minuend_len,
            takeover <= 1,
            takeover == 1 ==> forall|k: int| subtrahend_len <= k < inx ==> diffrem@[k] == 9,
            row_value(diffrem@.take(inx as int)) == row_value(src.take(inx as int)) - prefix_value(
                ss,
                inx as int,
            ) + (takeover as int) * pow10(inx as nat),
        ensures
            digits_ok(diffrem@),
            diffrem@.len() == minuend_len,
            takeover <= 1,
            takeover == 0 ==> row_value(src) >= row_value(ss) && row_value(diffrem@) == row_value(
                src,
            ) - row_value(ss),
            takeover == 1 ==> row_value(src) < row_value(ss) && row_value(diffrem@) == row_value(
                src,
            ) + pow10(minuend_len as nat) - row_value(ss) && (forall|k: int|
                subtrahend_len <= k < minuend_len ==> diffrem@[k] == 9),
        decreases minuend_len - inx,
    {
        if inx >= minuend_len {
            proof {
                assert(diffrem@.take(minuend_len as int) =~= diffrem@);
                assert(src.take(minuend_len as int) =~= src);
                assert(prefix_value(ss, minuend_len as int) == row_value(ss));
                if takeover == 1 {
                    lemma_value_bound(diffrem@);
                } else {
                    assert(row_value(diffrem@) >= 0);
                }
            }
            break;
        }

        let s_num: u8;
        if inx < subtrahend_len {
            s_num = subtrahend[inx];
        } else if takeover == 0 && populated {
            // The subtrahend is exhausted and no borrow is pending: the
            // remaining places already hold the working value's digits.
            proof {
                let j = inx as int;
                assert(prefix_value(ss, j) == row_value(ss));
                lemma_value_split(diffrem@, j);
                lemma_value_split(src, j);
                assert(diffrem@.skip(j) =~= src.skip(j));
            }
            break;
        } else {
            s_num = 0;
        }

        let m_num = if populated {
            diffrem[inx]
        } else {
            minuend[inx]
        };

        let total_s = s_num + takeover;
        let ghost t_before = takeover;
        let d: u8;
        if m_num < total_s {
            takeover = 1;
            d = m_num + 10 - total_s;
        } else {
            takeover = 0;
            d = m_num - total_s;
        }

        let ghost before = diffrem@;
        diffrem.set(inx, d);

        proof {
            let j = inx as int;
            assert(diffrem@.take(j) =~= before.take(j));
            lemma_value_take_succ(diffrem@, j);
            lemma_value_take_succ(src, j);
            lemma_prefix_value_step(ss, j);
            let p = pow10(j as nat);
            assert(pow10((j + 1) as nat) == 10 * p);
            assert(d == m_num - s_num - t_before + 10 * (takeover as int));
            assert((d as int) * p == (m_num as int) * p - (s_num as int) * p - (t_before as int)
                * p + (takeover as int) * (10 * p)) by (nonlinear_arith)
                requires
                    d == m_num - s_num - t_before + 10 * (takeover as int),
            ;
            assert(src[j] == m_num);
            if j >= subtrahend_len {
                assert(s_num == 0);
            }
        }

        inx += 1;
    }

    takeover
}

/// Undoes the one subtraction turn too many after an overrun pass: re-adds
/// the subtrahend to the low places and drops the nines the borrow chain
/// left above them, leaving exactly the working value the pass started
/// from.
fn overrun_correction(diffrem: &mut Vec<u8>, subtrahend: &Vec<u8>)
    requires
        digits_ok(old(diffrem)@),
        digits_ok(subtrahend@),
        1 <= subtrahend@.len() <= old(diffrem)@.len(),
        forall|k: int| subtrahend@.len() <= k < old(diffrem)@.len() ==> old(diffrem)@[k] == 9,
        row_value(old(diffrem)@.take(subtrahend@.len() as int)) + row_value(subtrahend@) >= pow10(
            subtrahend@.len() as nat,
        ),
    ensures
        digits_ok(final(diffrem)@),
        final(diffrem)@.len() == subtrahend@.len(),
        row_value(final(diffrem)@) == row_value(old(diffrem)@.take(subtrahend@.len() as int))
            + row_value(subtrahend@) - pow10(subtrahend@.len() as nat),
{
    let ghost orig = diffrem@;
    let ghost ss = subtrahend@;
    let subtrahend_len = subtrahend.len();

    let mut takeover: u8 = 0;
    let mut inx: usize = 0;

    proof {
        assert(diffrem@.take(0) =~= Seq::<u8>::empty());
        assert(ss.take(0) =~= Seq::<u8>::empty());
        assert(row_value(Seq::<u8>::empty()) == 0);
    }

    loop
        invariant
            subtrahend@ == ss,
            ss.len() == subtrahend_len,
            1 <= subtrahend_len <= orig.len(),
            digits_ok(orig),
            digits_ok(ss),
            digits_ok(diffrem@),
            diffrem@.len() == orig.len(),
            forall|k: int| inx <= k < orig.len() ==> diffrem@[k] == orig[k],
            inx <= subtrahend_len,
            takeover <= 1,
            row_value(diffrem@.take(inx as int)) + (takeover as nat) * pow10(inx as nat)
                == row_value(orig.take(inx as int)) + row_value(ss.take(inx as int)),
        ensures
            digits_ok(diffrem@),
            diffrem@.len() == orig.len(),
            forall|k: int| subtrahend_len <= k < orig.len() ==> diffrem@[k] == orig[k],
            takeover <= 1,
            row_value(diffrem@.take(subtrahend_len as int)) + (takeover as nat) * pow10(
                subtrahend_len as nat,
            ) == row_value(orig.take(subtrahend_len as int)) + row_value(ss),
        decreases subtrahend_len - inx,
    {
        if inx >= subtrahend_len {
            proof {
                assert(ss.take(subtrahend_len as int) =~= ss);
            }
            break;
        }

        let correction = diffrem[inx] + subtrahend[inx];
        let ghost t_before = takeover;
        let ghost m_num = diffrem@[inx as int];
        let d = ones(correction, &mut takeover);

        let ghost before = diffrem@;
        diffrem.set(inx, d);

        proof {
            let j = inx as int;
            assert(diffrem@.take(j) =~= before.take(j));
            lemma_value_take_succ(diffrem@, j);
            lemma_value_take_succ(orig, j);
            lemma_value_take_succ(ss, j);
            let p = pow10(j as nat);
            assert(pow10((j + 1) as nat) == 10 * p);
            assert(d + 10 * (takeover as int) == m_num + ss[j] + t_before);
            assert((d as int) * p + (takeover as int) * (10 * p) == (m_num as int) * p + (
            ss[j] as int) * p + (t_before as int) * p) by (nonlinear_arith)
                requires
                    d + 10 * (takeover as int) == m_num + ss[j] + t_before,
            ;
        }

        inx += 1;
    }

    // The carry out of the re-addition is always one: it cancels against
    // the borrow that overran the row.  What is left of the low places is
    // the working value itself; everything above is the borrow's nines.
    proof {
        let sl = subtrahend_len as int;
        assert(digits_ok(diffrem@.take(sl)));
        lemma_value_bound(diffrem@.take(sl));
        assert(diffrem@.take(sl).len() == sl);
        assert(takeover == 1);
    }

    diffrem.truncate(subtrahend_len);
    proof {
        assert(diffrem@ == diffrem@.take(subtrahend_len as int).take(subtrahend_len as int));
    }
}

/// For difference computation applies precondition minuend ≥ subtrahend.
/// Returns difference/remainder and ratio in order.
///
/// In single-difference mode (`remainder` false) one subtraction is made
/// and the ratio is one.  In remainder mode the subtrahend is subtracted
/// until the working value drops below it; the row returned first is that
/// remainder, the second the number of turns taken.
pub fn substraction(minuend: &Vec<u8>, subtrahend: &Vec<u8>, remainder: bool) -> (res: (
    Vec<u8>,
    Vec<u8>,
))
    requires
        wf(minuend@),
        wf(subtrahend@),
        row_value(minuend@) >= row_value(subtrahend@),
        remainder ==> row_value(subtrahend@) >= 1,
        minuend@.len() + 3 <= usize::MAX,
    ensures
        wf(res.0@),
        wf(res.1@),
        !remainder ==> row_value(res.0@) == row_value(minuend@) - row_value(subtrahend@)
            && row_value(res.1@) == 1,
        remainder ==> row_value(res.0@) + row_value(subtrahend@) * row_value(res.1@) == row_value(
            minuend@,
        ) && row_value(res.0@) < row_value(subtrahend@),
{
    let ghost ms = minuend@;
    let ghost ss = subtrahend@;

    let mut diffrem_populated = false;

    let minuend_len = minuend.len();
    let subtrahend_len = subtrahend.len();

    proof {
        if ss.len() > ms.len() {
            lemma_wf_len_order(ms, ss);
        }
    }

    let mut diffrem: Vec<u8> = vec![0u8; minuend_len];
    proof {
        assert forall|i: int| 0 <= i < diffrem@.len() implies diffrem@[i] == 0 by {
            assert(cloned(0u8, diffrem@[i]));
        }
    }

    let mut ratio: Vec<u8> = Vec::new();
    ratio.push(0);
    let mut one: Vec<u8> = Vec::new();
    one.push(1);

    proof {
        assert(ratio@ =~= seq![0u8]);
        assert(one@ =~= seq![1u8]);
        lemma_value_single(0u8);
        lemma_value_single(1u8);
    }

    loop
        invariant_except_break
            minuend@ == ms,
            subtrahend@ == ss,
            wf(ms),
            wf(ss),
            row_value(ms) >= row_value(ss),
            remainder ==> row_value(ss) >= 1,
            minuend_len == ms.len(),
            subtrahend_len == ss.len(),
            1 <= subtrahend_len <= minuend_len,
            minuend_len + 3 <= usize::MAX,
            one@ == seq![1u8],
            digits_ok(diffrem@),
            diffrem@.len() == minuend_len,
            wf(ratio@),
            (if diffrem_populated {
                row_value(diffrem@)
            } else {
                row_value(ms)
            }) + row_value(ss) * row_value(ratio@) == row_value(ms),
            !diffrem_populated ==> ratio@ == seq![0u8],
            !remainder ==> !diffrem_populated,
        ensures
            digits_ok(diffrem@),
            1 <= diffrem@.len(),
            wf(ratio@),
            !remainder ==> row_value(diffrem@) == row_value(ms) - row_value(ss) && row_value(
                ratio@,
            ) == 1,
            remainder ==> row_value(diffrem@) + row_value(ss) * row_value(ratio@) == row_value(ms)
                && row_value(diffrem@) < row_value(ss),
        decreases (if diffrem_populated {
            row_value(diffrem@)
        } else {
            row_value(ms)
        }),
    {
        let ghost cur: nat = if diffrem_populated {
            row_value(diffrem@)
        } else {
            row_value(ms)
        };

        let t = sub_pass(&mut diffrem, minuend, subtrahend, diffrem_populated);

        if t == 1 {
            // The working value was exhausted: this turn went one too far.
            proof {
                assert(cur < row_value(ss));
                assert(diffrem_populated);
                let sl = subtrahend_len as int;
                let high = diffrem@.skip(sl);
                lemma_value_split(diffrem@, sl);
                crate::value::lemma_value_all_nines(high);
                crate::value::lemma_pow10_adds(subtrahend_len as nat, (minuend_len
                    - subtrahend_len) as nat);
                assert(row_value(diffrem@.take(sl)) == cur + pow10(subtrahend_len as nat)
                    - row_value(ss)) by (nonlinear_arith)
                    requires
                        row_value(diffrem@) == row_value(diffrem@.take(sl)) + pow10(
                            subtrahend_len as nat,
                        ) * row_value(high),
                        row_value(high) + 1 == pow10((minuend_len - subtrahend_len) as nat),
                        pow10(subtrahend_len as nat) * pow10((minuend_len - subtrahend_len) as nat)
                            == pow10(minuend_len as nat),
                        row_value(diffrem@) == cur + pow10(minuend_len as nat) - row_value(ss),
                ;
            }
            overrun_correction(&mut diffrem, subtrahend);
            break;
        }

        proof {
            assert(cur >= row_value(ss) && row_value(diffrem@) == cur - row_value(ss));
            // The count stays small enough for its row to fit well under
            // the machine's index range.
            if remainder {
                assert(row_value(ratio@) <= row_value(ss) * row_value(ratio@)) by (nonlinear_arith)
                    requires
                        row_value(ss) >= 1,
                ;
                lemma_value_bound(ms);
                lemma_wf_len_le(ratio@, minuend_len as nat);
            }
        }

        let ghost ratio_before = ratio@;
        addition(&one, None, &mut ratio, 0);

        proof {
            lemma_value_single(1u8);
            lemma_value_single(0u8);
            assert(row_value(one@) == 1);
            assert(row_value(ratio@) == row_value(ratio_before) + 1 * pow10(0nat));
            assert(pow10(0nat) == 1);
            let cap = if ratio_before.len() >= 1 {
                ratio_before.len() as int
            } else {
                1
            };
            if ratio@.len() == cap + 1 {
                assert(ratio@.last() == 1);
            } else if ratio@.len() > 1 {
                lemma_value_msd(ratio_before);
                lemma_no_trailing_zero(ratio@);
            }
            assert(wf(ratio@));
            assert(row_value(ss) * (row_value(ratio_before) + 1) == row_value(ss) * row_value(
                ratio_before,
            ) + row_value(ss)) by (nonlinear_arith);
        }

        if !remainder {
            break;
        }

        if !diffrem_populated {
            diffrem_populated = true;
        }
    }

    shrink_to_fit_raw(&mut diffrem);
    (diffrem, ratio)
}

/// Combined method allows to compute multiplication and power using shared
/// code: the result is `row2 × row1^times`.
///
/// Each turn folds every scaled partial product of the multiplier into an
/// intermediate sum, then swaps that sum in as the next multiplicand; the
/// two intermediate buffers ping-pong so neither is reallocated inside the
/// loop.
fn mulmul(row1: &Vec<u8>, row2: &Vec<u8>, times: u16) -> (res: PlacesRow)
    requires
        digits_ok(row1@),
        digits_ok(row2@),
        1 <= row1@.len(),
        1 <= row2@.len(),
        1 <= times,
        2 * (row2@.len() + (times as int) * (row1@.len() + 1)) + 4 <= usize::MAX,
    ensures
        wf(res@),
        row_value(res@) == row_value(row2@) * pow_nat(row_value(row1@), times as nat),
{
    let ghost m1 = row1@;
    let ghost m2 = row2@;

    let mpler = row1;
    let mut mcand = clone_row(row2);

    let mpler_len = mpler.len();

    // Intermediate product of `mcand` and one multiplier digit, and the
    // intermediate sum those products accumulate into.
    let mut i_product: Vec<u8> = Vec::with_capacity(0);
    let mut i_sum: Vec<u8> = Vec::with_capacity(0);

    proof {
        assert(pow_nat(row_value(m1), 0) == 1);
        assert(row_value(m2) * 1 == row_value(m2)) by (nonlinear_arith);
    }

    let mut cntr: u16 = 0;
    loop
        invariant_except_break
            row1@ == m1,
            row2@ == m2,
            digits_ok(m1),
            digits_ok(m2),
            1 <= m1.len(),
            1 <= m2.len(),
            mpler@ == m1,
            mpler_len == m1.len(),
            1 <= times,
            cntr < times,
            digits_ok(mcand@),
            1 <= mcand@.len(),
            mcand@.len() <= m2.len() + (cntr as int) * (m1.len() + 1),
            row_value(mcand@) == row_value(m2) * pow_nat(row_value(m1), cntr as nat),
            i_product@.len() == 0,
            i_sum@.len() == 0,
            2 * (m2.len() + (times as int) * (m1.len() + 1)) + 4 <= usize::MAX,
        ensures
            digits_ok(mcand@),
            1 <= mcand@.len(),
            row_value(mcand@) == row_value(m2) * pow_nat(row_value(m1), times as nat),
        decreases times - cntr,
    {
        let mcand_len = mcand.len();

        proof {
            assert((cntr as int) * (m1.len() + 1) + (m1.len() + 1) <= (times as int) * (m1.len()
                + 1)) by (nonlinear_arith)
                requires
                    cntr < times,
                    m1.len() >= 1,
            ;
        }

        // Pre-sizing the two buffers keeps their backing storage stable
        // across the whole pass: one extra place for a contingent carry,
        // and a product never has more places than its operands together.
        i_product.reserve(mcand_len + 1);
        i_sum.reserve(mcand_len + mpler_len);

        let ghost mc = mcand@;

        proof {
            lemma_prefix_value_zero(m1);
            assert(m1.take(0) =~= Seq::<u8>::empty());
            assert(row_value(Seq::<u8>::empty()) == 0);
            assert(row_value(mc) * 0 == 0) by (nonlinear_arith);
        }

        let mut offset: usize = 0;
        while offset < mpler_len
            invariant
                mpler@ == m1,
                mpler_len == m1.len(),
                digits_ok(m1),
                mcand@ == mc,
                mcand_len == mc.len(),
                1 <= mcand_len,
                digits_ok(mc),
                offset <= mpler_len,
                i_product@.len() == 0,
                digits_ok(i_sum@),
                offset <= i_sum@.len() || offset == 0,
                i_sum@.len() <= offset + mcand_len + 1,
                row_value(i_sum@) == row_value(mc) * row_value(m1.take(offset as int)),
                2 * (m2.len() + (times as int) * (m1.len() + 1)) + 4 <= usize::MAX,
                cntr < times,
                mcand_len <= m2.len() + (cntr as int) * (m1.len() + 1),
                (cntr as int) * (m1.len() + 1) + (m1.len() + 1) <= (times as int) * (m1.len() + 1),
            decreases mpler_len - offset,
        {
            product(mpler[offset], &mcand, &mut i_product);
            let ghost sum_before = i_sum@;
            addition(&i_product, None, &mut i_sum, offset);

            proof {
                lemma_value_take_succ(m1, offset as int);
                let p = pow10(offset as nat);
                let vm = row_value(mc);
                let c = m1[offset as int] as nat;
                assert(row_value(i_sum@) == row_value(sum_before) + (c * vm) * p);
                assert((c * vm) * p == vm * (c * p)) by (nonlinear_arith);
                assert(vm * (row_value(m1.take(offset as int)) + c * p) == vm * row_value(
                    m1.take(offset as int),
                ) + vm * (c * p)) by (nonlinear_arith);
            }

            i_product.clear();
            offset += 1;
        }

        proof {
            assert(m1.take(mpler_len as int) =~= m1);
            let vm = row_value(mc);
            let v1 = row_value(m1);
            let v2 = row_value(m2);
            let e = cntr as nat;
            assert(pow_nat(v1, e + 1) == v1 * pow_nat(v1, e));
            assert((v2 * pow_nat(v1, e)) * v1 == v2 * (v1 * pow_nat(v1, e))) by (nonlinear_arith);
            assert(vm * v1 == v1 * vm) by (nonlinear_arith);
        }

        cntr += 1;
        if cntr == times {
            mcand = i_sum;
            break;
        }

        proof {
            assert((cntr as int) * (m1.len() + 1) == (cntr - 1) as int * (m1.len() + 1) + (m1.len()
                + 1)) by (nonlinear_arith);
        }

        mcand.clear();
        let swp = mcand;
        mcand = i_sum;
        i_sum = swp;
    }

    shrink_to_fit_raw(&mut mcand);
    PlacesRow { row: mcand }
}

/// Computes `factor1` and `factor2` product.
///
/// Returns `PlacesRow` with result.
pub fn mul(factor1: &PlacesRow, factor2: &PlacesRow) -> (r: PlacesRow)
    requires
        wf(factor1@),
        wf(factor2@),
        2 * (factor1@.len() + factor2@.len()) + 8 <= usize::MAX,
    ensures
        wf(r@),
        row_value(r@) == row_value(factor1@) * row_value(factor2@),
{
    let r = mulmul(&factor1.row, &factor2.row, 1);
    proof {
        let v1 = row_value(factor1@);
        let v2 = row_value(factor2@);
        assert(pow_nat(v1, 0) == 1);
        assert(pow_nat(v1, 1) == v1 * pow_nat(v1, 0));
        assert(v2 * (v1 * 1) == v1 * v2) by (nonlinear_arith);
    }
    r
}

/// Computes power `pow` of `base`.
///
/// Potentially CPU, memory intensive.
///
/// Returns `PlacesRow` with result.
pub fn pow(base: &PlacesRow, exponent: u16) -> (r: PlacesRow)
    requires
        wf(base@),
        2 * (base@.len() + (exponent as int) * (base@.len() + 1)) + 4 <= usize::MAX,
    ensures
        wf(r@),
        row_value(r@) == pow_nat(row_value(base@), exponent as nat),
{
    let row = &base.row;
    if exponent == 0 {
        let mut one_row: Vec<u8> = Vec::new();
        one_row.push(1);
        proof {
            assert(one_row@ =~= seq![1u8]);
            lemma_value_single(1u8);
        }
        return PlacesRow { row: one_row };
    } else if exponent == 1 {
        proof {
            let b = row_value(base@);
            assert(pow_nat(b, 0) == 1);
            assert(pow_nat(b, 1) == b * pow_nat(b, 0));
            assert(b * 1 == b) by (nonlinear_arith);
        }
        return PlacesRow { row: clone_row(row) };
    }

    proof {
        let l = base@.len() as int;
        assert(((exponent - 1) as int) * (l + 1) <= (exponent as int) * (l + 1))
            by (nonlinear_arith)
            requires
                l >= 1,
                exponent >= 2,
        ;
    }
    let r = mulmul(row, row, exponent - 1);
    proof {
        let b = row_value(base@);
        assert(pow_nat(b, exponent as nat) == b * pow_nat(b, (exponent - 1) as nat));
        assert(b * pow_nat(b, (exponent - 1) as nat) == pow_nat(b, (exponent - 1) as nat) * b)
            by (nonlinear_arith);
    }
    r
}

/// Computes `minuend` and `subtrahend` difference.
///
/// Returns difference `PlacesRow` if `minuend` ≥ `subtrahend`, `None`
/// otherwise.
pub fn sub(minuend: &PlacesRow, subtrahend: &PlacesRow) -> (res: Option<PlacesRow>)
    requires
        wf(minuend@),
        wf(subtrahend@),
        minuend@.len() + 3 <= usize::MAX,
    ensures
        res is None <==> row_value(minuend@) < row_value(subtrahend@),
        res matches Some(diff) ==> wf(diff@) && row_value(diff@) == row_value(minuend@)
            - row_value(subtrahend@),
{
    let relation = rel(minuend, subtrahend);

    if relation == Rel::Lesser {
        None
    } else if relation == Rel::Equal {
        Some(PlacesRow::zero())
    } else {
        let min_row = &minuend.row;
        let sub_row = &subtrahend.row;
        let diff = substraction(min_row, sub_row, false).0;
        Some(PlacesRow { row: diff })
    }
}

/// Computes `dividend` and `divisor` ratio and remainder.
///
/// Returns tuple with `PlacesRow` ratio and `PlacesRow` remainder in order,
/// or `None` when `divisor` is zero.
pub fn divrem(dividend: &PlacesRow, divisor: &PlacesRow) -> (res: Option<(PlacesRow, PlacesRow)>)
    requires
        wf(dividend@),
        wf(divisor@),
        dividend@.len() + 3 <= usize::MAX,
    ensures
        res is None <==> row_value(divisor@) == 0,
        res matches Some(qr) ==> wf(qr.0@) && wf(qr.1@) && row_value(divisor@) * row_value(qr.0@)
            + row_value(qr.1@) == row_value(dividend@) && row_value(qr.1@) < row_value(divisor@),
{
    let zero = PlacesRow::zero();
    if *divisor == zero {
        proof {
            lemma_value_single(0u8);
        }
        return None;
    }

    proof {
        lemma_value_single(0u8);
        if row_value(divisor@) == 0 {
            crate::value::lemma_value_inj(divisor@, seq![0u8]);
        }
    }

    let relation = rel(dividend, divisor);

    let res = if relation == Rel::Lesser {
        proof {
            assert(row_value(divisor@) * 0 == 0) by (nonlinear_arith);
        }
        (zero, dividend.clone())
    } else if relation == Rel::Equal {
        let mut one_row: Vec<u8> = Vec::new();
        one_row.push(1);
        proof {
            assert(one_row@ =~= seq![1u8]);
            lemma_value_single(1u8);
            assert(row_value(divisor@) * 1 == row_value(divisor@)) by (nonlinear_arith);
        }
        (PlacesRow { row: one_row }, zero)
    } else {
        let remratio = substraction(&dividend.row, &divisor.row, true);
        proof {
            assert(row_value(divisor@) * row_value(remratio.1@) == row_value(remratio.1@)
                * row_value(divisor@)) by (nonlinear_arith);
        }
        (PlacesRow { row: remratio.1 }, PlacesRow { row: remratio.0 })
    };

    Some(res)
}

} // verus!
