//! Column primitives shared by every arithmetic operation: the digit/carry
//! split, column addition with positional offset, the single-digit scaled
//! product, and the normalization helpers that trim a row's most-significant
//! end.

use vstd::prelude::*;

use crate::value::{
    digits_ok, lemma_prefix_value_step, lemma_prefix_value_zero, lemma_truncate_zeros,
    lemma_value_push, lemma_value_split, lemma_value_take_succ, normalized, pow10, prefix_value,
    row_value,
};
use vstd::pervasive::VecAdditionalExecFns;

verus! {

/// Splits a raw digit-position total into its ones digit and its carry.
/// Takes the current size of place `num`, adds takeover `takeover_ref` to
/// it, returns ones of the summation and sets `takeover_ref` up with the
/// tens of the summation.
pub fn ones(num: u8, takeover_ref: &mut u8) -> (r: u8)
    requires
        num + *old(takeover_ref) <= 255,
    ensures
        r == (num + *old(takeover_ref)) % 10,
        *final(takeover_ref) == (num + *old(takeover_ref)) / 10,
        r <= 9,
{
    let takeover_val: u8 = *takeover_ref;
    let total = num + takeover_val;

    proof {
        assert(total / 10 * 10 <= total && total - total / 10 * 10 == total % 10 && total % 10 <= 9)
            by (nonlinear_arith);
    }
    let takeover_new = total / 10;
    *takeover_ref = takeover_new;

    total - takeover_new * 10
}

/// Adds `addend_1` to `sum`, or adds `addend_1` and `addend_2` into `sum`.
///
/// With two addends the accumulator must start empty, `addend_1` must be the
/// longer-or-equal operand and `offset` must be `0`.  With one addend the
/// digits of `addend_1` are accumulated into `sum` in place, shifted up by
/// `offset` places.
#[verifier::rlimit(100)]
pub fn addition(addend_1: &Vec<u8>, addend_2: Option<&Vec<u8>>, sum: &mut Vec<u8>, offset: usize)
    requires
        digits_ok(addend_1@),
        old(sum)@.len() + addend_1@.len() + offset + 2 <= usize::MAX,
        addend_2 matches Some(a2) ==> digits_ok(a2@) && old(sum)@.len() == 0 && a2@.len()
            <= addend_1@.len() && offset == 0,
        addend_2 is None ==> digits_ok(old(sum)@) && offset <= old(sum)@.len(),
    ensures
        digits_ok(final(sum)@),
        final(sum)@.len() >= old(sum)@.len(),
        final(sum)@.len() >= offset + addend_1@.len(),
        ({
            let cap = if old(sum)@.len() >= offset + addend_1@.len() {
                old(sum)@.len() as int
            } else {
                offset + addend_1@.len()
            };
            final(sum)@.len() <= cap + 1 && (final(sum)@.len() == cap + 1 ==> final(sum)@.last()
                == 1)
        }),
        addend_2 matches Some(a2) ==> row_value(final(sum)@) == row_value(addend_1@) + row_value(
            a2@,
        ),
        addend_2 is None ==> row_value(final(sum)@) == row_value(old(sum)@) + row_value(addend_1@)
            * pow10(offset as nat),
{
    let ghost ov = old(sum)@;
    let ghost a1s = addend_1@;
    let ghost a2s: Seq<u8> = match addend_2 {
        Some(a2) => a2@,
        None => Seq::<u8>::empty(),
    };
    let ghost two = addend_2 is Some;
    let ghost cap: int = if ov.len() >= offset + a1s.len() {
        ov.len() as int
    } else {
        offset + a1s.len()
    };

    let addend_1_len = addend_1.len();

    let mut takeover: u8 = 0;
    let mut addend_1_inx: usize = 0;
    let mut addend_2_inx: usize = offset;

    proof {
        lemma_prefix_value_zero(a1s);
        lemma_prefix_value_zero(a2s);
        if offset < ov.len() {
            assert(prefix_value(ov, offset as int) == row_value(sum@.take(offset as int)));
        } else {
            assert(sum@.take(offset as int) =~= sum@);
        }
    }

    loop
        invariant
            ov.len() + a1s.len() + offset + 2 <= usize::MAX,
            cap == if ov.len() >= offset + a1s.len() {
                ov.len() as int
            } else {
                offset + a1s.len()
            },
            addend_1@ == a1s,
            addend_1_len == a1s.len(),
            digits_ok(a1s),
            two ==> digits_ok(a2s) && ov.len() == 0 && a2s.len() <= a1s.len() && offset == 0,
            !two ==> digits_ok(ov) && offset <= ov.len() && a2s.len() == 0,
            addend_2 matches Some(a2) ==> a2@ == a2s,
            two == (addend_2 is Some),
            addend_2_inx == offset + addend_1_inx,
            addend_2_inx <= cap + 1,
            takeover <= 1,
            digits_ok(sum@),
            sum@.len() == if ov.len() >= addend_2_inx {
                ov.len() as int
            } else {
                addend_2_inx as int
            },
            forall|k: int| addend_2_inx <= k < ov.len() ==> sum@[k] == ov[k],
            addend_2_inx == cap + 1 ==> takeover == 0 && sum@.last() == 1,
            row_value(sum@.take(addend_2_inx as int)) + (takeover as nat) * pow10(
                addend_2_inx as nat,
            ) == prefix_value(ov, addend_2_inx as int) + prefix_value(a1s, addend_1_inx as int)
                * pow10(offset as nat) + prefix_value(a2s, addend_2_inx as int),
        ensures
            addend_1_inx >= addend_1_len,
            takeover == 0,
            digits_ok(sum@),
            addend_2_inx <= cap + 1,
            addend_2_inx == cap + 1 ==> sum@.last() == 1,
            sum@.len() == if ov.len() >= addend_2_inx {
                ov.len() as int
            } else {
                addend_2_inx as int
            },
            forall|k: int| addend_2_inx <= k < ov.len() ==> sum@[k] == ov[k],
            row_value(sum@.take(addend_2_inx as int)) == prefix_value(ov, addend_2_inx as int)
                + row_value(a1s) * pow10(offset as nat) + prefix_value(a2s, addend_2_inx as int),
        decreases cap + 2 - addend_2_inx,
    {
        let addend_1_available = addend_1_inx < addend_1_len;
        if !addend_1_available && takeover == 0 {
            break;
        }

        let addend_1_num = if addend_1_available {
            addend_1[addend_1_inx]
        } else {
            0
        };

        let addend_2_num = match addend_2 {
            Some(addend) => {
                if addend_2_inx < addend.len() {
                    addend[addend_2_inx]
                } else {
                    0
                }
            },
            None => {
                if addend_2_inx < sum.len() {
                    sum[addend_2_inx]
                } else {
                    0
                }
            },
        };

        let ghost sum_before = sum@;
        let ghost t_before = takeover;
        let ghost j = addend_2_inx as int;

        let add = ones(addend_2_num + addend_1_num, &mut takeover);

        if addend_2_inx < sum.len() {
            sum.set(addend_2_inx, add);
        } else {
            sum.push(add);
        }

        proof {
            assert(sum@.take(j) =~= sum_before.take(j));
            assert(sum@.take(j + 1) =~= sum@.take(j).push(add));
            lemma_value_take_succ(sum@, j);
            lemma_prefix_value_step(ov, j);
            lemma_prefix_value_step(a1s, addend_1_inx as int);
            lemma_prefix_value_step(a2s, j);
            let p = pow10(j as nat);
            assert(pow10((j + 1) as nat) == 10 * p);
            let total = (addend_2_num + addend_1_num + t_before) as nat;
            assert(add + 10 * (takeover as nat) == total);
            assert((add as nat) * p + (takeover as nat) * (10 * p) == total * p)
                by (nonlinear_arith)
                requires
                    add + 10 * (takeover as nat) == total,
            ;
            assert(total * p == (addend_2_num as nat) * p + (addend_1_num as nat) * p + (
            t_before as nat) * p) by (nonlinear_arith)
                requires
                    total == addend_2_num + addend_1_num + t_before,
            ;
            if addend_1_inx < addend_1_len {
                crate::value::lemma_pow10_adds(addend_1_inx as nat, offset as nat);
                assert((a1s[addend_1_inx as int] as nat) * pow10(addend_1_inx as nat) * pow10(
                    offset as nat,
                ) == (a1s[addend_1_inx as int] as nat) * p) by (nonlinear_arith)
                    requires
                        pow10(addend_1_inx as nat) * pow10(offset as nat) == p,
                ;
                assert((prefix_value(a1s, addend_1_inx as int) + (a1s[addend_1_inx as int] as nat)
                    * pow10(addend_1_inx as nat)) * pow10(offset as nat) == prefix_value(
                    a1s,
                    addend_1_inx as int,
                ) * pow10(offset as nat) + (a1s[addend_1_inx as int] as nat) * (pow10(
                    addend_1_inx as nat,
                ) * pow10(offset as nat))) by (nonlinear_arith);
            }
            if j >= cap {
                assert(addend_1_num == 0);
                assert(addend_2_num == 0);
                assert(t_before == 1);
                assert(add == 1 && takeover == 0);
            }
        }

        addend_1_inx += 1;
        addend_2_inx += 1;
    }

    proof {
        let j = addend_2_inx as int;
        if j >= ov.len() {
            assert(sum@.take(j) =~= sum@);
        } else {
            lemma_value_split(sum@, j);
            lemma_value_split(ov, j);
            assert(sum@.skip(j) =~= ov.skip(j));
            assert(prefix_value(ov, j) == row_value(ov.take(j)));
        }
        if two {
            assert(prefix_value(a2s, j) == row_value(a2s));
            assert(prefix_value(ov, j) == row_value(ov));
            assert(row_value(a1s) * pow10(0nat) == row_value(a1s)) by (nonlinear_arith);
        }
    }
}

/// Computes the scaled product of the single digit `mpler` and the row
/// `mcand`, appending a final carry digit if one remains.
pub fn product(mpler: u8, mcand: &Vec<u8>, product: &mut Vec<u8>)
    requires
        mpler <= 9,
        digits_ok(mcand@),
        old(product)@.len() == 0,
        mcand@.len() + 1 <= usize::MAX,
    ensures
        digits_ok(final(product)@),
        row_value(final(product)@) == (mpler as nat) * row_value(mcand@),
        mcand@.len() <= final(product)@.len() <= mcand@.len() + 1,
        final(product)@.len() == mcand@.len() + 1 ==> final(product)@.last() != 0,
{
    let ghost ms = mcand@;
    let mut takeover: u8 = 0;

    proof {
        assert(row_value(ms.take(0)) == 0) by {
            assert(ms.take(0) =~= Seq::<u8>::empty());
        }
        assert((mpler as nat) * 0 == 0) by (nonlinear_arith);
    }

    let mcand_len = mcand.len();
    let mut inx: usize = 0;
    while inx < mcand_len
        invariant
            mcand@ == ms,
            mcand_len == ms.len(),
            mpler <= 9,
            digits_ok(ms),
            inx <= mcand_len,
            takeover <= 8,
            product@.len() == inx,
            digits_ok(product@),
            row_value(product@) + (takeover as nat) * pow10(inx as nat) == (mpler as nat)
                * row_value(ms.take(inx as int)),
        decreases mcand_len - inx,
    {
        let num = mcand[inx];
        proof {
            assert(mpler * num <= 81) by (nonlinear_arith)
                requires
                    mpler <= 9,
                    num <= 9,
            ;
        }
        let prod = mpler * num;
        let ghost t_before = takeover;
        let prod = ones(prod, &mut takeover);

        let ghost before = product@;
        product.push(prod);

        proof {
            assert(takeover <= 8) by (nonlinear_arith)
                requires
                    takeover == (mpler * num + t_before) / 10,
                    mpler * num <= 81,
                    t_before <= 8,
            ;
            lemma_value_push(before, prod);
            lemma_value_take_succ(ms, inx as int);
            let p = pow10(inx as nat);
            assert(pow10((inx + 1) as nat) == 10 * p);
            let total = (mpler * num + t_before) as nat;
            assert((prod as nat) * p + (takeover as nat) * (10 * p) == total * p)
                by (nonlinear_arith)
                requires
                    prod + 10 * (takeover as nat) == total,
            ;
            assert(total * p == (mpler as nat) * ((num as nat) * p) + (t_before as nat) * p)
                by (nonlinear_arith)
                requires
                    total == mpler * num + t_before,
            ;
            assert((mpler as nat) * (row_value(ms.take(inx as int)) + (num as nat) * p) == (
            mpler as nat) * row_value(ms.take(inx as int)) + (mpler as nat) * ((num as nat) * p))
                by (nonlinear_arith);
        }
        inx += 1;
    }

    proof {
        assert(ms.take(mcand_len as int) =~= ms);
    }
    if takeover != 0 {
        let ghost before = product@;
        product.push(takeover);
        proof {
            lemma_value_push(before, takeover);
        }
    }
}

/// Copies a digit row into a fresh vector of exactly fitting capacity.
pub(crate) fn clone_row(v: &Vec<u8>) -> (r: Vec<u8>)
    ensures
        r@ == v@,
{
    let mut r: Vec<u8> = Vec::with_capacity(v.len());
    let mut inx: usize = 0;
    while inx < v.len()
        invariant
            inx <= v@.len(),
            r@ == v@.take(inx as int),
        decreases v@.len() - inx,
    {
        r.push(v[inx]);
        proof {
            assert(r@ =~= v@.take(inx + 1));
        }
        inx += 1;
    }
    proof {
        assert(v@.take(v@.len() as int) =~= v@);
    }
    r
}

/// Relies on `Vec::shrink_to_fit`: it may shed excess capacity but leaves
/// the contents untouched.
#[verifier::external_body]
fn vec_shrink(row: &mut Vec<u8>)
    ensures
        final(row)@ == old(row)@,
{
    row.shrink_to_fit();
}

/// Truncates the row's most-significant end down to the last place that
/// holds something other than `lead`, always keeping at least one place.
pub fn truncate_leading_raw(row: &mut Vec<u8>, lead: u8)
    requires
        old(row)@.len() >= 1,
    ensures
        1 <= final(row)@.len() <= old(row)@.len(),
        final(row)@ == old(row)@.take(final(row)@.len() as int),
        forall|k: int| final(row)@.len() <= k < old(row)@.len() ==> old(row)@[k] == lead,
        final(row)@.len() > 1 ==> final(row)@.last() != lead,
{
    let ghost orig = row@;
    let row_len = row.len();
    let mut trun: usize = 0;
    loop
        invariant
            row@ == orig,
            row_len == orig.len(),
            1 <= row_len,
            trun <= row_len,
            forall|k: int| row_len - trun <= k < row_len ==> orig[k] == lead,
        ensures
            row@ == orig,
            trun <= row_len,
            forall|k: int| row_len - trun <= k < row_len ==> orig[k] == lead,
            trun < row_len ==> orig[row_len - trun - 1] != lead,
        decreases row_len - trun,
    {
        if trun < row_len {
            if row[row_len - 1 - trun] == lead {
                trun += 1;
            } else {
                break;
            }
        } else {
            break;
        }
    }

    let trun = if row_len == trun {
        trun - 1
    } else {
        trun
    };

    row.truncate(row_len - trun);
    proof {
        assert(row@ =~= orig.take((row_len - trun) as int));
    }
}

/// Normalizes a raw row: trims most-significant zeros (keeping the single
/// `0` of the zero row) and releases the excess backing storage.
pub fn shrink_to_fit_raw(row: &mut Vec<u8>)
    requires
        old(row)@.len() >= 1,
    ensures
        final(row)@.len() >= 1,
        normalized(final(row)@),
        digits_ok(old(row)@) ==> digits_ok(final(row)@),
        row_value(final(row)@) == row_value(old(row)@),
{
    let ghost orig = row@;
    truncate_leading_raw(row, 0);
    proof {
        let k = row@.len() as int;
        lemma_truncate_zeros(orig, k);
        assert(digits_ok(orig) ==> digits_ok(row@));
    }
    vec_shrink(row);
}

} // verus!
