//! Encodings as real numbers, and arithmetic that comes close to exact
//! arithmetic.

use crate::arithmetic::{
    difference_is, exp_is, ln_is, product_is, quotient_is, sum_is, Arithmetic,
};
use crate::float::{
    at_most, below, in_unit, is_finite, is_nan, larger, rank, smaller, total_rank, Bits, INFINITY,
    NEGATIVE_INFINITY, NEGATIVE_ZERO, ONE, ZERO,
};
use crate::shift::{law_rank_orders_values, scale, value};
use crate::sums::{inverse, times};
use vstd::arithmetic::power2::{lemma2_to64, lemma_pow2_adds, lemma_pow2_pos, pow2};
use vstd::prelude::*;

verus! {

/// The real number that a finite encoding stands for. An infinite one counts as
/// the power of two that follows the largest number.
#[verifier::opaque]
pub open spec fn num(a: Bits) -> real {
    value(a) as real / pow2(149) as real
}

/// The distance from zero.
pub open spec fn size(x: real) -> real {
    if x < 0real {
        -x
    } else {
        x
    }
}

/// `log` is the natural logarithm: it lies below each of its tangents, it turns
/// products into sums, and it is zero at one. `exp` is its inverse.
pub open spec fn is_logarithm(log: spec_fn(real) -> real, exp: spec_fn(real) -> real) -> bool {
    &&& forall|x: real, y: real|
        #![trigger log(x), log(y)]
        x > 0real && y > 0real ==> times(x, log(y) - log(x)) <= y - x
    &&& forall|x: real, y: real|
        #![trigger log(times(x, y))]
        x > 0real && y > 0real ==> log(times(x, y)) == log(x) + log(y)
    &&& log(1real) == 0real
    &&& forall|a: real| #[trigger] exp(a) > 0real && log(exp(a)) == a
}

/// How close arithmetic comes to exact arithmetic.
pub struct Precision {
    /// The natural logarithm.
    pub log: spec_fn(real) -> real,
    /// Its inverse.
    pub exp: spec_fn(real) -> real,
    /// The error of one operation, relative to its exact result.
    pub unit: real,
    /// Powers with an exponent below minus this are zero.
    pub reach: real,
    /// Numbers up to this size do not overflow.
    pub wide: real,
}

/// `r` is within the precision of the exact result `x`. The absolute part of the
/// error is for results too small to be held to the relative one.
pub open spec fn close(pr: Precision, r: Bits, x: real) -> bool {
    is_finite(r) && size(num(r) - x) <= times(pr.unit, size(x) + pr.unit)
}

/// The number neither overflows nor stands for none.
pub open spec fn moderate(pr: Precision, a: Bits) -> bool {
    is_finite(a) && size(num(a)) <= pr.wide
}

/// Each operation that the detector needs comes close to its exact result, for
/// the numbers for which the detector needs it.
pub open spec fn accurate<A: Arithmetic>(ar: &A, pr: Precision) -> bool {
    &&& is_logarithm(pr.log, pr.exp)
    &&& forall|a: Bits, b: Bits, r: Bits| #[trigger]
        sum_is(ar, a, b, r) && at_most(ZERO, a) && at_most(ZERO, b) && moderate(pr, a) && moderate(
            pr,
            b,
        ) ==> close(pr, r, num(a) + num(b))
    &&& forall|a: Bits, b: Bits, r: Bits| #[trigger]
        difference_is(ar, a, b, r) && moderate(pr, a) && moderate(pr, b) ==> close(
            pr,
            r,
            num(a) - num(b),
        )
    // What is subtracted from a number, if it is not negative, does not make it larger.
    &&& forall|a: Bits, b: Bits, r: Bits| #[trigger]
        difference_is(ar, a, b, r) && !is_nan(a) && at_most(ZERO, b) && is_finite(b) ==> at_most(
            r,
            a,
        )
    &&& forall|a: Bits, b: Bits, r: Bits| #[trigger]
        product_is(ar, a, b, r) && at_most(ZERO, a) && at_most(a, ONE) && moderate(pr, b) ==> close(
            pr,
            r,
            times(num(a), num(b)),
        ) && (rank(a) == 0 ==> rank(r) == 0)
    &&& forall|a: Bits, r: Bits| #[trigger]
        quotient_is(ar, ONE, a, r) && at_most(ONE, a) && moderate(pr, a) ==> close(
            pr,
            r,
            inverse(num(a)),
        )
    &&& forall|a: Bits, r: Bits| #[trigger]
        exp_is(ar, a, r) && at_most(a, ZERO) ==> close(pr, r, (pr.exp)(num(a))) && (num(a)
            < -pr.reach || !is_finite(a) ==> rank(r) == 0)
    &&& forall|a: Bits, r: Bits| #[trigger]
        ln_is(ar, a, r) && below(ZERO, a) && moderate(pr, a) ==> close(pr, r, (pr.log)(num(a))) && (
        at_most(ONE, a) ==> at_most(ZERO, r)) && (at_most(a, ONE) ==> -pr.reach <= num(r))
}

/// The logarithms that occur with `n` logits are no larger than this.
pub open spec fn span(pr: Precision, n: nat) -> real {
    n as real + pr.reach
}

/// The precision is fine enough for `n` logits: the errors stay small, and
/// nothing overflows.
pub open spec fn fine_enough(pr: Precision, n: nat) -> bool {
    &&& n >= 1
    &&& pr.reach >= 1real
    &&& pr.unit > 0real
    &&& 100real * times(span(pr, n), times(span(pr, n), pr.unit)) <= 1real
    &&& 8real * span(pr, n) <= pr.wide
}

/// The order of encodings is the order of the real numbers.
pub proof fn law_rank_orders_numbers(a: Bits, b: Bits)
    ensures
        rank(a) <= rank(b) <==> num(a) <= num(b),
{
    reveal(num);
    law_rank_orders_values(a, b);
    lemma_pow2_pos(149);
    let x = value(a) as real;
    let y = value(b) as real;
    let d = pow2(149) as real;
    if value(a) <= value(b) {
        assert(x / d <= y / d) by (nonlinear_arith)
            requires
                x <= y,
                d > 0real,
        ;
    } else {
        assert(x / d > y / d) by (nonlinear_arith)
            requires
                x > y,
                d > 0real,
        ;
    }
}

/// Zero is zero, and one is one.
pub proof fn law_constants_are_numbers()
    ensures
        num(ZERO) == 0real,
        num(NEGATIVE_ZERO) == 0real,
        num(ONE) == 1real,
{
    reveal(num);
    lemma_pow2_pos(149);
    lemma2_to64();
    lemma_pow2_adds(23, 126);
    let d = pow2(149) as real;
    assert(0real / d == 0real) by (nonlinear_arith)
        requires
            d > 0real,
    ;
    assert(d / d == 1real) by (nonlinear_arith)
        requires
            d > 0real,
    ;
    assert(scale(0) == 0);
    assert(scale(0x3f80_0000) == 0x80_0000 * pow2(126));
    assert(value(ONE) == pow2(149));
}

/// Numbers compare as the real numbers do that they stand for, and what is not a
/// number compares with nothing. The larger, the smaller and the clamped number
/// are those of the real numbers, and give way where one is not a number.
pub proof fn law_comparisons_are_of_numbers(a: Bits, b: Bits)
    ensures
        is_finite(a) && is_finite(b) ==> {
            &&& below(a, b) <==> num(a) < num(b)
            &&& at_most(a, b) <==> num(a) <= num(b)
            &&& num(a) < num(b) ==> total_rank(a) < total_rank(b)
            &&& num(larger(a, b)) == if num(a) < num(b) {
                num(b)
            } else {
                num(a)
            }
            &&& num(smaller(a, b)) == if num(a) < num(b) {
                num(a)
            } else {
                num(b)
            }
        },
        is_nan(a) || is_nan(b) ==> !below(a, b) && !at_most(a, b),
        is_nan(a) ==> in_unit(a) == a,
        is_nan(a) && !is_nan(b) ==> larger(a, b) == b && smaller(a, b) == b,
        is_nan(b) ==> larger(a, b) == a && smaller(a, b) == a,
        is_finite(a) ==> num(in_unit(a)) == if num(a) < 0real {
            0real
        } else if num(a) > 1real {
            1real
        } else {
            num(a)
        },
        below(NEGATIVE_INFINITY, a) <==> !is_nan(a) && a != NEGATIVE_INFINITY,
        below(a, INFINITY) <==> !is_nan(a) && a != INFINITY,
{
    law_constants_are_numbers();
    law_rank_orders_numbers(a, b);
    law_rank_orders_numbers(b, a);
    law_rank_orders_numbers(a, ZERO);
    law_rank_orders_numbers(ZERO, a);
    law_rank_orders_numbers(a, ONE);
    law_rank_orders_numbers(ONE, a);
}

} // verus!
