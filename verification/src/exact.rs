//! What the signals of a token are for: with arithmetic that comes close to
//! exact arithmetic, they come close to the exact ones.

use crate::accuracy::{
    accurate, close, fine_enough, is_logarithm, law_rank_orders_numbers, moderate, num, size,
    span, Precision,
};
use crate::arithmetic::{difference_is, exp_is, ln_is, product_is, Arithmetic};
use crate::bounds::normalizes_faithfully;
use crate::determined::deterministic;
use crate::float::{at_most, below, is_finite, is_nan, larger, largest, rank, Bits, ONE, ZERO};
use crate::folding::{
    lemma_log_order, lemma_power_in_unit, lemma_power_near, lemma_share_in_unit,
    lemma_square_times_log, lemma_unit_is_small, lemma_within_scaled, probability_fits, share,
    within,
};
use crate::modes::{
    all_finite, lemma_fine_enough, lemma_margin_near, lemma_not_negative, lemma_order,
    lemma_place_fits, lemma_softmax_fits, lemma_totals_fit, lemma_unit_number, lists_fit,
    log_softmax_is, numbers, square, step, terms, totals_fit,
};
use crate::order::{lemma_two_largest_places, two_largest};
use crate::shift::lemma_largest_of_finite;
use crate::sums::{
    lemma_sum_difference, lemma_sum_linear, lemma_sum_of_nothing, lemma_sum_of_parts,
    lemma_sum_scaled, lemma_sum_shifted, lemma_times_multiple, lemma_times_order,
    lemma_times_positive, lemma_times_regroup, lemma_times_sign, lemma_times_sum, sum_of, times,
};
use crate::uncertainty::{from_logits_is, softmax_gives, softmax_is, Softmax, TokenUncertainty};
use vstd::prelude::*;

verus! {

/// The powers of some numbers, exactly.
pub open spec fn powers(pr: Precision, s: Seq<Bits>) -> spec_fn(int) -> real {
    |i: int| (pr.exp)(num(s[i]))
}

/// The log-probability of a token, exactly: its logit, less the logarithm of the
/// sum of the powers of all logits.
pub open spec fn exact_logprob(pr: Precision, logits: Seq<Bits>, i: int) -> real {
    num(logits[i]) - (pr.log)(sum_of(logits.len(), powers(pr, logits)))
}

/// The probability of a token, exactly.
pub open spec fn exact_probability(pr: Precision, logits: Seq<Bits>, i: int) -> real {
    (pr.exp)(exact_logprob(pr, logits, i))
}

/// What a token adds to the entropy, exactly.
pub open spec fn exact_shares(pr: Precision, logits: Seq<Bits>) -> spec_fn(int) -> real {
    |i: int| share(pr, exact_probability(pr, logits, i))
}

/// The logits are finite, and so are their differences.
pub open spec fn all_mild(pr: Precision, s: Seq<Bits>) -> bool {
    forall|i: int| #![trigger s[i]]
        0 <= i < s.len() ==> is_finite(s[i]) && 4real * size(num(s[i])) <= pr.wide
}

/// A power that counts as zero is small against a unit.
pub open spec fn reaches_far(pr: Precision) -> bool {
    (pr.exp)(-pr.reach) <= square(pr)
}

/// A larger exponent has the larger power.
pub(crate) proof fn lemma_exp_order(pr: Precision, a: real, b: real)
    requires
        is_logarithm(pr.log, pr.exp),
        a <= b,
    ensures
        (pr.exp)(a) <= (pr.exp)(b),
        (pr.exp)(a) > 0real,
{
    let x = (pr.exp)(a);
    let y = (pr.exp)(b);
    assert(x > 0real && (pr.log)(x) == a && y > 0real && (pr.log)(y) == b);
    if x > y {
        lemma_log_order(pr, y, x);
    }
}

/// Numbers with the same logarithm are the same.
proof fn lemma_log_separates(pr: Precision, x: real, y: real)
    requires
        is_logarithm(pr.log, pr.exp),
        x > 0real,
        y > 0real,
        (pr.log)(x) == (pr.log)(y),
    ensures
        x == y,
{
    assert(times(x, (pr.log)(y) - (pr.log)(x)) <= y - x);
    assert(times(y, (pr.log)(x) - (pr.log)(y)) <= x - y);
    lemma_times_sign(x, 0real);
    lemma_times_sign(y, 0real);
}

/// A sum of exponents makes a product of powers.
proof fn lemma_exp_of_sum(pr: Precision, a: real, b: real)
    requires
        is_logarithm(pr.log, pr.exp),
    ensures
        (pr.exp)(a + b) == times((pr.exp)(a), (pr.exp)(b)),
{
    let x = (pr.exp)(a);
    let y = (pr.exp)(b);
    let z = (pr.exp)(a + b);
    assert(x > 0real && (pr.log)(x) == a && y > 0real && (pr.log)(y) == b);
    assert(z > 0real && (pr.log)(z) == a + b);
    lemma_times_positive(x, y);
    assert((pr.log)(times(x, y)) == (pr.log)(x) + (pr.log)(y));
    lemma_log_separates(pr, z, times(x, y));
}

/// A probability below the square of a small number adds little to an entropy.
pub(crate) proof fn lemma_small_share(pr: Precision, x: real, v: real)
    requires
        is_logarithm(pr.log, pr.exp),
        0real < v <= 1real,
        0real <= x <= times(v, v),
    ensures
        share(pr, x) <= times(v, v) + 2real * v,
{
    let y = times(v, v);
    lemma_times_positive(v, v);
    if x > 0real {
        let a = (pr.log)(x);
        let c = (pr.log)(x + y);
        let b = (pr.log)(v);
        assert(times(x, c - a) <= (x + y) - x);
        lemma_times_sum(c, a, x);
        assert((pr.log)(y) == b + b);
        lemma_log_order(pr, y, x + y);
        lemma_share_in_unit(pr, v);
        // The logarithm of the square is twice that of the number.
        lemma_times_order(2real * b, c, x);
        lemma_times_multiple(2real, x, b);
        lemma_times_sign(x, b);
        lemma_times_order(x, y, -b);
        lemma_times_sign(y, b);
        lemma_times_regroup(v, v, b);
        lemma_times_sign(v, b);
        lemma_times_order(-times(v, b), 1real, v);
        lemma_times_sign(v, times(v, b));
        lemma_times_sign(v, 1real);
    }
}

/// Probabilities that differ little add about as much to an entropy.
pub(crate) proof fn lemma_share_continuous(pr: Precision, a: real, b: real, d: real)
    requires
        is_logarithm(pr.log, pr.exp),
        0real <= a,
        0real <= b <= 1real,
        within(a, b, d),
        0real < d < 1real,
    ensures
        share(pr, a) <= share(pr, b) + d + times(d, -(pr.log)(d)),
        0real <= times(d, -(pr.log)(d)),
{
    let far = (pr.log)(d);
    lemma_log_order(pr, d, 1real);
    lemma_times_order(0real, -far, d);
    lemma_times_sign(d, 0real);
    lemma_share_in_unit(pr, b);
    if a > 0real {
        let x = (pr.log)(a);
        let y = (pr.log)(a + d);
        assert(times(a, y - x) <= (a + d) - a);
        lemma_times_sum(y, x, a);
        lemma_log_order(pr, d, a + d);
        let c = -y;
        lemma_times_sign(a, y);
        if c > 0real {
            lemma_times_order(a, b + d, c);
            lemma_times_sum(b, d, c);
            lemma_times_order(c, -far, d);
            lemma_times_sign(0real, c);
            if b > 0real {
                lemma_log_order(pr, b, a + d);
                lemma_times_order(c, -(pr.log)(b), b);
                lemma_times_sign(b, (pr.log)(b));
            }
        } else {
            lemma_times_order(c, 0real, a);
            lemma_times_sign(a, 0real);
        }
    }
}

/// The differences of logits to the largest of them, exactly, as powers.
spec fn relative_powers(pr: Precision, logits: Seq<Bits>) -> spec_fn(int) -> real {
    |i: int| (pr.exp)(num(logits[i]) - num(largest(logits)))
}

/// The exact log-probability, by the differences to the largest logit.
proof fn lemma_relative_logprob(pr: Precision, logits: Seq<Bits>, i: int)
    requires
        is_logarithm(pr.log, pr.exp),
        0 <= i < logits.len(),
        all_finite(logits),
    ensures
        sum_of(logits.len(), relative_powers(pr, logits)) >= 1real,
        exact_logprob(pr, logits, i) == num(logits[i]) - num(largest(logits)) - (pr.log)(
            sum_of(logits.len(), relative_powers(pr, logits)),
        ),
        num(logits[i]) <= num(largest(logits)),
{
    let n = logits.len();
    let top = num(largest(logits));
    let scale = (pr.exp)(top);
    let r = relative_powers(pr, logits);
    let f = powers(pr, logits);
    let k = lemma_largest_of_finite(logits);
    assert(scale > 0real && (pr.log)(scale) == top);
    assert forall|j: int| #![trigger f(j)] 0 <= j < n implies f(j) == times(scale, r(j)) by {
        lemma_exp_of_sum(pr, top, num(logits[j]) - top);
        assert(top + (num(logits[j]) - top) == num(logits[j]));
    }
    lemma_sum_scaled(n, r, scale, f);
    assert forall|j: int| #![trigger r(j)] 0 <= j < n implies 0real <= r(j) by {
        assert((pr.exp)(num(logits[j]) - top) > 0real);
    }
    lemma_sum_of_parts(n, r);
    assert(r(k) == 1real) by {
        assert(num(logits[k]) - top == 0real);
        let one = (pr.exp)(0real);
        assert(one > 0real && (pr.log)(one) == 0real);
        lemma_log_separates(pr, one, 1real);
    }
    let total = sum_of(n, r);
    assert((pr.log)(times(scale, total)) == (pr.log)(scale) + (pr.log)(total));
    law_rank_orders_numbers(logits[i], logits[k]);
}

/// What holds where the softmax of some logits is held against the exact one.
pub open spec fn comparable<A: Arithmetic>(ar: &A, pr: Precision, logits: Seq<Bits>) -> bool {
    &&& accurate(ar, pr)
    &&& normalizes_faithfully(ar)
    &&& deterministic(ar)
    &&& fine_enough(pr, logits.len())
    &&& reaches_far(pr)
    &&& all_mild(pr, logits)
}

/// A factor can be taken out of an inequality.
proof fn lemma_times_cancel(c: real, a: real, b: real)
    requires
        0real < c,
        times(c, a) <= times(c, b),
    ensures
        a <= b,
{
    if a > b {
        lemma_times_positive(c, a - b);
        lemma_times_sum(a, b, c);
    }
}

/// A weight of a softmax is near the exact power.
proof fn lemma_weight_near<A: Arithmetic>(
    ar: &A,
    pr: Precision,
    logits: Seq<Bits>,
    w: Softmax,
    i: int,
)
    requires
        comparable(ar, pr, logits),
        softmax_is(ar, logits, w),
        0 <= i < logits.len(),
    ensures
        moderate(pr, w.shifted[i]),
        num(logits[i]) - num(largest(logits)) <= 0real,
        num(logits[i]) - num(largest(logits)) >= -pr.reach ==> within(
            num(w.shifted[i]),
            num(logits[i]) - num(largest(logits)),
            step(pr, logits.len()),
        ),
        num(logits[i]) - num(largest(logits)) < -pr.reach ==> num(w.shifted[i]) <= -pr.reach + step(
            pr,
            logits.len(),
        ) && relative_powers(pr, logits)(i) <= square(pr) && (pr.exp)(num(w.shifted[i])) <= 2real
            * square(pr),
        0real < relative_powers(pr, logits)(i) <= 1real,
        within(
            num(w.weights[i]),
            relative_powers(pr, logits)(i),
            times(5real * step(pr, logits.len()), relative_powers(pr, logits)(i)) + 5real * square(
                pr,
            ),
        ),
{
    let n = logits.len();
    let u = pr.unit;
    let g = span(pr, n);
    let e = step(pr, n);
    let b = square(pr);
    let top = largest(logits);
    let s = w.shifted[i];
    let d = num(logits[i]) - num(top);
    let x = (pr.exp)(d);
    lemma_fine_enough(ar, pr, n);
    lemma_unit_is_small(pr, g, e, b);
    assert(all_finite(logits));
    lemma_totals_fit(ar, pr, n, logits, w);
    let k = lemma_largest_of_finite(logits);
    assert(is_finite(logits[k]) && is_finite(logits[i]));
    law_rank_orders_numbers(logits[i], logits[k]);
    assert(d <= 0real);
    lemma_power_in_unit(pr, d);
    assert(difference_is(ar, logits[i], top, s));
    assert(moderate(pr, logits[i]) && moderate(pr, top));
    assert(close(pr, s, d));
    lemma_times_order(400real * u, 1real, -d + u);
    lemma_times_multiple(400real, u, -d + u);
    lemma_times_sign(1real, -d + u);
    assert(moderate(pr, s));
    assert(exp_is(ar, s, w.weights[i]));
    assert(at_most(s, ZERO));
    let y = (pr.exp)(num(s));
    assert(close(pr, w.weights[i], y) && y > 0real);
    lemma_times_sum(y, u, u);
    lemma_times_multiple(5real, e, x);
    lemma_times_order(0real, x, e);
    lemma_times_sign(e, 0real);
    if d >= -pr.reach {
        lemma_times_order(-d + u, g, u);
        lemma_times_sign(u, g);
        assert((pr.log)(x) == d);
        lemma_power_near(pr, e, num(s), x);
        lemma_times_order(200real * e, 1real, y);
        lemma_times_multiple(200real, e, y);
        lemma_times_sign(1real, y);
        assert(y <= 2real * x);
        lemma_times_order(y, 2real * x, e);
        lemma_times_multiple(2real, e, x);
        lemma_times_order(y, 2real * x, u);
        lemma_times_multiple(2real, u, x);
        lemma_times_order(2real * u, e, x);
        lemma_times_multiple(2real, u, x);
    } else {
        // What is far below the reach stays below it, but for the error.
        let far = (pr.exp)(-pr.reach);
        assert(far > 0real && (pr.log)(far) == -pr.reach);
        lemma_exp_order(pr, d, -pr.reach);
        lemma_times_sum(-d, u, u);
        let f = -d - pr.reach;
        assert(f > 0real);
        lemma_times_sum(f, pr.reach, u);
        lemma_times_order(u, 1real, f);
        lemma_times_sign(1real, f);
        lemma_times_order(pr.reach + u, g, u);
        lemma_times_sum(pr.reach, u, u);
        lemma_times_sign(u, g);
        assert(f + pr.reach == -d);
        assert(num(s) <= -pr.reach + e);
        let z = (pr.exp)(-pr.reach + e);
        lemma_exp_order(pr, num(s), -pr.reach + e);
        lemma_power_near(pr, e, -pr.reach + e, far);
        lemma_times_order(200real * e, 1real, z);
        lemma_times_multiple(200real, e, z);
        lemma_times_sign(1real, z);
        assert(y <= 2real * b);
        lemma_times_order(400real * u, 1real, y);
        lemma_times_multiple(400real, u, y);
        lemma_times_sign(1real, y);
    }
}

/// The total of a softmax is near the exact one, and so is its logarithm.
proof fn lemma_total_of_powers<A: Arithmetic>(ar: &A, pr: Precision, logits: Seq<Bits>, w: Softmax)
    requires
        comparable(ar, pr, logits),
        softmax_is(ar, logits, w),
    ensures
        totals_fit(pr, logits.len(), w),
        sum_of(logits.len(), relative_powers(pr, logits)) >= 1real,
        within(
            num(w.log_total),
            (pr.log)(sum_of(logits.len(), relative_powers(pr, logits))),
            25real * step(pr, logits.len()),
        ),
{
    let n = logits.len();
    let u = pr.unit;
    let g = span(pr, n);
    let e = step(pr, n);
    let b = square(pr);
    let c = 5real * e;
    let t = num(w.total);
    let weights = numbers(w.weights);
    let r = relative_powers(pr, logits);
    let total = sum_of(n, r);
    lemma_fine_enough(ar, pr, n);
    lemma_unit_is_small(pr, g, e, b);
    assert(all_finite(logits));
    lemma_totals_fit(ar, pr, n, logits, w);
    lemma_relative_logprob(pr, logits, 0);
    let more = |i: int| weights(i) - r(i);
    let less = |i: int| r(i) - weights(i);
    assert forall|i: int| #![trigger more(i)] 0 <= i < n implies more(i) <= times(c, r(i)) + 5real
        * b by {
        lemma_weight_near(ar, pr, logits, w, i);
    }
    assert forall|i: int| #![trigger less(i)] 0 <= i < n implies less(i) <= times(c, r(i)) + 5real
        * b by {
        lemma_weight_near(ar, pr, logits, w, i);
    }
    lemma_sum_linear(n, more, r, c, 5real * b);
    lemma_sum_linear(n, less, r, c, 5real * b);
    lemma_sum_difference(n, weights, r, more);
    lemma_sum_difference(n, r, weights, less);
    let et = times(e, t);
    let ew = times(e, total);
    lemma_times_multiple(5real, e, total);
    lemma_times_multiple(5real, n as real, b);
    lemma_times_order(n as real, g, b);
    lemma_times_regroup(g, u, u);
    lemma_times_sign(e, u);
    lemma_times_order(1real, total, e);
    lemma_times_sign(e, 1real);
    // The rounding of the sum.
    lemma_times_order(2real * t + u, 3real * t, u);
    lemma_times_multiple(3real, u, t);
    lemma_times_order(times(u, 2real * t + u), 3real * times(u, t), n as real);
    lemma_times_multiple(3real, n as real, times(u, t));
    lemma_times_regroup(n as real, u, t);
    lemma_times_order(n as real, g, u);
    lemma_times_order(times(n as real, u), e, t);
    lemma_times_order(200real * e, 1real, t);
    lemma_times_multiple(200real, e, t);
    lemma_times_sign(1real, t);
    lemma_times_order(200real * e, 1real, total);
    lemma_times_multiple(200real, e, total);
    lemma_times_sign(1real, total);
    assert(t <= 2real * total && total <= 2real * t);
    lemma_times_order(t, 2real * total, e);
    lemma_times_multiple(2real, e, total);
    lemma_times_order(total, 2real * t, e);
    lemma_times_multiple(2real, e, t);
    assert(within(t, total, 12real * ew));
    // Its logarithm.
    let a = (pr.log)(t);
    let f = (pr.log)(total);
    assert(times(total, a - f) <= t - total);
    assert(times(t, f - a) <= total - t);
    lemma_times_multiple(24real, total, e);
    lemma_times_sign(total, e);
    lemma_times_cancel(total, a - f, 24real * e);
    lemma_times_multiple(24real, t, e);
    lemma_times_sign(t, e);
    lemma_times_cancel(t, f - a, 24real * e);
}

/// A computed log-probability is near the exact one, unless that is so small that
/// its power vanishes.
proof fn lemma_logprob_near<A: Arithmetic>(
    ar: &A,
    pr: Precision,
    logits: Seq<Bits>,
    w: Softmax,
    i: int,
    l: Bits,
)
    requires
        comparable(ar, pr, logits),
        softmax_is(ar, logits, w),
        0 <= i < logits.len(),
        difference_is(ar, w.shifted[i], w.log_total, l),
    ensures
        is_finite(l),
        exact_logprob(pr, logits, i) <= 0real,
        num(logits[i]) - num(largest(logits)) >= -pr.reach ==> within(
            num(l),
            exact_logprob(pr, logits, i),
            28real * step(pr, logits.len()),
        ) && num(l) >= -(2real * span(pr, logits.len())),
        num(logits[i]) - num(largest(logits)) < -pr.reach ==> exact_probability(pr, logits, i)
            <= square(pr) && (pr.exp)(num(l)) <= 2real * square(pr) && num(l) <= -pr.reach + step(
            pr,
            logits.len(),
        ),
{
    let n = logits.len();
    let u = pr.unit;
    let g = span(pr, n);
    let e = step(pr, n);
    let b = square(pr);
    let s = w.shifted[i];
    let d = num(logits[i]) - num(largest(logits));
    let total = sum_of(n, relative_powers(pr, logits));
    lemma_fine_enough(ar, pr, n);
    lemma_unit_is_small(pr, g, e, b);
    assert(all_finite(logits));
    lemma_relative_logprob(pr, logits, i);
    lemma_weight_near(ar, pr, logits, w, i);
    lemma_total_of_powers(ar, pr, logits, w);
    lemma_totals_fit(ar, pr, n, logits, w);
    lemma_log_order(pr, 1real, total);
    assert(at_most(s, ZERO));
    assert(moderate(pr, w.log_total)) by {
        law_rank_orders_numbers(ZERO, w.log_total);
        crate::accuracy::law_constants_are_numbers();
    }
    law_rank_orders_numbers(s, ZERO);
    law_rank_orders_numbers(ZERO, w.log_total);
    law_rank_orders_numbers(l, s);
    crate::accuracy::law_constants_are_numbers();
    let y = num(s) - num(w.log_total);
    assert(close(pr, l, y));
    assert(at_most(l, s));
    if d >= -pr.reach {
        lemma_times_order(size(y) + u, 2real * g, u);
        lemma_times_multiple(2real, u, g);
        lemma_times_sign(u, g);
    } else {
        lemma_exp_order(pr, exact_logprob(pr, logits, i), d);
        lemma_exp_order(pr, num(l), num(s));
    }
}

/// A computed probability is near the exact one, and so is what it adds to the
/// entropy.
proof fn lemma_probability_exact<A: Arithmetic>(
    ar: &A,
    pr: Precision,
    logits: Seq<Bits>,
    w: Softmax,
    i: int,
    l: Bits,
)
    requires
        comparable(ar, pr, logits),
        softmax_is(ar, logits, w),
        0 <= i < logits.len(),
        difference_is(ar, w.shifted[i], w.log_total, l),
    ensures
        0real < exact_probability(pr, logits, i) <= 1real,
        within(
            num(w.probs[i]),
            exact_probability(pr, logits, i),
            70real * step(pr, logits.len()),
        ),
        within(
            -times(num(w.probs[i]), num(l)),
            share(pr, exact_probability(pr, logits, i)),
            100real * step(pr, logits.len()),
        ),
{
    let n = logits.len();
    let u = pr.unit;
    let g = span(pr, n);
    let e = step(pr, n);
    let b = square(pr);
    let x = exact_logprob(pr, logits, i);
    let q = exact_probability(pr, logits, i);
    let p = num(w.probs[i]);
    let m = -num(l);
    let z = (pr.exp)(num(l));
    lemma_fine_enough(ar, pr, n);
    lemma_unit_is_small(pr, g, e, b);
    assert(all_finite(logits));
    lemma_totals_fit(ar, pr, n, logits, w);
    assert(at_most(w.shifted[i], ZERO));
    assert(exp_is(ar, w.shifted[i], w.weights[i]));
    assert(product_is(ar, w.weights[i], w.inverse, w.probs[i]));
    lemma_place_fits(ar, pr, n, w, i, l);
    lemma_logprob_near(ar, pr, logits, w, i, l);
    lemma_power_in_unit(pr, x);
    lemma_power_in_unit(pr, num(l));
    lemma_times_sign(p, num(l));
    lemma_times_sign(z, num(l));
    lemma_times_sign(q, x);
    if num(logits[i]) - num(largest(logits)) >= -pr.reach {
        let ez = times(e, z);
        lemma_power_near(pr, 28real * e, num(l), q);
        lemma_times_multiple(28real, e, z);
        let d = 69real * ez + 7real * b;
        assert(within(p, q, d));
        lemma_times_order(z, 1real, e);
        lemma_times_sign(e, 1real);
        lemma_within_scaled(p, q, d, m);
        lemma_times_sum(69real * ez, 7real * b, m);
        lemma_times_multiple(69real, ez, m);
        lemma_times_multiple(7real, b, m);
        lemma_times_regroup(e, z, m);
        lemma_times_order(times(z, m), 1real, e);
        lemma_square_times_log(pr, g, e, b, m);
        // The exact probability, times both log-probabilities.
        lemma_within_scaled(m, -x, 28real * e, q);
        lemma_times_order(q, 1real, 28real * e);
        lemma_times_sign(1real, 28real * e);
        lemma_times_sign(q, 28real * e);
    } else {
        lemma_small_share(pr, q, u);
        lemma_share_in_unit(pr, q);
        lemma_times_order(200real * e, 1real, z);
        lemma_times_multiple(200real, e, z);
        lemma_times_sign(1real, z);
        assert(p <= 11real * b);
        lemma_times_sign(0real, m);
        lemma_times_order(0real, m, p);
        lemma_times_sign(p, 0real);
        if p > 0real {
            lemma_times_order(p, 11real * b, m);
            lemma_times_multiple(11real, b, m);
            lemma_square_times_log(pr, g, e, b, m);
        }
    }
}

/// How far, at most, the entropy of a softmax is from the exact one.
pub open spec fn entropy_error(pr: Precision, n: nat) -> real {
    107real * times(n as real, step(pr, n))
}

/// With accurate arithmetic, the entropy from logits is near that of the exact
/// softmax, the largest probability near its largest, and the margin near the
/// difference of its two largest.
#[verifier::rlimit(40)]
pub proof fn law_logit_signals_are_exact<A: Arithmetic>(
    ar: &A,
    pr: Precision,
    logits: Seq<Bits>,
    lps: Seq<Bits>,
    chosen: usize,
    u: TokenUncertainty,
)
    requires
        comparable(ar, pr, logits),
        log_softmax_is(ar, logits, lps),
        from_logits_is(ar, logits, chosen, u),
    ensures
        within(
            num(u.entropy),
            sum_of(logits.len(), exact_shares(pr, logits)),
            entropy_error(pr, logits.len()),
        ),
        forall|i: int| 0 <= i < logits.len() ==> #[trigger] exact_probability(pr, logits, i) <= num(
            u.max_prob,
        ) + 70real * step(pr, logits.len()),
        exists|k: int| 0 <= k < logits.len() && num(u.max_prob) <= #[trigger] exact_probability(
            pr,
            logits,
            k,
        ) + 70real * step(pr, logits.len()),
        is_margin(pr, logits, num(u.margin), 141real * step(pr, logits.len())),
{
    let n = logits.len();
    let e = step(pr, n);
    let w = choose|w: Softmax| #[trigger]
        softmax_is(ar, logits, w) && softmax_gives(ar, w, chosen, u);
    lemma_fine_enough(ar, pr, n);
    lemma_unit_is_small(pr, span(pr, n), e, square(pr));
    assert(all_finite(logits));
    lemma_softmax_fits(ar, pr, n, logits, lps, w);
    assert forall|i: int|
        #![trigger terms(w.probs, lps)(i)]
        #![trigger exact_shares(pr, logits)(i)]
        0 <= i < n implies within(
        terms(w.probs, lps)(i),
        exact_shares(pr, logits)(i),
        100real * e,
    ) by {
        lemma_probability_exact(ar, pr, logits, w, i, lps[i]);
    }
    lemma_entropy_exact(pr, logits, lps, w, e);
    assert forall|i: int| #![trigger w.probs[i]] 0 <= i < n implies within(
        num(w.probs[i]),
        exact_probability(pr, logits, i),
        70real * step(pr, logits.len()),
    ) by {
        lemma_probability_exact(ar, pr, logits, w, i, lps[i]);
    }
    lemma_largest_exact(ar, pr, logits, lps, w, chosen, u);
    lemma_not_negative(w.entropy);
    let exact = exact_shares(pr, logits);
    assert forall|i: int| #![trigger exact(i)] 0 <= i < n implies 0real <= exact(i) by {
        lemma_probability_exact(ar, pr, logits, w, i, lps[i]);
        lemma_share_in_unit(pr, exact_probability(pr, logits, i));
    }
    lemma_sum_of_parts(n, exact);
}

/// The entropy by computed terms, against the exact one.
proof fn lemma_entropy_exact(
    pr: Precision,
    logits: Seq<Bits>,
    lps: Seq<Bits>,
    w: Softmax,
    e: real,
)
    requires
        forall|i: int| #![trigger terms(w.probs, lps)(i)] #![trigger exact_shares(pr, logits)(i)]
            0 <= i < logits.len() ==> within(
                terms(w.probs, lps)(i),
                exact_shares(pr, logits)(i),
                100real * e,
            ),
    ensures
        within(
            sum_of(logits.len(), terms(w.probs, lps)),
            sum_of(logits.len(), exact_shares(pr, logits)),
            100real * times(logits.len() as real, e),
        ),
{
    let n = logits.len();
    let f = terms(w.probs, lps);
    let g = exact_shares(pr, logits);
    assert forall|i: int| #![trigger f(i)] 0 <= i < n implies f(i) <= g(i) + 100real * e by {
        assert(within(terms(w.probs, lps)(i), exact_shares(pr, logits)(i), 100real * e));
    }
    assert forall|i: int| #![trigger g(i)] 0 <= i < n implies g(i) <= f(i) + 100real * e by {
        assert(within(terms(w.probs, lps)(i), exact_shares(pr, logits)(i), 100real * e));
    }
    lemma_sum_shifted(n, f, g, 100real * e);
    lemma_sum_shifted(n, g, f, 100real * e);
    lemma_times_multiple(100real, n as real, e);
}

/// `m` is, but for `d`, the difference of the two largest exact probabilities.
/// Where there is only one, it is that one.
pub open spec fn is_margin(pr: Precision, logits: Seq<Bits>, m: real, d: real) -> bool {
    if logits.len() == 1 {
        within(m, exact_probability(pr, logits, 0), d)
    } else {
        exists|k: int, j: int|
            #![trigger exact_probability(pr, logits, k), exact_probability(pr, logits, j)]
            {
                &&& 0 <= k < logits.len() && 0 <= j < logits.len() && k != j
                &&& forall|i: int|
                    0 <= i < logits.len() ==> #[trigger] exact_probability(pr, logits, i)
                        <= exact_probability(pr, logits, k) + d
                &&& forall|i: int|
                    0 <= i < logits.len() && i != k ==> #[trigger] exact_probability(pr, logits, i)
                        <= exact_probability(pr, logits, j) + d
                &&& within(
                    m,
                    exact_probability(pr, logits, k) - exact_probability(pr, logits, j),
                    d,
                )
            }
    }
}

/// The largest probability and the margin of a softmax, against the exact ones.
proof fn lemma_largest_exact<A: Arithmetic>(
    ar: &A,
    pr: Precision,
    logits: Seq<Bits>,
    lps: Seq<Bits>,
    w: Softmax,
    chosen: usize,
    u: TokenUncertainty,
)
    requires
        comparable(ar, pr, logits),
        lists_fit(ar, pr, logits.len(), w, lps),
        softmax_gives(ar, w, chosen, u),
        logits.len() > 0,
        forall|i: int| #![trigger w.probs[i]]
            0 <= i < logits.len() ==> within(
                num(w.probs[i]),
                exact_probability(pr, logits, i),
                70real * step(pr, logits.len()),
            ),
    ensures
        forall|i: int| 0 <= i < logits.len() ==> #[trigger] exact_probability(pr, logits, i) <= num(
            u.max_prob,
        ) + 70real * step(pr, logits.len()),
        exists|k: int| 0 <= k < logits.len() && num(u.max_prob) <= #[trigger] exact_probability(
            pr,
            logits,
            k,
        ) + 70real * step(pr, logits.len()),
        is_margin(pr, logits, num(u.margin), 141real * step(pr, logits.len())),
{
    let n = logits.len();
    let e = step(pr, n);
    let d = 70real * e;
    lemma_fine_enough(ar, pr, n);
    lemma_unit_is_small(pr, span(pr, n), e, square(pr));
    let (k, j) = lemma_two_largest_places(w.probs);
    let (first, second) = two_largest(w.probs);
    assert(at_most(ZERO, w.probs[k]) && at_most(w.probs[k], ONE));
    lemma_unit_number(first);
    lemma_not_negative(first);
    lemma_order(ZERO, ZERO);
    assert forall|i: int| 0 <= i < n implies #[trigger] exact_probability(pr, logits, i) <= num(
        w.probs[i],
    ) + d && num(w.probs[i]) <= exact_probability(pr, logits, i) + d && num(w.probs[i]) <= num(
        first,
    ) && (n > 1 && i != k ==> num(w.probs[i]) <= num(second)) by {
        assert(difference_is(ar, w.shifted[i], w.log_total, lps[i]));
        lemma_order(w.probs[i], w.probs[k]);
        if n > 1 {
            lemma_order(w.probs[i], w.probs[j]);
        }
    }
    assert(num(u.max_prob) <= exact_probability(pr, logits, k) + d);
    if n > 1 {
        assert(at_most(ZERO, w.probs[j]) && at_most(w.probs[j], ONE));
        lemma_unit_number(second);
        lemma_not_negative(second);
    }
    let other = larger(second, ZERO);
    lemma_order(other, first);
    lemma_margin_near(ar, pr, n, first, other, u.margin);
    if n > 1 {
        assert(within(
            num(u.margin),
            exact_probability(pr, logits, k) - exact_probability(pr, logits, j),
            141real * e,
        ));
    } else {
        assert(num(w.probs[0]) <= exact_probability(pr, logits, 0) + d);
    }
}

/// The logarithm of a computed probability that is not too small, against the
/// computed log-probability.
proof fn lemma_log_of_probability<A: Arithmetic>(
    ar: &A,
    pr: Precision,
    n: nat,
    p: Bits,
    l: real,
    r: Bits,
)
    requires
        accurate(ar, pr),
        fine_enough(pr, n),
        at_most(ZERO, p),
        at_most(p, ONE),
        l >= -(2real * span(pr, n)),
        probability_fits(pr, span(pr, n), step(pr, n), square(pr), num(p), l),
        pr.unit <= (pr.exp)(l),
    ensures
        below(ZERO, p),
        ln_is(ar, p, r) ==> within(num(r), l, 37real * step(pr, n)),
{
    let u = pr.unit;
    let g = span(pr, n);
    let e = step(pr, n);
    let b = square(pr);
    let z = (pr.exp)(l);
    let x = num(p);
    lemma_fine_enough(ar, pr, n);
    lemma_unit_is_small(pr, g, e, b);
    lemma_unit_number(p);
    lemma_power_in_unit(pr, l);
    let ez = times(e, z);
    lemma_times_order(u, z, u);
    lemma_times_order(2real * u, e, z);
    lemma_times_multiple(2real, u, z);
    lemma_times_order(200real * e, 1real, z);
    lemma_times_multiple(200real, e, z);
    lemma_times_sign(1real, z);
    assert(within(x, z, 17real * ez));
    assert(z <= 2real * x);
    if ln_is(ar, p, r) {
        let a = (pr.log)(x);
        assert(times(z, a - l) <= x - z);
        assert(times(x, l - a) <= z - x);
        lemma_times_multiple(17real, z, e);
        lemma_times_sign(z, e);
        lemma_times_cancel(z, a - l, 17real * e);
        lemma_times_order(z, 2real * x, e);
        lemma_times_multiple(2real, e, x);
        lemma_times_multiple(34real, x, e);
        lemma_times_sign(x, e);
        lemma_times_cancel(x, l - a, 34real * e);
        lemma_share_in_unit(pr, x);
        assert(moderate(pr, p));
        assert(close(pr, r, a));
        lemma_times_order(-a + u, 3real * g, u);
        lemma_times_multiple(3real, u, g);
        lemma_times_sign(u, g);
    }
}

/// The log-probability of a token that is all but impossible.
proof fn lemma_small_logprob<A: Arithmetic>(
    ar: &A,
    pr: Precision,
    n: nat,
    p: Bits,
    r: Bits,
)
    requires
        accurate(ar, pr),
        fine_enough(pr, n),
        at_most(p, ONE),
        below(ZERO, p),
        num(p) <= 9real * pr.unit,
        ln_is(ar, p, r),
    ensures
        is_finite(r),
        -pr.reach <= num(r) <= (pr.log)(9real * pr.unit) + 3real * step(pr, n),
{
    let u = pr.unit;
    let g = span(pr, n);
    let e = step(pr, n);
    let x = num(p);
    lemma_fine_enough(ar, pr, n);
    lemma_unit_is_small(pr, g, e, square(pr));
    lemma_unit_number(p);
    let a = (pr.log)(x);
    lemma_share_in_unit(pr, x);
    lemma_log_order(pr, x, 9real * u);
    assert(moderate(pr, p));
    assert(close(pr, r, a));
    lemma_times_order(400real * u, 1real, -a + u);
    lemma_times_multiple(400real, u, -a + u);
    lemma_times_sign(1real, -a + u);
    assert(-a <= 2real * pr.reach);
    lemma_times_order(-a + u, 3real * g, u);
    lemma_times_multiple(3real, u, g);
    lemma_times_sign(u, g);
}

/// With accurate arithmetic, the log-probability of the emitted token is near the
/// exact one: its own logit, less the logarithm of the sum of the powers of all
/// logits. Where the exact probability is below two units, it is small, and
/// either within reach or near the exact one in proportion. Far beyond reach it
/// is always near in proportion.
#[verifier::rlimit(40)]
pub proof fn law_chosen_logprob_is_exact<A: Arithmetic>(
    ar: &A,
    pr: Precision,
    logits: Seq<Bits>,
    lps: Seq<Bits>,
    chosen: usize,
    u: TokenUncertainty,
)
    requires
        comparable(ar, pr, logits),
        log_softmax_is(ar, logits, lps),
        chosen < logits.len(),
        from_logits_is(ar, logits, chosen, u),
    ensures
        is_finite(u.chosen_logprob),
        exact_probability(pr, logits, chosen as int) >= 2real * pr.unit ==> within(
            num(u.chosen_logprob),
            exact_logprob(pr, logits, chosen as int),
            70real * step(pr, logits.len()),
        ),
        exact_probability(pr, logits, chosen as int) < 2real * pr.unit ==> num(u.chosen_logprob) <= (
        pr.log)(9real * pr.unit) + 28real * step(pr, logits.len()) && (num(u.chosen_logprob)
            >= -pr.reach || within(
            num(u.chosen_logprob),
            exact_logprob(pr, logits, chosen as int),
            30real * step(pr, logits.len()) + 4real * times(
                pr.unit,
                -exact_logprob(pr, logits, chosen as int),
            ),
        )),
        exact_logprob(pr, logits, chosen as int) < -(2real * span(pr, logits.len())) ==> within(
            num(u.chosen_logprob),
            exact_logprob(pr, logits, chosen as int),
            30real * step(pr, logits.len()) + 4real * times(
                pr.unit,
                -exact_logprob(pr, logits, chosen as int),
            ),
        ),
{
    let n = logits.len();
    let unit = pr.unit;
    let e = step(pr, n);
    let b = square(pr);
    let i = chosen as int;
    let r = u.chosen_logprob;
    let w = choose|w: Softmax| #[trigger]
        softmax_is(ar, logits, w) && softmax_gives(ar, w, chosen, u);
    lemma_fine_enough(ar, pr, n);
    lemma_unit_is_small(pr, span(pr, n), e, b);
    assert(all_finite(logits));
    lemma_softmax_fits(ar, pr, n, logits, lps, w);
    let l = lps[i];
    assert(difference_is(ar, w.shifted[i], w.log_total, l));
    lemma_logprob_near(ar, pr, logits, w, i, l);
    lemma_chosen_cases(ar, pr, logits, w, i, l);
    let p = w.probs[i];
    assert(at_most(ZERO, p) && at_most(p, ONE));
    lemma_unit_number(p);
    assert(is_finite(l) && !is_nan(l));
    if exact_logprob(pr, logits, i) < -(2real * span(pr, n)) {
        lemma_far_vanishes(ar, pr, logits, w, i);
        lemma_far_logprob(ar, pr, logits, w, i, l);
        lemma_order(ZERO, p);
    }
    if exact_probability(pr, logits, i) >= 2real * unit {
        lemma_log_of_probability(ar, pr, n, p, num(l), r);
    } else if below(ZERO, p) {
        lemma_small_logprob(ar, pr, n, p, r);
    } else {
        assert(r == l);
    }
}

/// Far beyond reach, a token has no probability at all.
proof fn lemma_far_vanishes<A: Arithmetic>(
    ar: &A,
    pr: Precision,
    logits: Seq<Bits>,
    w: Softmax,
    i: int,
)
    requires
        comparable(ar, pr, logits),
        softmax_is(ar, logits, w),
        0 <= i < logits.len(),
        exact_logprob(pr, logits, i) < -(2real * span(pr, logits.len())),
    ensures
        rank(w.probs[i]) == 0,
{
    let n = logits.len();
    let u = pr.unit;
    let s = w.shifted[i];
    let d = num(logits[i]) - num(largest(logits));
    let total = sum_of(n, relative_powers(pr, logits));
    lemma_fine_enough(ar, pr, n);
    lemma_unit_is_small(pr, span(pr, n), step(pr, n), square(pr));
    assert(all_finite(logits));
    lemma_relative_logprob(pr, logits, i);
    lemma_weight_near(ar, pr, logits, w, i);
    lemma_total_of_powers(ar, pr, logits, w);
    let none = |j: int| 0real;
    assert forall|j: int| #![trigger relative_powers(pr, logits)(j)] 0 <= j < n implies
        relative_powers(pr, logits)(j) <= none(j) + 1real by {
        lemma_weight_near(ar, pr, logits, w, j);
    }
    lemma_sum_shifted(n, relative_powers(pr, logits), none, 1real);
    lemma_sum_of_nothing(n, none);
    lemma_times_sign(n as real, 1real);
    // The logarithm of the total is below the number of logits.
    assert(times(1real, (pr.log)(total) - (pr.log)(1real)) <= total - 1real);
    lemma_times_sign(1real, (pr.log)(total) - (pr.log)(1real));
    assert(d < -(2real * pr.reach));
    let k = lemma_largest_of_finite(logits);
    assert(is_finite(logits[k]) && is_finite(logits[i]));
    assert(difference_is(ar, logits[i], logits[k], s));
    assert(moderate(pr, logits[i]) && moderate(pr, logits[k]));
    assert(close(pr, s, d));
    lemma_times_order(400real * u, 1real, -d + u);
    lemma_times_multiple(400real, u, -d + u);
    lemma_times_sign(1real, -d + u);
    assert(num(s) < -pr.reach);
    lemma_order(s, ZERO);
    assert(exp_is(ar, s, w.weights[i]));
    assert(rank(w.weights[i]) == 0);
    assert(product_is(ar, w.weights[i], w.inverse, w.probs[i]));
    lemma_totals_fit(ar, pr, n, logits, w);
    lemma_unit_number(w.inverse);
    assert(moderate(pr, w.inverse));
}

/// A token by its exact probability: not too small, or all but impossible.
#[verifier::rlimit(40)]
proof fn lemma_chosen_cases<A: Arithmetic>(
    ar: &A,
    pr: Precision,
    logits: Seq<Bits>,
    w: Softmax,
    i: int,
    l: Bits,
)
    requires
        comparable(ar, pr, logits),
        softmax_is(ar, logits, w),
        0 <= i < logits.len(),
        difference_is(ar, w.shifted[i], w.log_total, l),
        at_most(l, ZERO),
        probability_fits(
            pr,
            span(pr, logits.len()),
            step(pr, logits.len()),
            square(pr),
            num(w.probs[i]),
            num(l),
        ),
    ensures
        exact_probability(pr, logits, i) >= 2real * pr.unit ==> pr.unit <= (pr.exp)(num(l)) && num(
            l,
        ) >= -(2real * span(pr, logits.len())) && within(
            num(l),
            exact_logprob(pr, logits, i),
            28real * step(pr, logits.len()),
        ),
        exact_probability(pr, logits, i) < 2real * pr.unit ==> num(w.probs[i]) <= 9real * pr.unit
            && num(l) <= (pr.log)(9real * pr.unit) + 28real * step(pr, logits.len()) && within(
            num(l),
            exact_logprob(pr, logits, i),
            30real * step(pr, logits.len()) + 4real * times(
                pr.unit,
                -exact_logprob(pr, logits, i),
            ),
        ),
{
    let n = logits.len();
    let u = pr.unit;
    let g = span(pr, n);
    let e = step(pr, n);
    let b = square(pr);
    let x = exact_logprob(pr, logits, i);
    let q = exact_probability(pr, logits, i);
    let z = (pr.exp)(num(l));
    let p = num(w.probs[i]);
    let d = num(logits[i]) - num(largest(logits));
    lemma_fine_enough(ar, pr, n);
    lemma_unit_is_small(pr, g, e, b);
    lemma_logprob_near(ar, pr, logits, w, i, l);
    lemma_power_in_unit(pr, x);
    lemma_power_in_unit(pr, num(l));
    lemma_times_order(200real * e, 1real, z);
    lemma_times_multiple(200real, e, z);
    lemma_times_sign(1real, z);
    lemma_times_order(0real, -x, u);
    lemma_times_sign(u, 0real);
    if d >= -pr.reach {
        lemma_power_near(pr, 28real * e, num(l), q);
        lemma_times_multiple(28real, e, z);
        assert((pr.log)(q) == x);
        if q < 2real * u {
            assert(z <= 2real * q);
            lemma_log_order(pr, q, 9real * u);
        }
    } else {
        assert(q <= b && z <= 2real * b);
        let far = (pr.exp)(-pr.reach);
        assert(far > 0real && (pr.log)(far) == -pr.reach);
        lemma_log_order(pr, far, 9real * u);
        lemma_far_logprob(ar, pr, logits, w, i, l);
    }
}

/// A log-probability below the reach is near the exact one in proportion.
proof fn lemma_far_logprob<A: Arithmetic>(
    ar: &A,
    pr: Precision,
    logits: Seq<Bits>,
    w: Softmax,
    i: int,
    l: Bits,
)
    requires
        comparable(ar, pr, logits),
        softmax_is(ar, logits, w),
        0 <= i < logits.len(),
        difference_is(ar, w.shifted[i], w.log_total, l),
    ensures
        within(
            num(l),
            exact_logprob(pr, logits, i),
            30real * step(pr, logits.len()) + 4real * times(
                pr.unit,
                -exact_logprob(pr, logits, i),
            ),
        ),
{
    let n = logits.len();
    let u = pr.unit;
    let g = span(pr, n);
    let e = step(pr, n);
    let b = square(pr);
    let s = w.shifted[i];
    let x = exact_logprob(pr, logits, i);
    let d = num(logits[i]) - num(largest(logits));
    let total = sum_of(n, relative_powers(pr, logits));
    lemma_fine_enough(ar, pr, n);
    lemma_unit_is_small(pr, g, e, b);
    assert(all_finite(logits));
    lemma_relative_logprob(pr, logits, i);
    lemma_weight_near(ar, pr, logits, w, i);
    lemma_total_of_powers(ar, pr, logits, w);
    lemma_totals_fit(ar, pr, n, logits, w);
    lemma_log_order(pr, 1real, total);
    let k = lemma_largest_of_finite(logits);
    assert(is_finite(logits[k]) && is_finite(logits[i]));
    assert(difference_is(ar, logits[i], logits[k], s));
    assert(moderate(pr, logits[i]) && moderate(pr, logits[k]));
    assert(close(pr, s, d));
    lemma_order(ZERO, w.log_total);
    lemma_order(s, ZERO);
    assert(at_most(s, ZERO));
    assert(moderate(pr, w.log_total));
    let y = num(s) - num(w.log_total);
    assert(close(pr, l, y));
    // All parts of the error, in proportion to the exact log-probability.
    lemma_times_order(-d, -x, u);
    lemma_times_sum(-d, u, u);
    lemma_times_order(400real * u, 1real, -d + u);
    lemma_times_multiple(400real, u, -d + u);
    lemma_times_sign(1real, -d + u);
    assert(-num(s) <= 2real * -d + u);
    lemma_times_order(size(y) + u, 2real * -d + (g + 2real * u), u);
    lemma_times_sum(2real * -d, g + 2real * u, u);
    lemma_times_multiple(2real, u, -d);
    lemma_times_sum(g, 2real * u, u);
    lemma_times_multiple(2real, u, u);
    lemma_times_sign(u, g);
}

/// With accurate arithmetic, a token with the larger logit has the larger
/// log-probability, if the logits differ by more than the error.
pub proof fn law_chosen_logprob_follows_logits<A: Arithmetic>(
    ar: &A,
    pr: Precision,
    logits: Seq<Bits>,
    lps: Seq<Bits>,
    chosen: usize,
    other: usize,
    u: TokenUncertainty,
    v: TokenUncertainty,
)
    requires
        comparable(ar, pr, logits),
        log_softmax_is(ar, logits, lps),
        chosen < logits.len(),
        other < logits.len(),
        exact_probability(pr, logits, chosen as int) >= 2real * pr.unit,
        exact_probability(pr, logits, other as int) >= 2real * pr.unit,
        num(logits[chosen as int]) + 140real * step(pr, logits.len()) < num(logits[other as int]),
        from_logits_is(ar, logits, chosen, u),
        from_logits_is(ar, logits, other, v),
    ensures
        num(u.chosen_logprob) < num(v.chosen_logprob),
{
    law_chosen_logprob_is_exact(ar, pr, logits, lps, chosen, u);
    law_chosen_logprob_is_exact(ar, pr, logits, lps, other, v);
}

} // verus!
