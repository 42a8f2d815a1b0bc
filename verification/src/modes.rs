//! Both ways of observing a token, side by side.

use crate::accuracy::{
    accurate, close, fine_enough, law_constants_are_numbers, law_rank_orders_numbers, moderate,
    num, size, span, Precision,
};
use crate::arithmetic::{
    difference_is, exp_is, ln_is, product_is, sum_is, total_is, Arithmetic,
};
use crate::bounds::{lemma_parts_within_total, normalizes_faithfully};
use crate::determined::{deterministic, lemma_softmax};
use crate::float::{
    at_most, below, in_unit, is_finite, larger, largest, rank, smaller, total_rank, Bits,
    NEGATIVE_INFINITY, NEGATIVE_ZERO, ONE, ZERO,
};
use crate::folding::{
    lemma_folded_entropy, lemma_log_order, lemma_power_differs_little, lemma_powers_add_up,
    lemma_probability_near, lemma_quotient_near, lemma_share_in_unit, lemma_term_bounded,
    lemma_unit_is_small, lemma_whole_entropy, lemma_within_scaled, power_fits, probability_fits,
    share, small_unit, tail_error, within,
};
use crate::order::{descending, lemma_sorting_places, lemma_two_largest_places, two_largest};
use crate::shift::lemma_largest_of_finite;
use crate::sums::{
    distinct_places, inverse, lemma_inverse, lemma_places_are_few, lemma_sum_difference,
    lemma_sum_equal, lemma_sum_linear, lemma_sum_scaled, lemma_times_multiple, lemma_times_order,
    lemma_times_positive, lemma_times_regroup, lemma_times_sign, lemma_times_sum, sum_of, times,
};
use crate::uncertainty::{
    entropy_is, from_chosen_alone_is, from_logits_is, from_top_logprobs_is, less_outcome_is,
    logit_added, margin_is, outcome_added, probability_at, rest_is, softmax_entropy_is,
    softmax_gives, softmax_is, truncated_gives, truncated_is, Softmax, TokenUncertainty,
    Truncated, TAIL_FLOOR,
};
use vstd::prelude::*;

verus! {

/// The numbers in a list.
pub open spec fn numbers(s: Seq<Bits>) -> spec_fn(int) -> real {
    |i: int| num(s[i])
}

/// What the numbers in a list add to an exact entropy, as probabilities.
pub open spec fn shares(pr: Precision, s: Seq<Bits>) -> spec_fn(int) -> real {
    |i: int| share(pr, num(s[i]))
}

/// All numbers in a list lie in `[0, 1]`.
pub open spec fn all_in_unit(s: Seq<Bits>) -> bool {
    forall|i: int| #![trigger s[i]] 0 <= i < s.len() ==> at_most(ZERO, s[i]) && at_most(s[i], ONE)
}

/// `span` units, the error of a log-probability.
pub open spec fn step(pr: Precision, n: nat) -> real {
    times(span(pr, n), pr.unit)
}

/// A unit squared.
pub open spec fn square(pr: Precision) -> real {
    times(pr.unit, pr.unit)
}

/// The precision is small against the number of logits.
pub(crate) proof fn lemma_fine_enough<A: Arithmetic>(ar: &A, pr: Precision, n: nat)
    requires
        accurate(ar, pr),
        fine_enough(pr, n),
    ensures
        small_unit(pr, span(pr, n), step(pr, n), square(pr)),
        100real * times(n as real, step(pr, n)) <= 1real,
        0real <= times(n as real, step(pr, n)),
        step(pr, n) <= times(n as real, step(pr, n)),
        n as real + 1real <= span(pr, n),
{
    let g = span(pr, n);
    let e = step(pr, n);
    lemma_times_positive(g, pr.unit);
    lemma_times_order(2real, g, e);
    lemma_times_multiple(2real, 1real, e);
    lemma_times_sign(1real, e);
    lemma_times_order(n as real, g, e);
    lemma_times_order(1real, n as real, e);
}

/// The order of encodings, and what zero and one stand for.
pub(crate) proof fn lemma_order(a: Bits, b: Bits)
    ensures
        at_most(a, b) ==> num(a) <= num(b),
        rank(a) == 0 ==> num(a) == 0real,
        rank(a) <= rank(b) <==> num(a) <= num(b),
        num(ZERO) == 0real,
        num(ONE) == 1real,
{
    law_rank_orders_numbers(a, b);
    law_rank_orders_numbers(a, ZERO);
    law_rank_orders_numbers(ZERO, a);
    law_constants_are_numbers();
}

/// A number in `[0, 1]`.
pub(crate) proof fn lemma_unit_number(a: Bits)
    requires
        at_most(ZERO, a),
        at_most(a, ONE),
    ensures
        0real <= num(a) <= 1real,
        is_finite(a),
        below(ZERO, a) <==> num(a) > 0real,
        num(a) == 0real ==> rank(a) == 0,
{
    lemma_order(ZERO, a);
    lemma_order(a, ONE);
    lemma_order(a, ZERO);
}

/// A sum of numbers in `[0, 1]` does not overflow.
pub(crate) proof fn lemma_total_moderate<A: Arithmetic>(
    ar: &A,
    pr: Precision,
    n: nat,
    start: Bits,
    s: Seq<Bits>,
    r: Bits,
)
    requires
        accurate(ar, pr),
        normalizes_faithfully(ar),
        fine_enough(pr, n),
        s.len() <= n,
        all_in_unit(s),
        rank(start) == 0,
        total_is(ar, start, s, r),
    ensures
        is_finite(r),
        at_most(ZERO, r),
        num(r) <= s.len() as real + 2real * times(s.len() as real, step(pr, n)),
    decreases s.len(),
{
    let g = span(pr, n);
    let e = step(pr, n);
    lemma_fine_enough(ar, pr, n);
    lemma_unit_is_small(pr, g, e, square(pr));
    lemma_order(r, ZERO);
    lemma_times_sign(0real, e);
    if s.len() > 0 {
        let k = s.len() as real;
        let rest = s.drop_last();
        let p = choose|p: Bits|
            #![trigger sum_is(ar, p, s.last(), r)]
            total_is(ar, start, rest, p) && sum_is(ar, p, s.last(), r);
        assert(forall|i: int| 0 <= i < rest.len() ==> #[trigger] rest[i] == s[i]);
        lemma_total_moderate(ar, pr, n, start, rest, p);
        assert(s[s.len() - 1] == s.last());
        lemma_unit_number(s.last());
        lemma_order(ZERO, p);
        lemma_times_order(k - 1real, n as real, e);
        lemma_times_order(k, n as real, e);
        assert(rest.len() as real == k - 1real);
        assert(moderate(pr, p) && moderate(pr, s.last()));
        let x = num(p) + num(s.last());
        assert(close(pr, r, x));
        lemma_times_order(x + pr.unit, 2real * g, pr.unit);
        lemma_times_multiple(2real, pr.unit, g);
        lemma_times_sign(pr.unit, g);
        lemma_times_sum(k - 1real, 1real, e);
        lemma_times_sign(1real, e);
        assert(k - 1real + 1real == k);
    }
}

/// A sum of numbers in `[0, 1]` is near the exact sum.
pub(crate) proof fn lemma_total_near<A: Arithmetic>(
    ar: &A,
    pr: Precision,
    start: Bits,
    s: Seq<Bits>,
    r: Bits,
    top: real,
)
    requires
        accurate(ar, pr),
        normalizes_faithfully(ar),
        pr.unit > 0real,
        1real <= pr.wide,
        all_in_unit(s),
        rank(start) == 0,
        total_is(ar, start, s, r),
        is_finite(r),
        num(r) <= top <= pr.wide,
    ensures
        at_most(ZERO, r),
        within(
            num(r),
            sum_of(s.len(), numbers(s)),
            times(s.len() as real, times(pr.unit, 2real * top + pr.unit)),
        ),
    decreases s.len(),
{
    let c = times(pr.unit, 2real * top + pr.unit);
    lemma_order(r, ZERO);
    lemma_times_sign(0real, c);
    if s.len() > 0 {
        let k = s.len() as real;
        let rest = s.drop_last();
        let last = s.last();
        let p = choose|p: Bits|
            #![trigger sum_is(ar, p, s.last(), r)]
            total_is(ar, start, rest, p) && sum_is(ar, p, s.last(), r);
        assert(forall|i: int| 0 <= i < rest.len() ==> #[trigger] rest[i] == s[i]);
        assert(s[s.len() - 1] == last);
        lemma_unit_number(last);
        lemma_parts_within_total(ar, start, rest, p);
        assert(at_most(p, r) && at_most(last, r));
        lemma_order(p, r);
        lemma_order(last, r);
        lemma_order(ZERO, p);
        assert(is_finite(p));
        lemma_total_near(ar, pr, start, rest, p, top);
        lemma_sum_equal(rest.len(), numbers(rest), numbers(s));
        let x = num(p) + num(last);
        assert(moderate(pr, p) && moderate(pr, last));
        assert(close(pr, r, x));
        lemma_times_order(x + pr.unit, 2real * top + pr.unit, pr.unit);
        lemma_times_sum(k - 1real, 1real, c);
        lemma_times_sign(1real, c);
        assert(rest.len() as real == k - 1real);
        assert(k - 1real + 1real == k);
    }
}

/// One more outcome changes an entropy by about its share.
pub(crate) proof fn lemma_outcome_near<A: Arithmetic>(
    ar: &A,
    pr: Precision,
    n: nat,
    acc: Bits,
    p: Bits,
    r: Bits,
)
    requires
        accurate(ar, pr),
        fine_enough(pr, n),
        is_finite(acc),
        size(num(acc)) <= 2real * n as real + 2real,
        at_most(ZERO, p),
        at_most(p, ONE),
        outcome_added(ar, acc, p, r),
    ensures
        is_finite(r),
        within(num(r), num(acc) + share(pr, num(p)), 7real * step(pr, n)),
{
    let u = pr.unit;
    let g = span(pr, n);
    let e = step(pr, n);
    lemma_fine_enough(ar, pr, n);
    lemma_unit_is_small(pr, g, e, square(pr));
    lemma_unit_number(p);
    if below(ZERO, p) {
        let x = num(p);
        let l = choose|l: Bits| #[trigger] ln_is(ar, p, l) && less_outcome_is(ar, acc, p, l, r);
        let term = choose|term: Bits| #[trigger]
            product_is(ar, p, l, term) && difference_is(ar, acc, term, r);
        let a = (pr.log)(x);
        lemma_share_in_unit(pr, x);
        assert(moderate(pr, p));
        assert(close(pr, l, a) && -pr.reach <= num(l));
        lemma_times_order(u, 1real, -a + u);
        lemma_times_sign(1real, -a + u);
        assert(moderate(pr, l));
        // The error of the logarithm counts in proportion to the probability.
        lemma_within_scaled(num(l), a, times(u, -a + u), x);
        lemma_times_regroup(x, u, -a + u);
        lemma_times_sum(-a, u, x);
        lemma_times_sign(x, a);
        lemma_times_order(x, 1real, u);
        lemma_times_sign(1real, u);
        lemma_times_order(times(x, -a) + times(x, u), 2real, u);
        lemma_times_multiple(2real, u, 1real);
        lemma_times_sign(u, 1real);
        let y = times(x, num(l));
        assert(within(y, times(x, a), 2real * u));
        assert(close(pr, term, y));
        lemma_times_order(size(y) + u, 3real, u);
        lemma_times_multiple(3real, u, 1real);
        assert(within(num(term), times(x, a), 5real * u));
        lemma_difference_near(ar, pr, n, acc, term, r);
    }
}

/// A difference of moderate entropies is near the exact difference.
proof fn lemma_difference_near<A: Arithmetic>(
    ar: &A,
    pr: Precision,
    n: nat,
    acc: Bits,
    term: Bits,
    r: Bits,
)
    requires
        accurate(ar, pr),
        fine_enough(pr, n),
        is_finite(acc),
        is_finite(term),
        size(num(acc)) <= 2real * n as real + 2real,
        size(num(term)) <= 3real,
        difference_is(ar, acc, term, r),
    ensures
        is_finite(r),
        within(num(r), num(acc) - num(term), 4real * step(pr, n)),
{
    let u = pr.unit;
    let g = span(pr, n);
    let e = step(pr, n);
    lemma_fine_enough(ar, pr, n);
    lemma_unit_is_small(pr, g, e, square(pr));
    assert(moderate(pr, acc) && moderate(pr, term));
    let x = num(acc) - num(term);
    assert(close(pr, r, x));
    lemma_times_order(size(x) + u, 4real * g, u);
    lemma_times_multiple(4real, u, g);
    lemma_times_sign(u, g);
}

/// A computed entropy is near the exact one.
pub(crate) proof fn lemma_entropy_near<A: Arithmetic>(
    ar: &A,
    pr: Precision,
    n: nat,
    probs: Seq<Bits>,
    r: Bits,
)
    requires
        accurate(ar, pr),
        fine_enough(pr, n),
        probs.len() <= n,
        all_in_unit(probs),
        entropy_is(ar, probs, r),
    ensures
        is_finite(r),
        within(
            num(r),
            sum_of(probs.len(), shares(pr, probs)),
            7real * times(probs.len() as real, step(pr, n)),
        ),
        0real <= sum_of(probs.len(), shares(pr, probs)) <= probs.len() as real,
    decreases probs.len(),
{
    let e = step(pr, n);
    lemma_fine_enough(ar, pr, n);
    lemma_unit_is_small(pr, span(pr, n), e, square(pr));
    lemma_order(ZERO, ZERO);
    lemma_times_sign(0real, e);
    if probs.len() > 0 {
        let k = probs.len() as real;
        let rest = probs.drop_last();
        let last = probs.last();
        let p = choose|p: Bits|
            #![trigger outcome_added(ar, p, probs.last(), r)]
            entropy_is(ar, rest, p) && outcome_added(ar, p, probs.last(), r);
        assert(forall|i: int| 0 <= i < rest.len() ==> #[trigger] rest[i] == probs[i]);
        assert(probs[probs.len() - 1] == last);
        lemma_entropy_near(ar, pr, n, rest, p);
        lemma_sum_equal(rest.len(), shares(pr, rest), shares(pr, probs));
        lemma_times_order(k - 1real, n as real, e);
        assert(rest.len() as real == k - 1real);
        lemma_outcome_near(ar, pr, n, p, last, r);
        lemma_unit_number(last);
        lemma_share_in_unit(pr, num(last));
        lemma_times_sum(k - 1real, 1real, e);
        lemma_times_sign(1real, e);
        assert(k - 1real + 1real == k);
    }
}

/// One more logit changes an entropy by about its probability times its
/// log-probability.
proof fn lemma_logit_near<A: Arithmetic>(
    ar: &A,
    pr: Precision,
    n: nat,
    acc: Bits,
    p: Bits,
    shifted: Bits,
    log_total: Bits,
    l: Bits,
    r: Bits,
)
    requires
        accurate(ar, pr),
        deterministic(ar),
        fine_enough(pr, n),
        is_finite(acc),
        size(num(acc)) <= 2real * n as real + 2real,
        at_most(ZERO, p),
        at_most(p, ONE),
        difference_is(ar, shifted, log_total, l),
        num(p) > 0real ==> is_finite(l),
        probability_fits(pr, span(pr, n), step(pr, n), square(pr), num(p), num(l)),
        logit_added(ar, acc, p, shifted, log_total, r),
    ensures
        is_finite(r),
        within(num(r), num(acc) - times(num(p), num(l)), 7real * step(pr, n)),
{
    let u = pr.unit;
    let g = span(pr, n);
    let e = step(pr, n);
    lemma_fine_enough(ar, pr, n);
    lemma_unit_is_small(pr, g, e, square(pr));
    lemma_unit_number(p);
    lemma_term_bounded(pr, g, e, square(pr), num(p), num(l));
    lemma_times_sign(0real, num(l));
    if below(ZERO, p) {
        let found = choose|found: Bits| #[trigger]
            difference_is(ar, shifted, log_total, found) && less_outcome_is(ar, acc, p, found, r);
        assert(found == l);
        let term = choose|term: Bits| #[trigger]
            product_is(ar, p, l, term) && difference_is(ar, acc, term, r);
        assert(moderate(pr, l));
        let y = times(num(p), num(l));
        assert(close(pr, term, y));
        lemma_times_order(size(y) + u, 3real, u);
        lemma_times_multiple(3real, u, 1real);
        lemma_times_sign(u, 1real);
        lemma_difference_near(ar, pr, n, acc, term, r);
    }
}

/// What the probabilities add to an exact entropy, by their log-probabilities.
pub open spec fn terms(probs: Seq<Bits>, lps: Seq<Bits>) -> spec_fn(int) -> real {
    |i: int| -times(num(probs[i]), num(lps[i]))
}

/// The log-probabilities of a softmax fit its probabilities.
pub open spec fn lists_fit<A: Arithmetic>(
    ar: &A,
    pr: Precision,
    n: nat,
    w: Softmax,
    lps: Seq<Bits>,
) -> bool {
    &&& w.probs.len() == n && w.shifted.len() == n && lps.len() == n
    &&& all_in_unit(w.probs)
    &&& forall|i: int|
        #![trigger lps[i]]
        0 <= i < n ==> {
            &&& difference_is(ar, w.shifted[i], w.log_total, lps[i])
            &&& at_most(lps[i], ZERO)
            &&& num(w.probs[i]) > 0real ==> is_finite(lps[i])
            &&& probability_fits(
                pr,
                span(pr, n),
                step(pr, n),
                square(pr),
                num(w.probs[i]),
                num(lps[i]),
            )
        }
}

/// The computed entropy of a softmax is near the exact one, over the first `k`
/// places.
proof fn lemma_softmax_entropy_near<A: Arithmetic>(
    ar: &A,
    pr: Precision,
    n: nat,
    w: Softmax,
    lps: Seq<Bits>,
    k: nat,
    r: Bits,
)
    requires
        accurate(ar, pr),
        deterministic(ar),
        fine_enough(pr, n),
        lists_fit(ar, pr, n, w, lps),
        k <= n,
        softmax_entropy_is(
            ar,
            w.probs.take(k as int),
            w.shifted.take(k as int),
            w.log_total,
            r,
        ),
    ensures
        is_finite(r),
        within(
            num(r),
            sum_of(k, terms(w.probs, lps)),
            7real * times(k as real, step(pr, n)),
        ),
        0real <= sum_of(k, terms(w.probs, lps)) <= 2real * k as real,
    decreases k,
{
    let e = step(pr, n);
    lemma_fine_enough(ar, pr, n);
    lemma_unit_is_small(pr, span(pr, n), e, square(pr));
    lemma_order(ZERO, ZERO);
    lemma_times_sign(0real, e);
    if k > 0 {
        let m = (k - 1) as nat;
        let probs = w.probs.take(k as int);
        let shifted = w.shifted.take(k as int);
        let p = choose|p: Bits|
            #![trigger logit_added(ar, p, probs.last(), shifted.last(), w.log_total, r)]
            softmax_entropy_is(ar, probs.drop_last(), shifted.drop_last(), w.log_total, p)
                && logit_added(ar, p, probs.last(), shifted.last(), w.log_total, r);
        assert(probs.drop_last() =~= w.probs.take(m as int));
        assert(shifted.drop_last() =~= w.shifted.take(m as int));
        lemma_softmax_entropy_near(ar, pr, n, w, lps, m, p);
        lemma_times_order(m as real, n as real, e);
        assert(at_most(ZERO, w.probs[k - 1]) && at_most(w.probs[k - 1], ONE));
        assert(difference_is(ar, w.shifted[k - 1], w.log_total, lps[k - 1]));
        lemma_logit_near(
            ar,
            pr,
            n,
            p,
            w.probs[k - 1],
            w.shifted[k - 1],
            w.log_total,
            lps[k - 1],
            r,
        );
        lemma_term_bounded(
            pr,
            span(pr, n),
            e,
            square(pr),
            num(w.probs[k - 1]),
            num(lps[k - 1]),
        );
        lemma_times_sum(m as real, 1real, e);
        lemma_times_sign(1real, e);
        assert(m as real + 1real == k as real);
    }
}

/// All numbers in a list are finite.
pub open spec fn all_finite(s: Seq<Bits>) -> bool {
    forall|i: int| #![trigger s[i]] 0 <= i < s.len() ==> is_finite(s[i])
}

/// The computed total, inverse and logarithm of a softmax are near the exact
/// ones.
pub open spec fn totals_fit(pr: Precision, n: nat, w: Softmax) -> bool {
    let t = num(w.total);
    let u = pr.unit;
    &&& w.shifted.len() == n && w.weights.len() == n && w.probs.len() == n
    &&& all_in_unit(w.weights)
    &&& 1real <= t <= n as real + 1real
    &&& within(t, sum_of(n, numbers(w.weights)), times(n as real, times(u, 2real * t + u)))
    &&& at_most(ZERO, w.inverse) && at_most(w.inverse, ONE)
    &&& within(num(w.inverse), inverse(t), times(u, inverse(t) + u))
    &&& at_most(ZERO, w.log_total) && is_finite(w.log_total)
    &&& num(w.log_total) <= n as real + 1real
    &&& within(num(w.log_total), (pr.log)(t), step(pr, n))
}

/// The totals of the softmax of finite logits.
pub(crate) proof fn lemma_totals_fit<A: Arithmetic>(
    ar: &A,
    pr: Precision,
    n: nat,
    logits: Seq<Bits>,
    w: Softmax,
)
    requires
        accurate(ar, pr),
        normalizes_faithfully(ar),
        fine_enough(pr, n),
        logits.len() == n,
        all_finite(logits),
        softmax_is(ar, logits, w),
    ensures
        totals_fit(pr, n, w),
        forall|i: int| #![trigger w.shifted[i]] 0 <= i < n ==> at_most(w.shifted[i], ZERO),
{
    let u = pr.unit;
    let g = span(pr, n);
    let e = step(pr, n);
    let top = largest(logits);
    lemma_fine_enough(ar, pr, n);
    lemma_unit_is_small(pr, g, e, square(pr));
    let k = lemma_largest_of_finite(logits);
    assert(is_finite(logits[k]));
    assert forall|i: int| #![trigger w.shifted[i]] 0 <= i < n implies at_most(w.shifted[i], ZERO) by {
        assert(difference_is(ar, logits[i], top, w.shifted[i]));
        assert(is_finite(logits[i]));
    }
    assert forall|i: int| #![trigger w.weights[i]] 0 <= i < n implies at_most(ZERO, w.weights[i])
        && at_most(w.weights[i], ONE) by {
        assert(at_most(w.shifted[i], ZERO));
        assert(exp_is(ar, w.shifted[i], w.weights[i]));
    }
    assert(difference_is(ar, logits[k], top, w.shifted[k]));
    assert(exp_is(ar, w.shifted[k], w.weights[k]));
    assert(w.weights[k] == ONE);
    lemma_parts_within_total(ar, ZERO, w.weights, w.total);
    assert(at_most(w.weights[k], w.total));
    lemma_order(ONE, w.total);
    lemma_total_moderate(ar, pr, n, ZERO, w.weights, w.total);
    let t = num(w.total);
    lemma_total_near(ar, pr, ZERO, w.weights, w.total, t);
    assert(moderate(pr, w.total));
    lemma_inverse(t);
    assert(close(pr, w.inverse, inverse(t)));
    let a = (pr.log)(t);
    lemma_log_order(pr, 1real, t);
    assert(times(1real, a - (pr.log)(1real)) <= t - 1real);
    lemma_times_sign(1real, a - (pr.log)(1real));
    assert(close(pr, w.log_total, a));
    lemma_times_order(a + u, g, u);
    lemma_times_sign(u, g);
}

/// A number that is too small to be told from zero.
proof fn lemma_vanishing(pr: Precision, g: real, e: real, b: real, s: real, l: real)
    requires
        small_unit(pr, g, e, b),
        l <= s,
        within(0real, (pr.exp)(s), times(pr.unit, (pr.exp)(s) + pr.unit)),
    ensures
        (pr.exp)(l) <= 2real * b,
{
    let u = pr.unit;
    let x = (pr.exp)(s);
    let z = (pr.exp)(l);
    assert(x > 0real && (pr.log)(x) == s && z > 0real && (pr.log)(z) == l);
    lemma_unit_is_small(pr, g, e, b);
    lemma_times_sum(x, u, u);
    lemma_times_order(400real * u, 1real, x);
    lemma_times_multiple(400real, u, x);
    lemma_times_sign(1real, x);
    if z > x {
        assert(times(z, s - l) <= x - z);
        lemma_times_order(0real, s - l, z);
        lemma_times_sign(z, 0real);
    }
}

/// A log-probability and a probability of the softmax of finite logits fit.
pub(crate) proof fn lemma_place_fits<A: Arithmetic>(
    ar: &A,
    pr: Precision,
    n: nat,
    w: Softmax,
    i: int,
    l: Bits,
)
    requires
        accurate(ar, pr),
        normalizes_faithfully(ar),
        fine_enough(pr, n),
        totals_fit(pr, n, w),
        0 <= i < n,
        at_most(w.shifted[i], ZERO),
        exp_is(ar, w.shifted[i], w.weights[i]),
        product_is(ar, w.weights[i], w.inverse, w.probs[i]),
        difference_is(ar, w.shifted[i], w.log_total, l),
    ensures
        at_most(l, ZERO),
        at_most(ZERO, w.probs[i]),
        at_most(w.probs[i], ONE),
        num(w.probs[i]) > 0real ==> is_finite(l),
        num(l) >= -(2real * span(pr, n)) && is_finite(l) || num(l) < -pr.reach || !is_finite(l),
        probability_fits(
            pr,
            span(pr, n),
            step(pr, n),
            square(pr),
            num(w.probs[i]),
            num(l),
        ),
{
    let u = pr.unit;
    let g = span(pr, n);
    let e = step(pr, n);
    let s = w.shifted[i];
    let p = w.probs[i];
    lemma_fine_enough(ar, pr, n);
    lemma_unit_is_small(pr, g, e, square(pr));
    assert(at_most(ZERO, w.weights[i]) && at_most(w.weights[i], ONE));
    lemma_unit_number(w.weights[i]);
    lemma_unit_number(w.inverse);
    lemma_unit_number(p);
    lemma_order(s, ZERO);
    lemma_order(l, s);
    lemma_order(ZERO, w.log_total);
    assert(at_most(l, s));
    let x = (pr.exp)(num(s));
    assert(close(pr, w.weights[i], x));
    assert(x > 0real);
    assert(moderate(pr, w.inverse));
    lemma_times_order(0real, num(w.inverse), num(w.weights[i]));
    lemma_times_sign(num(w.weights[i]), 0real);
    assert(close(pr, p, times(num(w.weights[i]), num(w.inverse))));
    if is_finite(s) && num(s) >= -pr.reach {
        assert(moderate(pr, s) && moderate(pr, w.log_total));
        let d = num(s) - num(w.log_total);
        assert(close(pr, l, d));
        lemma_times_order(size(d) + u, 2real * g, u);
        lemma_times_multiple(2real, u, g);
        lemma_times_sign(u, g);
        lemma_probability_near(
            pr,
            g,
            e,
            square(pr),
            num(s),
            num(w.total),
            num(w.weights[i]),
            num(w.inverse),
            num(p),
            num(l),
        );
    } else {
        assert(rank(w.weights[i]) == 0);
        lemma_order(w.weights[i], ZERO);
        lemma_order(p, ZERO);
        assert(num(p) == 0real);
        lemma_vanishing(pr, g, e, square(pr), num(s), num(l));
        lemma_times_positive(e, (pr.exp)(num(l)));
        assert((pr.exp)(num(l)) > 0real);
        if !is_finite(s) {
            assert(!is_finite(l));
        }
    }
}

/// The computed power of a computed log-probability fits it.
pub(crate) proof fn lemma_power_fits<A: Arithmetic>(ar: &A, pr: Precision, n: nat, l: Bits, q: Bits)
    requires
        accurate(ar, pr),
        normalizes_faithfully(ar),
        at_most(l, ZERO),
        num(l) >= -(2real * span(pr, n)) && is_finite(l) || num(l) < -pr.reach || !is_finite(l),
        exp_is(ar, l, q),
    ensures
        at_most(ZERO, q),
        at_most(q, ONE),
        power_fits(pr, span(pr, n), num(q), num(l)),
{
    lemma_unit_number(q);
    lemma_order(q, ZERO);
    assert(close(pr, q, (pr.exp)(num(l))));
    assert((pr.exp)(num(l)) > 0real);
}

/// The computed probabilities of a softmax add up to about one.
proof fn lemma_probabilities_add_up<A: Arithmetic>(ar: &A, pr: Precision, n: nat, w: Softmax)
    requires
        accurate(ar, pr),
        normalizes_faithfully(ar),
        fine_enough(pr, n),
        totals_fit(pr, n, w),
        forall|i: int| #![trigger w.probs[i]]
            0 <= i < n ==> product_is(ar, w.weights[i], w.inverse, w.probs[i]),
    ensures
        within(sum_of(n, numbers(w.probs)), 1real, 5real * step(pr, n)),
{
    let u = pr.unit;
    let g = span(pr, n);
    let e = step(pr, n);
    let b = square(pr);
    let t = num(w.total);
    let c = inverse(t);
    let k = n as real;
    lemma_fine_enough(ar, pr, n);
    lemma_unit_is_small(pr, g, e, b);
    lemma_inverse(t);
    let probs = numbers(w.probs);
    let weights = numbers(w.weights);
    let exact = |i: int| times(c, weights(i));
    let more = |i: int| probs(i) - exact(i);
    let less = |i: int| exact(i) - probs(i);
    assert forall|i: int| 0 <= i < n implies #[trigger] more(i) <= times(3real * u, exact(i)) + 3real
        * b && less(i) <= times(3real * u, exact(i)) + 3real * b by {
        assert(product_is(ar, w.weights[i], w.inverse, w.probs[i]));
        assert(at_most(ZERO, w.weights[i]) && at_most(w.weights[i], ONE));
        lemma_unit_number(w.weights[i]);
        lemma_unit_number(w.inverse);
        lemma_times_order(0real, num(w.inverse), num(w.weights[i]));
        lemma_times_sign(num(w.weights[i]), 0real);
        assert(moderate(pr, w.inverse));
        assert(close(pr, w.probs[i], times(num(w.weights[i]), num(w.inverse))));
        lemma_quotient_near(u, t, num(w.weights[i]), num(w.inverse), num(w.probs[i]));
        lemma_times_sign(c, num(w.weights[i]));
        lemma_times_sum(exact(i), u, u);
        lemma_times_multiple(3real, u, exact(i));
    }
    assert forall|i: int| #![trigger less(i)] 0 <= i < n implies less(i) <= times(
        3real * u,
        exact(i),
    ) + 3real * b by {
        assert(more(i) == probs(i) - exact(i));
    }
    lemma_sum_linear(n, more, exact, 3real * u, 3real * b);
    lemma_sum_linear(n, less, exact, 3real * u, 3real * b);
    lemma_sum_difference(n, probs, exact, more);
    lemma_sum_difference(n, exact, probs, less);
    lemma_sum_scaled(n, weights, c, exact);
    // The exact quotients add up to one, but for the error of the total.
    let sum = sum_of(n, weights);
    let d = times(k, times(u, 2real * t + u));
    lemma_within_scaled(t, sum, d, c);
    lemma_times_regroup(c, k, times(u, 2real * t + u));
    lemma_times_regroup(c, u, 2real * t + u);
    lemma_times_sum(2real * t, u, c);
    lemma_times_multiple(2real, c, t);
    lemma_times_order(c, 1real, u);
    lemma_times_sign(1real, u);
    lemma_times_order(times(c, 2real * t + u), 3real, u);
    lemma_times_multiple(3real, u, 1real);
    lemma_times_sign(u, 1real);
    lemma_times_order(times(u, times(c, 2real * t + u)), 3real * u, k);
    lemma_times_multiple(3real, k, u);
    lemma_times_order(k, g, u);
    let total = sum_of(n, exact);
    assert(within(total, 1real, 3real * e));
    lemma_times_order(total, 1real + 3real * e, 3real * u);
    lemma_times_sum(1real, 3real * e, 3real * u);
    lemma_times_sign(3real * u, 1real);
    lemma_times_multiple(3real, 3real * u, e);
    lemma_times_multiple(3real, u, e);
    lemma_times_multiple(3real, k, b);
    lemma_times_order(k, g, b);
    lemma_times_regroup(g, u, u);
    lemma_times_sign(e, u);
}

/// `lps` can be the log-probabilities that the softmax of `logits` gives: its
/// shifted logits, less the logarithm of the total.
pub open spec fn log_softmax_is<A: Arithmetic>(ar: &A, logits: Seq<Bits>, lps: Seq<Bits>) -> bool {
    lps.len() == logits.len() && exists|w: Softmax| #[trigger]
        softmax_is(ar, logits, w) && forall|i: int|
            #![trigger lps[i]]
            0 <= i < lps.len() ==> difference_is(ar, w.shifted[i], w.log_total, lps[i])
}

/// The items of a list at some places.
pub open spec fn picked(s: Seq<Bits>, places: Seq<int>) -> Seq<Bits> {
    places.map_values(|i: int| s[i])
}

/// The powers of log-probabilities fit them.
pub open spec fn powers_fit(
    pr: Precision,
    n: nat,
    lps: Seq<Bits>,
    places: Seq<int>,
    q: Seq<Bits>,
) -> bool {
    &&& distinct_places(places, n)
    &&& q.len() == places.len()
    &&& all_in_unit(q)
    &&& forall|j: int|
        #![trigger q[j]]
        0 <= j < q.len() ==> power_fits(pr, span(pr, n), num(q[j]), num(lps[places[j]]))
}

/// The softmax of finite logits, its log-probabilities and its entropy.
#[verifier::rlimit(40)]
pub(crate) proof fn lemma_softmax_fits<A: Arithmetic>(
    ar: &A,
    pr: Precision,
    n: nat,
    logits: Seq<Bits>,
    lps: Seq<Bits>,
    w: Softmax,
)
    requires
        accurate(ar, pr),
        normalizes_faithfully(ar),
        deterministic(ar),
        fine_enough(pr, n),
        logits.len() == n,
        all_finite(logits),
        log_softmax_is(ar, logits, lps),
        softmax_is(ar, logits, w),
    ensures
        lists_fit(ar, pr, n, w, lps),
        within(sum_of(n, numbers(w.probs)), 1real, 5real * step(pr, n)),
        is_finite(w.entropy),
        within(
            num(w.entropy),
            sum_of(n, terms(w.probs, lps)),
            7real * times(n as real, step(pr, n)),
        ),
        forall|i: int, q: Bits| 0 <= i < n && #[trigger] exp_is(ar, lps[i], q) ==> at_most(ZERO, q)
            && at_most(q, ONE) && power_fits(pr, span(pr, n), num(q), num(lps[i])),
{
    let x = choose|x: Softmax| #[trigger]
        softmax_is(ar, logits, x) && forall|i: int|
            #![trigger lps[i]]
            0 <= i < lps.len() ==> difference_is(ar, x.shifted[i], x.log_total, lps[i]);
    lemma_softmax(ar, logits, w, x);
    lemma_totals_fit(ar, pr, n, logits, w);
    assert forall|i: int| #![trigger lps[i]] 0 <= i < n implies {
        &&& difference_is(ar, w.shifted[i], w.log_total, lps[i])
        &&& at_most(lps[i], ZERO)
        &&& num(w.probs[i]) > 0real ==> is_finite(lps[i])
        &&& probability_fits(
            pr,
            span(pr, n),
            step(pr, n),
            square(pr),
            num(w.probs[i]),
            num(lps[i]),
        )
        &&& at_most(ZERO, w.probs[i]) && at_most(w.probs[i], ONE)
    } by {
        assert(difference_is(ar, x.shifted[i], x.log_total, lps[i]));
        assert(at_most(w.shifted[i], ZERO));
        assert(exp_is(ar, w.shifted[i], w.weights[i]));
        assert(product_is(ar, w.weights[i], w.inverse, w.probs[i]));
        lemma_place_fits(ar, pr, n, w, i, lps[i]);
    }
    assert(all_in_unit(w.probs)) by {
        assert forall|i: int| #![trigger w.probs[i]] 0 <= i < w.probs.len() implies at_most(
            ZERO,
            w.probs[i],
        ) && at_most(w.probs[i], ONE) by {
            assert(at_most(lps[i], ZERO));
        }
    }
    lemma_probabilities_add_up(ar, pr, n, w);
    assert(w.probs.take(n as int) =~= w.probs);
    assert(w.shifted.take(n as int) =~= w.shifted);
    lemma_softmax_entropy_near(ar, pr, n, w, lps, n, w.entropy);
    assert forall|i: int, q: Bits| 0 <= i < n && #[trigger] exp_is(ar, lps[i], q) implies at_most(
        ZERO,
        q,
    ) && at_most(q, ONE) && power_fits(pr, span(pr, n), num(q), num(lps[i])) by {
        assert(difference_is(ar, w.shifted[i], w.log_total, lps[i]));
        assert(at_most(w.shifted[i], ZERO));
        assert(exp_is(ar, w.shifted[i], w.weights[i]));
        assert(product_is(ar, w.weights[i], w.inverse, w.probs[i]));
        lemma_place_fits(ar, pr, n, w, i, lps[i]);
        lemma_power_fits(ar, pr, n, lps[i], q);
    }
}

/// What is left of one is near the exact rest.
pub(crate) proof fn lemma_rest_near<A: Arithmetic>(ar: &A, pr: Precision, n: nat, a: Bits, r: Bits)
    requires
        accurate(ar, pr),
        fine_enough(pr, n),
        at_most(ZERO, a),
        at_most(a, ONE),
        rest_is(ar, a, r),
    ensures
        at_most(ZERO, r),
        at_most(r, ONE),
        within(num(r), 1real - num(a), step(pr, n)),
{
    let u = pr.unit;
    lemma_fine_enough(ar, pr, n);
    lemma_unit_is_small(pr, span(pr, n), step(pr, n), square(pr));
    let gap = choose|gap: Bits| #[trigger]
        difference_is(ar, ONE, a, gap) && r == larger(gap, ZERO);
    lemma_unit_number(a);
    lemma_order(ONE, ONE);
    lemma_order(gap, ZERO);
    lemma_order(ZERO, gap);
    assert(moderate(pr, ONE) && moderate(pr, a));
    assert(close(pr, gap, 1real - num(a)));
    lemma_times_order(1real - num(a) + u, 2real, u);
    lemma_times_multiple(2real, u, 1real);
    lemma_times_sign(u, 1real);
}

/// The total of powers at different places is near the exact one.
proof fn lemma_powers_total<A: Arithmetic>(
    ar: &A,
    pr: Precision,
    n: nat,
    q: Seq<Bits>,
    start: Bits,
    total: Bits,
)
    requires
        accurate(ar, pr),
        normalizes_faithfully(ar),
        fine_enough(pr, n),
        q.len() <= n,
        all_in_unit(q),
        rank(start) == 0,
        total_is(ar, start, q, total),
        sum_of(q.len(), numbers(q)) <= 1real + 34real * step(pr, n),
    ensures
        at_most(ZERO, total),
        is_finite(total),
        within(num(total), sum_of(q.len(), numbers(q)), 5real * step(pr, n)),
{
    let u = pr.unit;
    let g = span(pr, n);
    let e = step(pr, n);
    let k = q.len() as real;
    lemma_fine_enough(ar, pr, n);
    lemma_unit_is_small(pr, g, e, square(pr));
    lemma_total_moderate(ar, pr, n, start, q, total);
    lemma_times_order(k, n as real, e);
    let t = num(total);
    lemma_total_near(ar, pr, start, q, total, t);
    // First a rough bound, by which the total is below two.
    lemma_times_order(2real * t + u, 4real * g, u);
    lemma_times_multiple(4real, u, g);
    lemma_times_sign(u, g);
    lemma_times_order(times(u, 2real * t + u), 4real * e, k);
    lemma_times_multiple(4real, k, e);
    assert(t <= 3real / 2real);
    lemma_times_order(2real * t + u, 4real, u);
    lemma_times_multiple(4real, u, 1real);
    lemma_times_sign(u, 1real);
    lemma_times_order(times(u, 2real * t + u), 4real * u, k);
    lemma_times_multiple(4real, k, u);
    lemma_times_order(k, g, u);
}

/// The exact entropy with and without the tail, against that of the softmax.
proof fn lemma_tail_near<A: Arithmetic>(
    ar: &A,
    pr: Precision,
    n: nat,
    lps: Seq<Bits>,
    w: Softmax,
    places: Seq<int>,
    q: Seq<Bits>,
    total: real,
    tail: Bits,
)
    requires
        accurate(ar, pr),
        fine_enough(pr, n),
        lists_fit(ar, pr, n, w, lps),
        within(sum_of(n, numbers(w.probs)), 1real, 5real * step(pr, n)),
        powers_fit(pr, n, lps, places, q),
        within(total, sum_of(q.len(), numbers(q)), 5real * step(pr, n)),
        at_most(ZERO, tail),
        within(
            num(tail),
            if total < 1real {
                1real - total
            } else {
                0real
            },
            step(pr, n),
        ),
    ensures
        sum_of(q.len(), shares(pr, q)) <= sum_of(n, terms(w.probs, lps)) + 16real * times(
            n as real,
            step(pr, n),
        ),
        sum_of(q.len(), shares(pr, q)) + share(pr, num(tail)) <= sum_of(n, terms(w.probs, lps))
            + 16real * times(n as real, step(pr, n)) + tail_error(pr, step(pr, n)),
        tail_error(pr, step(pr, n)) >= 0real,
{
    let p = numbers(w.probs);
    let l = numbers(lps);
    lemma_fine_enough(ar, pr, n);
    lemma_order(ZERO, tail);
    assert forall|i: int| #![trigger p(i)] 0 <= i < n implies probability_fits(
        pr,
        span(pr, n),
        step(pr, n),
        square(pr),
        p(i),
        l(i),
    ) by {
        assert(at_most(lps[i], ZERO));
    }
    assert forall|j: int| #![trigger numbers(q)(j)] 0 <= j < places.len() implies power_fits(
        pr,
        span(pr, n),
        numbers(q)(j),
        l(places[j]),
    ) by {
        assert(at_most(q[j], ONE));
    }
    lemma_folded_entropy(
        pr,
        span(pr, n),
        step(pr, n),
        square(pr),
        n,
        places,
        p,
        l,
        numbers(q),
        terms(w.probs, lps),
        shares(pr, q),
        total,
        num(tail),
    );
}

/// The powers at different places add up to little more than one.
proof fn lemma_powers_sum<A: Arithmetic>(
    ar: &A,
    pr: Precision,
    n: nat,
    lps: Seq<Bits>,
    w: Softmax,
    places: Seq<int>,
    q: Seq<Bits>,
)
    requires
        accurate(ar, pr),
        fine_enough(pr, n),
        lists_fit(ar, pr, n, w, lps),
        within(sum_of(n, numbers(w.probs)), 1real, 5real * step(pr, n)),
        powers_fit(pr, n, lps, places, q),
    ensures
        q.len() <= n,
        sum_of(q.len(), numbers(q)) <= 1real + 34real * step(pr, n),
{
    let p = numbers(w.probs);
    let l = numbers(lps);
    lemma_fine_enough(ar, pr, n);
    lemma_places_are_few(places, n);
    assert forall|i: int| #![trigger p(i)] 0 <= i < n implies probability_fits(
        pr,
        span(pr, n),
        step(pr, n),
        square(pr),
        p(i),
        l(i),
    ) by {
        assert(at_most(lps[i], ZERO));
    }
    assert forall|j: int| #![trigger numbers(q)(j)] 0 <= j < places.len() implies power_fits(
        pr,
        span(pr, n),
        numbers(q)(j),
        l(places[j]),
    ) by {
        assert(at_most(q[j], ONE));
    }
    lemma_powers_add_up(
        pr,
        span(pr, n),
        step(pr, n),
        square(pr),
        n,
        places,
        p,
        l,
        numbers(q),
    );
}

/// The larger of a number and zero.
pub(crate) proof fn lemma_not_negative(a: Bits)
    requires
        is_finite(a),
    ensures
        is_finite(larger(a, ZERO)),
        num(larger(a, ZERO)) == if num(a) > 0real {
            num(a)
        } else {
            0real
        },
{
    lemma_order(a, ZERO);
    lemma_order(ZERO, a);
}

/// The powers of a truncated distribution whose log-probabilities are among those
/// of a softmax.
#[verifier::rlimit(40)]
proof fn lemma_truncated_powers<A: Arithmetic>(
    ar: &A,
    pr: Precision,
    n: nat,
    logits: Seq<Bits>,
    lps: Seq<Bits>,
    w: Softmax,
    seen: Seq<int>,
    x: Truncated,
) -> (places: Seq<int>)
    requires
        accurate(ar, pr),
        normalizes_faithfully(ar),
        deterministic(ar),
        fine_enough(pr, n),
        logits.len() == n,
        all_finite(logits),
        log_softmax_is(ar, logits, lps),
        softmax_is(ar, logits, w),
        distinct_places(seen, n),
        truncated_is(ar, picked(lps, seen), x),
    ensures
        places.len() == seen.len(),
        powers_fit(pr, n, lps, places, x.probs),
{
    lemma_softmax_fits(ar, pr, n, logits, lps, w);
    let inner = lemma_sorting_places(x.weights, x.probs);
    let places = Seq::new(inner.len(), |j: int| seen[inner[j]]);
    assert forall|j: int| #![trigger places[j]] 0 <= j < places.len() implies 0 <= places[j] < n by {
        assert(0 <= inner[j] < seen.len());
        assert(0 <= seen[inner[j]] < n);
    }
    assert forall|i: int, j: int|
        #![trigger places[i], places[j]]
        0 <= i < j < places.len() implies places[i] != places[j] by {
        assert(inner[i] != inner[j]);
        assert(0 <= inner[i] < seen.len() && 0 <= inner[j] < seen.len());
        if inner[i] < inner[j] {
            assert(seen[inner[i]] != seen[inner[j]]);
        } else {
            assert(seen[inner[j]] != seen[inner[i]]);
        }
    }
    assert forall|j: int| #![trigger x.probs[j]] 0 <= j < x.probs.len() implies at_most(
        ZERO,
        x.probs[j],
    ) && at_most(x.probs[j], ONE) && power_fits(
        pr,
        span(pr, n),
        num(x.probs[j]),
        num(lps[places[j]]),
    ) by {
        let k = inner[j];
        assert(0 <= k < seen.len());
        assert(x.probs[j] == x.weights[k]);
        assert(exp_is(ar, picked(lps, seen)[k], x.weights[k]));
        assert(picked(lps, seen)[k] == lps[seen[k]]);
        assert(0 <= places[j] < n);
        assert(exp_is(ar, lps[places[j]], x.probs[j]));
    }
    places
}

/// The entropy of a truncated distribution whose powers are those of a softmax.
#[verifier::rlimit(40)]
proof fn lemma_truncated_entropy<A: Arithmetic>(
    ar: &A,
    pr: Precision,
    n: nat,
    tops: Seq<Bits>,
    lps: Seq<Bits>,
    w: Softmax,
    places: Seq<int>,
    x: Truncated,
)
    requires
        accurate(ar, pr),
        normalizes_faithfully(ar),
        fine_enough(pr, n),
        lists_fit(ar, pr, n, w, lps),
        within(sum_of(n, numbers(w.probs)), 1real, 5real * step(pr, n)),
        powers_fit(pr, n, lps, places, x.probs),
        truncated_is(ar, tops, x),
    ensures
        is_finite(x.entropy),
        num(x.entropy) <= sum_of(n, terms(w.probs, lps)) + 30real * times(
            n as real,
            step(pr, n),
        ) + tail_error(pr, step(pr, n)),
        sum_of(x.probs.len(), shares(pr, x.probs)) <= num(x.entropy) + 14real * times(
            n as real,
            step(pr, n),
        ),
        tail_error(pr, step(pr, n)) >= 0real,
{
    let e = step(pr, n);
    lemma_fine_enough(ar, pr, n);
    lemma_unit_is_small(pr, span(pr, n), e, square(pr));
    lemma_powers_sum(ar, pr, n, lps, w, places, x.probs);
    lemma_powers_total(ar, pr, n, x.probs, NEGATIVE_ZERO, x.total);
    let m = smaller(x.total, ONE);
    lemma_order(x.total, ONE);
    lemma_order(ONE, x.total);
    assert(at_most(ZERO, m) && at_most(m, ONE));
    lemma_rest_near(ar, pr, n, m, x.tail);
    lemma_tail_near(ar, pr, n, lps, w, places, x.probs, num(x.total), x.tail);
    lemma_entropy_near(ar, pr, n, x.probs, x.observed_entropy);
    lemma_times_order(x.probs.len() as real, n as real, e);
    lemma_unit_number(x.tail);
    lemma_share_in_unit(pr, num(x.tail));
    if below(TAIL_FLOOR, x.tail) {
        lemma_outcome_near(ar, pr, n, x.observed_entropy, x.tail, x.entropy);
    }
}

/// A truncated distribution whose log-probabilities are among those of a softmax:
/// its powers, and its entropy against that of the softmax.
proof fn lemma_truncated_near<A: Arithmetic>(
    ar: &A,
    pr: Precision,
    n: nat,
    logits: Seq<Bits>,
    lps: Seq<Bits>,
    w: Softmax,
    seen: Seq<int>,
    x: Truncated,
) -> (places: Seq<int>)
    requires
        accurate(ar, pr),
        normalizes_faithfully(ar),
        deterministic(ar),
        fine_enough(pr, n),
        logits.len() == n,
        all_finite(logits),
        log_softmax_is(ar, logits, lps),
        softmax_is(ar, logits, w),
        distinct_places(seen, n),
        truncated_is(ar, picked(lps, seen), x),
    ensures
        places.len() == seen.len(),
        powers_fit(pr, n, lps, places, x.probs),
        is_finite(x.entropy),
        num(x.entropy) <= sum_of(n, terms(w.probs, lps)) + 30real * times(
            n as real,
            step(pr, n),
        ) + tail_error(pr, step(pr, n)),
        sum_of(x.probs.len(), shares(pr, x.probs)) <= num(x.entropy) + 14real * times(
            n as real,
            step(pr, n),
        ),
        tail_error(pr, step(pr, n)) >= 0real,
{
    let places = lemma_truncated_powers(ar, pr, n, logits, lps, w, seen, x);
    lemma_softmax_fits(ar, pr, n, logits, lps, w);
    lemma_truncated_entropy(ar, pr, n, picked(lps, seen), lps, w, places, x);
    places
}

/// How much, at most, the entropy from some log-probabilities of `n` logits can
/// exceed that from the logits themselves. With binary32, a unit of two to the
/// power -23 and a reach of 104, it is about 0.06 nats for 64 logits.
pub open spec fn folding_error(pr: Precision, n: nat) -> real {
    37real * times(n as real, step(pr, n)) + tail_error(pr, step(pr, n))
}

/// The entropy from any log-probabilities of a distribution, with the rest folded
/// into one outcome, is a lower bound on the entropy from its logits, but for the
/// error of the arithmetic.
pub proof fn law_folded_entropy_is_lower_bound<A: Arithmetic>(
    ar: &A,
    pr: Precision,
    logits: Seq<Bits>,
    lps: Seq<Bits>,
    seen: Seq<int>,
    chosen: usize,
    u: TokenUncertainty,
    v: TokenUncertainty,
)
    requires
        accurate(ar, pr),
        normalizes_faithfully(ar),
        deterministic(ar),
        fine_enough(pr, logits.len()),
        all_finite(logits),
        log_softmax_is(ar, logits, lps),
        distinct_places(seen, logits.len()),
        chosen < logits.len(),
        from_logits_is(ar, logits, chosen, u),
        from_top_logprobs_is(ar, lps[chosen as int], picked(lps, seen), v),
    ensures
        is_finite(u.entropy),
        is_finite(v.entropy),
        num(v.entropy) <= num(u.entropy) + folding_error(pr, logits.len()),
{
    let n = logits.len();
    let e = step(pr, n);
    lemma_fine_enough(ar, pr, n);
    lemma_unit_is_small(pr, span(pr, n), e, square(pr));
    let w = choose|w: Softmax| #[trigger]
        softmax_is(ar, logits, w) && softmax_gives(ar, w, chosen, u);
    lemma_softmax_fits(ar, pr, n, logits, lps, w);
    lemma_not_negative(w.entropy);
    if seen.len() > 0 {
        let x = choose|x: Truncated| #[trigger]
            truncated_is(ar, picked(lps, seen), x) && truncated_gives(ar, x, lps[chosen as int], v);
        lemma_truncated_near(ar, pr, n, logits, lps, w, seen, x);
        lemma_not_negative(x.entropy);
    } else {
        lemma_chosen_alone_near(ar, pr, logits, lps, w, chosen, v);
    }
}

/// The log-probability of one token alone, against the softmax that it is from.
proof fn lemma_chosen_alone_near<A: Arithmetic>(
    ar: &A,
    pr: Precision,
    logits: Seq<Bits>,
    lps: Seq<Bits>,
    w: Softmax,
    chosen: usize,
    v: TokenUncertainty,
)
    requires
        accurate(ar, pr),
        normalizes_faithfully(ar),
        deterministic(ar),
        fine_enough(pr, logits.len()),
        all_finite(logits),
        log_softmax_is(ar, logits, lps),
        softmax_is(ar, logits, w),
        chosen < logits.len(),
        from_chosen_alone_is(ar, lps[chosen as int], v),
    ensures
        is_finite(v.entropy),
        tail_error(pr, step(pr, logits.len())) >= 0real,
        num(v.entropy) <= sum_of(logits.len(), terms(w.probs, lps)) + 30real * times(
            logits.len() as real,
            step(pr, logits.len()),
        ) + tail_error(pr, step(pr, logits.len())),
{
    let n = logits.len();
    let step_n = step(pr, n);
    let l = lps[chosen as int];
    lemma_fine_enough(ar, pr, n);
    lemma_unit_is_small(pr, span(pr, n), step_n, square(pr));
    lemma_softmax_fits(ar, pr, n, logits, lps, w);
    let (e, tail, first) = choose|e: Bits, tail: Bits, first: Bits|
        #![trigger exp_is(ar, l, e), rest_is(ar, in_unit(e), tail), outcome_added(ar, ZERO, in_unit(e), first)]
        {
            &&& exp_is(ar, l, e)
            &&& rest_is(ar, in_unit(e), tail)
            &&& outcome_added(ar, ZERO, in_unit(e), first)
            &&& outcome_added(ar, first, tail, v.entropy)
            &&& v.max_prob == in_unit(e)
            &&& v.margin == ZERO
            &&& v.chosen_logprob == l
        };
    assert(in_unit(e) == e);
    let places = seq![chosen as int];
    let q = seq![e];
    assert(powers_fit(pr, n, lps, places, q));
    assert(sum_of(1, numbers(q)) == num(e)) by {
        reveal_with_fuel(sum_of, 2);
    }
    assert(sum_of(1, shares(pr, q)) == share(pr, num(e))) by {
        reveal_with_fuel(sum_of, 2);
    }
    lemma_unit_number(e);
    lemma_rest_near(ar, pr, n, e, tail);
    lemma_tail_near(ar, pr, n, lps, w, places, q, num(e), tail);
    lemma_order(ZERO, ZERO);
    lemma_outcome_near(ar, pr, n, ZERO, e, first);
    lemma_share_in_unit(pr, num(e));
    lemma_outcome_near(ar, pr, n, first, tail, v.entropy);
}

/// A margin is near the exact difference.
pub(crate) proof fn lemma_margin_near<A: Arithmetic>(
    ar: &A,
    pr: Precision,
    n: nat,
    first: Bits,
    second: Bits,
    r: Bits,
)
    requires
        accurate(ar, pr),
        fine_enough(pr, n),
        at_most(ZERO, second),
        at_most(second, first),
        at_most(first, ONE),
        margin_is(ar, first, second, r),
    ensures
        is_finite(r),
        within(num(r), num(first) - num(second), step(pr, n)),
{
    let u = pr.unit;
    lemma_fine_enough(ar, pr, n);
    lemma_unit_is_small(pr, span(pr, n), step(pr, n), square(pr));
    let gap = choose|gap: Bits| #[trigger]
        difference_is(ar, first, second, gap) && r == larger(gap, ZERO);
    lemma_unit_number(first);
    lemma_unit_number(second);
    lemma_order(second, first);
    let d = num(first) - num(second);
    assert(moderate(pr, first) && moderate(pr, second));
    assert(close(pr, gap, d));
    lemma_times_order(d + u, 2real, u);
    lemma_times_multiple(2real, u, 1real);
    lemma_times_sign(u, 1real);
    lemma_not_negative(gap);
}

/// Numbers in descending order, against others that each is near: the first is
/// near the largest, and the second near the second largest.
proof fn lemma_two_largest_near(
    p: Seq<Bits>,
    q: Seq<Bits>,
    places: Seq<int>,
    d: real,
)
    requires
        p.len() > 0,
        q.len() == p.len(),
        places.len() == p.len(),
        all_in_unit(p),
        all_in_unit(q),
        descending(q),
        distinct_places(places, p.len()),
        forall|j: int| #![trigger q[j]]
            0 <= j < q.len() ==> within(num(q[j]), num(p[places[j]]), d),
    ensures
        at_most(ZERO, two_largest(p).0),
        at_most(two_largest(p).0, ONE),
        within(num(q[0]), num(two_largest(p).0), d),
        p.len() == 1 ==> two_largest(p).1 == NEGATIVE_INFINITY,
        p.len() > 1 ==> at_most(ZERO, two_largest(p).1) && at_most(
            two_largest(p).1,
            two_largest(p).0,
        ) && within(num(q[1]), num(two_largest(p).1), d),
{
    let n = p.len();
    let (k, j) = lemma_two_largest_places(p);
    lemma_places_are_few(places, n);
    assert(places.contains(k));
    let at_k = choose|i: int| 0 <= i < places.len() && places[i] == k;
    assert(at_most(ZERO, p[k]) && at_most(p[k], ONE));
    lemma_ranks_descend(q, 0, at_k);
    assert(0 <= places[0] < n);
    lemma_order(q[at_k], q[0]);
    lemma_order(p[places[0]], p[k]);
    assert(within(num(q[at_k]), num(p[k]), d));
    assert(within(num(q[0]), num(p[places[0]]), d));
    if n > 1 {
        assert(places.contains(j));
        let at_j = choose|i: int| 0 <= i < places.len() && places[i] == j;
        assert(at_most(ZERO, p[j]) && at_most(p[j], ONE));
        lemma_order(p[j], p[k]);
        assert(0 <= places[1] < n);
        assert(within(num(q[1]), num(p[places[1]]), d));
        lemma_order(p[places[0]], p[j]);
        lemma_order(p[places[1]], p[j]);
        lemma_ranks_descend(q, 0, 1);
        lemma_order(q[1], q[0]);
        assert(places[0] != places[1]);
        assert(within(num(q[at_j]), num(p[j]), d));
        if at_j >= 1 {
            lemma_ranks_descend(q, 1, at_j);
            lemma_order(q[at_j], q[1]);
        } else {
            lemma_ranks_descend(q, 1, at_k);
            lemma_order(q[at_k], q[1]);
        }
    }
}

/// Numbers in descending order.
pub(crate) proof fn lemma_ranks_descend(q: Seq<Bits>, i: int, j: int)
    requires
        all_in_unit(q),
        descending(q),
        0 <= i <= j < q.len(),
    ensures
        rank(q[j]) <= rank(q[i]),
{
    assert(at_most(ZERO, q[i]) && at_most(ZERO, q[j]));
    assert(total_rank(q[j]) <= total_rank(q[i]));
}

/// How far, at most, the entropies are apart that logits and all their
/// log-probabilities give.
pub open spec fn whole_error(pr: Precision, n: nat) -> real {
    45real * times(n as real, step(pr, n)) + tail_error(pr, step(pr, n))
}

/// Where all log-probabilities of a distribution are listed, in any order, the
/// signals agree with those from its logits, but for the error of the arithmetic.
#[verifier::rlimit(40)]
pub proof fn law_modes_agree_on_whole_mass<A: Arithmetic>(
    ar: &A,
    pr: Precision,
    logits: Seq<Bits>,
    lps: Seq<Bits>,
    seen: Seq<int>,
    chosen: usize,
    u: TokenUncertainty,
    v: TokenUncertainty,
)
    requires
        accurate(ar, pr),
        normalizes_faithfully(ar),
        deterministic(ar),
        fine_enough(pr, logits.len()),
        all_finite(logits),
        log_softmax_is(ar, logits, lps),
        distinct_places(seen, logits.len()),
        seen.len() == logits.len(),
        chosen < logits.len(),
        from_logits_is(ar, logits, chosen, u),
        from_top_logprobs_is(ar, lps[chosen as int], picked(lps, seen), v),
    ensures
        within(num(v.entropy), num(u.entropy), whole_error(pr, logits.len())),
        within(num(v.max_prob), num(u.max_prob), 15real * step(pr, logits.len())),
        within(num(v.margin), num(u.margin), 32real * step(pr, logits.len())),
{
    let n = logits.len();
    let e = step(pr, n);
    lemma_fine_enough(ar, pr, n);
    lemma_unit_is_small(pr, span(pr, n), e, square(pr));
    let w = choose|w: Softmax| #[trigger]
        softmax_is(ar, logits, w) && softmax_gives(ar, w, chosen, u);
    lemma_softmax_fits(ar, pr, n, logits, lps, w);
    lemma_not_negative(w.entropy);
    let x = choose|x: Truncated| #[trigger]
        truncated_is(ar, picked(lps, seen), x) && truncated_gives(ar, x, lps[chosen as int], v);
    let places = lemma_truncated_near(ar, pr, n, logits, lps, w, seen, x);
    lemma_not_negative(x.entropy);
    let p = numbers(w.probs);
    let l = numbers(lps);
    let q = numbers(x.probs);
    assert forall|i: int| #![trigger p(i)] 0 <= i < n implies probability_fits(
        pr,
        span(pr, n),
        e,
        square(pr),
        p(i),
        l(i),
    ) by {
        assert(at_most(lps[i], ZERO));
    }
    assert forall|j: int| #![trigger q(j)] 0 <= j < n implies power_fits(
        pr,
        span(pr, n),
        q(j),
        l(places[j]),
    ) by {
        assert(at_most(x.probs[j], ONE));
    }
    lemma_whole_entropy(
        pr,
        span(pr, n),
        e,
        square(pr),
        n,
        places,
        p,
        l,
        q,
        terms(w.probs, lps),
        shares(pr, x.probs),
    );
    assert forall|j: int| #![trigger x.probs[j]] 0 <= j < n implies within(
        num(x.probs[j]),
        num(w.probs[places[j]]),
        15real * e,
    ) by {
        assert(power_fits(pr, span(pr, n), q(j), l(places[j])));
        assert(0 <= places[j] < n);
        assert(probability_fits(pr, span(pr, n), e, square(pr), p(places[j]), l(places[j])));
        lemma_power_differs_little(
            pr,
            span(pr, n),
            e,
            square(pr),
            p(places[j]),
            q(j),
            l(places[j]),
        );
    }
    lemma_two_largest_near(w.probs, x.probs, places, 15real * e);
    let (first, second) = two_largest(w.probs);
    assert(at_most(ZERO, x.probs[0]) && at_most(x.probs[0], ONE));
    assert(in_unit(x.probs[0]) == x.probs[0]);
    lemma_not_negative(first);
    lemma_unit_number(first);
    lemma_order(ZERO, ZERO);
    if n > 1 {
        lemma_unit_number(second);
        lemma_not_negative(second);
        assert(at_most(ZERO, x.probs[1]) && at_most(x.probs[1], ONE));
        lemma_ranks_descend(x.probs, 0, 1);
    }
    let other = larger(second, ZERO);
    lemma_order(other, first);
    lemma_margin_near(ar, pr, n, first, other, u.margin);
    lemma_margin_near(ar, pr, n, x.probs[0], probability_at(x.probs, 1), v.margin);
}

} // verus!
