//! Tokens observed through their top log-probabilities: with arithmetic that
//! comes close to exact arithmetic, the signals come close to those of the exact
//! probabilities and of what they leave of one.

use crate::accuracy::{accurate, fine_enough, num, span, Precision};
use crate::arithmetic::{exp_is, Arithmetic};
use crate::bounds::normalizes_faithfully;
use crate::exact::{lemma_exp_order, lemma_share_continuous, lemma_small_share, reaches_far};
use crate::float::{
    at_most, below, in_unit, is_finite, is_nan, smaller, total_rank, Bits, NEGATIVE_ZERO, ONE, ZERO,
};
use crate::folding::{
    lemma_power_in_unit, lemma_share_in_unit, lemma_share_near, lemma_unit_is_small,
    probability_fits, share, within,
};
use crate::modes::{
    all_in_unit, lemma_entropy_near, lemma_fine_enough, lemma_margin_near, lemma_not_negative,
    lemma_order, lemma_outcome_near, lemma_power_fits, lemma_ranks_descend, lemma_rest_near,
    lemma_total_moderate, lemma_total_near, lemma_unit_number, numbers, shares, square, step,
};
use crate::order::lemma_sorting_places;
use crate::shift::{scale, value};
use crate::sums::{
    apart_from, at_places, distinct_places, lemma_places_are_few, lemma_sum_equal,
    lemma_sum_of_nothing, lemma_sum_of_parts, lemma_sum_shifted, lemma_sum_splits,
    lemma_times_multiple, lemma_times_order, lemma_times_sign, sum_of, times,
};
use crate::uncertainty::{
    from_top_logprobs_is, outcome_added, probability_at, rest_is, truncated_gives, truncated_is,
    TokenUncertainty, Truncated, TAIL_FLOOR,
};
use vstd::arithmetic::power2::{
    lemma2_to64, lemma2_to64_rest, lemma_pow2_adds, lemma_pow2_pos, pow2,
};
use vstd::prelude::*;

verus! {

/// The probability with this logarithm, exactly.
pub open spec fn probability_of(pr: Precision, logprob: Bits) -> real {
    if is_finite(logprob) {
        (pr.exp)(num(logprob))
    } else {
        0real
    }
}

/// The probabilities with these logarithms.
pub open spec fn probabilities(pr: Precision, tops: Seq<Bits>) -> spec_fn(int) -> real {
    |i: int| probability_of(pr, tops[i])
}

/// What each of them adds to an entropy.
pub open spec fn listed_shares(pr: Precision, tops: Seq<Bits>) -> spec_fn(int) -> real {
    |i: int| share(pr, probability_of(pr, tops[i]))
}

/// What the listed probabilities leave of one.
pub open spec fn left_over(pr: Precision, tops: Seq<Bits>) -> real {
    let sum = sum_of(tops.len(), probabilities(pr, tops));
    if sum < 1real {
        1real - sum
    } else {
        0real
    }
}

/// `tops` can be the logarithms of some probabilities: none is positive. The
/// arithmetic is precise enough for them.
pub open spec fn listable<A: Arithmetic>(ar: &A, pr: Precision, tops: Seq<Bits>) -> bool {
    &&& accurate(ar, pr)
    &&& normalizes_faithfully(ar)
    &&& reaches_far(pr)
    &&& fine_enough(pr, tops.len())
    &&& forall|i: int| #![trigger tops[i]] 0 <= i < tops.len() ==> at_most(tops[i], ZERO)
}

/// How far the entropy from `n` log-probabilities is, at most, from the exact one
/// without the rest.
pub open spec fn listed_error(pr: Precision, n: nat) -> real {
    38real * times(n as real, step(pr, n))
}

/// How far off, at most, what the rest adds is.
pub open spec fn rest_error(pr: Precision, n: nat) -> real {
    let gap = 6real * times(n as real, step(pr, n));
    gap + times(gap, -(pr.log)(gap))
}

/// The bar above which the rest counts is a millionth, rounded.
pub proof fn law_rest_counts_above_a_millionth()
    ensures
        1real / 1000001real <= num(TAIL_FLOOR) <= 1real / 1000000real,
        is_finite(TAIL_FLOOR),
{
    reveal(num);
    lemma2_to64();
    lemma2_to64_rest();
    lemma_pow2_pos(106);
    lemma_pow2_pos(149);
    lemma_pow2_adds(43, 106);
    assert(scale(0x3586_37bd) == 8796093 * pow2(106));
    assert(pow2(43) == 8796093022208);
    let a = pow2(106) as int;
    let n = 8796093 * a;
    let d = pow2(149) as int;
    assert(d == 8796093022208 * a);
    assert(1000000 * n <= d <= 1000001 * n);
    assert(value(TAIL_FLOOR) == n);
    let x = n as real;
    let y = d as real;
    assert(1000000real * x <= y <= 1000001real * x);
    assert(x / y <= 1real / 1000000real) by (nonlinear_arith)
        requires
            1000000real * x <= y,
            y > 0real,
    ;
    assert(x / y >= 1real / 1000001real) by (nonlinear_arith)
        requires
            y <= 1000001real * x,
            y > 0real,
    ;
}

/// A computed power is near the exact probability, and adds about as much to an
/// entropy.
proof fn lemma_listed_near<A: Arithmetic>(ar: &A, pr: Precision, n: nat, l: Bits, q: Bits)
    requires
        accurate(ar, pr),
        normalizes_faithfully(ar),
        reaches_far(pr),
        fine_enough(pr, n),
        at_most(l, ZERO),
        exp_is(ar, l, q),
    ensures
        at_most(ZERO, q),
        at_most(q, ONE),
        is_finite(q),
        0real <= probability_of(pr, l) <= 1real,
        within(num(q), probability_of(pr, l), 2real * pr.unit),
        within(share(pr, num(q)), share(pr, probability_of(pr, l)), 24real * step(pr, n)),
{
    let u = pr.unit;
    let g = span(pr, n);
    let e = step(pr, n);
    let b = square(pr);
    lemma_fine_enough(ar, pr, n);
    lemma_unit_is_small(pr, g, e, b);
    lemma_power_fits(ar, pr, n, l, q);
    lemma_unit_number(q);
    lemma_order(q, ZERO);
    lemma_order(ZERO, q);
    if is_finite(l) {
        let x = num(l);
        let z = (pr.exp)(x);
        lemma_order(l, ZERO);
        lemma_power_in_unit(pr, x);
        lemma_times_order(z + u, 2real, u);
        lemma_times_multiple(2real, u, 1real);
        lemma_times_sign(u, 1real);
        if x >= -(2real * g) {
            lemma_times_sign(e, z);
            lemma_times_order(0real, z, e);
            lemma_times_sign(e, 0real);
            assert(probability_fits(pr, g, e, b, z, x));
            lemma_share_near(pr, g, e, b, z, num(q), x);
        } else {
            lemma_exp_order(pr, x, -pr.reach);
            lemma_small_share(pr, z, u);
            lemma_share_in_unit(pr, z);
        }
    }
}

/// The powers of some log-probabilities, sorted, against the exact ones.
#[verifier::rlimit(40)]
proof fn lemma_sorted_powers<A: Arithmetic>(
    ar: &A,
    pr: Precision,
    tops: Seq<Bits>,
    w: Truncated,
) -> (places: Seq<int>)
    requires
        listable(ar, pr, tops),
        truncated_is(ar, tops, w),
    ensures
        w.probs.len() == tops.len(),
        places.len() == tops.len(),
        distinct_places(places, tops.len()),
        all_in_unit(w.probs),
        forall|j: int| #![trigger w.probs[j]]
            0 <= j < tops.len() ==> is_finite(w.probs[j]) && within(
                num(w.probs[j]),
                probability_of(pr, tops[places[j]]),
                2real * pr.unit,
            ) && within(
                share(pr, num(w.probs[j])),
                share(pr, probability_of(pr, tops[places[j]])),
                24real * step(pr, tops.len()),
            ),
{
    let n = tops.len();
    let places = lemma_sorting_places(w.weights, w.probs);
    assert forall|j: int| #![trigger w.probs[j]] 0 <= j < n implies at_most(ZERO, w.probs[j])
        && at_most(w.probs[j], ONE) && is_finite(w.probs[j]) && within(
        num(w.probs[j]),
        probability_of(pr, tops[places[j]]),
        2real * pr.unit,
    ) && within(
        share(pr, num(w.probs[j])),
        share(pr, probability_of(pr, tops[places[j]])),
        24real * step(pr, n),
    ) by {
        let k = places[j];
        assert(0 <= k < n);
        assert(w.probs[j] == w.weights[k]);
        assert(exp_is(ar, tops[k], w.weights[k]));
        lemma_listed_near(ar, pr, n, tops[k], w.probs[j]);
    }
    places
}

/// A sum in another order is the same.
proof fn lemma_sum_reordered(n: nat, places: Seq<int>, f: spec_fn(int) -> real)
    requires
        distinct_places(places, n),
        places.len() == n,
    ensures
        sum_of(n, at_places(places, f)) == sum_of(n, f),
{
    lemma_sum_splits(n, places, f);
    lemma_places_are_few(places, n);
    let none = |i: int| 0real;
    assert forall|i: int| #![trigger apart_from(places, f)(i)] 0 <= i < n implies apart_from(
        places,
        f,
    )(i) == none(i) by {
        assert(places.contains(i));
    }
    lemma_sum_equal(n, apart_from(places, f), none);
    lemma_sum_of_nothing(n, none);
}

/// The sums of the powers, and of what they add to an entropy, against the exact
/// ones.
#[verifier::rlimit(40)]
proof fn lemma_listed_sums<A: Arithmetic>(ar: &A, pr: Precision, tops: Seq<Bits>, w: Truncated)
    requires
        listable(ar, pr, tops),
        truncated_is(ar, tops, w),
    ensures
        w.probs.len() == tops.len(),
        all_in_unit(w.probs),
        within(
            sum_of(tops.len(), numbers(w.probs)),
            sum_of(tops.len(), probabilities(pr, tops)),
            2real * step(pr, tops.len()),
        ),
        within(
            sum_of(tops.len(), shares(pr, w.probs)),
            sum_of(tops.len(), listed_shares(pr, tops)),
            24real * times(tops.len() as real, step(pr, tops.len())),
        ),
        0real <= sum_of(tops.len(), listed_shares(pr, tops)),
{
    let n = tops.len();
    let u = pr.unit;
    let e = step(pr, n);
    let k = n as real;
    lemma_fine_enough(ar, pr, n);
    lemma_unit_is_small(pr, span(pr, n), e, square(pr));
    let places = lemma_sorted_powers(ar, pr, tops, w);
    let q = numbers(w.probs);
    let z = at_places(places, probabilities(pr, tops));
    let h = shares(pr, w.probs);
    let s = at_places(places, listed_shares(pr, tops));
    assert forall|i: int| #![trigger q(i)] #![trigger z(i)] 0 <= i < n implies q(i) <= z(i)
        + 2real * u && z(i) <= q(i) + 2real * u by {
        assert(is_finite(w.probs[i]));
    }
    assert forall|i: int| #![trigger h(i)] #![trigger s(i)] 0 <= i < n implies h(i) <= s(i)
        + 24real * e && s(i) <= h(i) + 24real * e && 0real <= listed_shares(pr, tops)(i) by {
        assert(is_finite(w.probs[i]));
        lemma_listed_share(ar, pr, tops, i);
    }
    lemma_sum_shifted(n, q, z, 2real * u);
    lemma_sum_shifted(n, z, q, 2real * u);
    lemma_sum_shifted(n, h, s, 24real * e);
    lemma_sum_shifted(n, s, h, 24real * e);
    lemma_sum_reordered(n, places, probabilities(pr, tops));
    lemma_sum_reordered(n, places, listed_shares(pr, tops));
    lemma_times_multiple(2real, k, u);
    lemma_times_order(k, span(pr, n), u);
    lemma_times_sign(u, k);
    lemma_times_multiple(24real, k, e);
    assert forall|i: int| #![trigger listed_shares(pr, tops)(i)] 0 <= i < n implies 0real
        <= listed_shares(pr, tops)(i) by {
        lemma_listed_share(ar, pr, tops, i);
    }
    lemma_sum_of_parts(n, listed_shares(pr, tops));
}

/// The total of the powers, against the exact sum.
proof fn lemma_listed_total<A: Arithmetic>(ar: &A, pr: Precision, tops: Seq<Bits>, w: Truncated)
    requires
        listable(ar, pr, tops),
        truncated_is(ar, tops, w),
    ensures
        at_most(ZERO, w.total),
        is_finite(w.total),
        within(
            num(w.total),
            sum_of(tops.len(), probabilities(pr, tops)),
            4real * times(tops.len() as real, step(pr, tops.len())),
        ),
{
    let n = tops.len();
    let u = pr.unit;
    let g = span(pr, n);
    let e = step(pr, n);
    let k = n as real;
    lemma_fine_enough(ar, pr, n);
    lemma_unit_is_small(pr, g, e, square(pr));
    lemma_listed_sums(ar, pr, tops, w);
    lemma_total_moderate(ar, pr, n, NEGATIVE_ZERO, w.probs, w.total);
    let t = num(w.total);
    lemma_total_near(ar, pr, NEGATIVE_ZERO, w.probs, w.total, t);
    lemma_order(ZERO, w.total);
    lemma_times_order(2real * t + u, 2real * g, u);
    lemma_times_multiple(2real, u, g);
    lemma_times_sign(u, g);
    lemma_times_order(times(u, 2real * t + u), 2real * e, k);
    lemma_times_multiple(2real, k, e);
}

/// What a listed probability adds is not negative.
proof fn lemma_listed_share<A: Arithmetic>(ar: &A, pr: Precision, tops: Seq<Bits>, i: int)
    requires
        listable(ar, pr, tops),
        0 <= i < tops.len(),
    ensures
        0real <= listed_shares(pr, tops)(i),
        0real <= probability_of(pr, tops[i]) <= 1real,
{
    lemma_order(tops[i], ZERO);
    if is_finite(tops[i]) {
        lemma_power_in_unit(pr, num(tops[i]));
        lemma_share_in_unit(pr, (pr.exp)(num(tops[i])));
    }
}

/// With accurate arithmetic, the entropy of a token that is observed through its
/// top log-probabilities is near the exact entropy of the listed probabilities.
/// What they leave of one adds to it as one more outcome, if it is more than a
/// millionth.
#[verifier::rlimit(60)]
pub proof fn law_top_logprobs_entropy_is_exact<A: Arithmetic>(
    ar: &A,
    pr: Precision,
    chosen_logprob: Bits,
    tops: Seq<Bits>,
    u: TokenUncertainty,
)
    requires
        tops.len() > 0,
        listable(ar, pr, tops),
        from_top_logprobs_is(ar, chosen_logprob, tops, u),
    ensures
        is_finite(u.entropy),
        num(u.entropy) >= sum_of(tops.len(), listed_shares(pr, tops)) - listed_error(
            pr,
            tops.len(),
        ),
        num(u.entropy) <= sum_of(tops.len(), listed_shares(pr, tops)) + share(
            pr,
            left_over(pr, tops),
        ) + listed_error(pr, tops.len()) + rest_error(pr, tops.len()),
        left_over(pr, tops) > 1real / 1000000real + 5real * times(
            tops.len() as real,
            step(pr, tops.len()),
        ) ==> num(u.entropy)
            >= sum_of(tops.len(), listed_shares(pr, tops)) + share(pr, left_over(pr, tops))
            - listed_error(pr, tops.len()) - rest_error(pr, tops.len()),
        left_over(pr, tops) < 1real / 1000001real - 5real * times(
            tops.len() as real,
            step(pr, tops.len()),
        ) ==> num(u.entropy)
            <= sum_of(tops.len(), listed_shares(pr, tops)) + listed_error(pr, tops.len()),
{
    let n = tops.len();
    let e = step(pr, n);
    let k = n as real;
    let w = choose|w: Truncated| #[trigger]
        truncated_is(ar, tops, w) && truncated_gives(ar, w, chosen_logprob, u);
    let h = sum_of(n, listed_shares(pr, tops));
    let rest = left_over(pr, tops);
    lemma_fine_enough(ar, pr, n);
    lemma_unit_is_small(pr, span(pr, n), e, square(pr));
    lemma_listed_sums(ar, pr, tops, w);
    lemma_listed_total(ar, pr, tops, w);
    let m = smaller(w.total, ONE);
    lemma_order(w.total, ONE);
    lemma_order(ONE, w.total);
    assert(at_most(ZERO, m) && at_most(m, ONE));
    lemma_rest_near(ar, pr, n, m, w.tail);
    lemma_unit_number(w.tail);
    lemma_entropy_near(ar, pr, n, w.probs, w.observed_entropy);
    lemma_times_order(1real, k, e);
    lemma_times_sign(1real, e);
    lemma_share_in_unit(pr, num(w.tail));
    lemma_probabilities_not_negative(ar, pr, tops);
    assert(0real <= rest <= 1real);
    lemma_share_in_unit(pr, rest);
    assert(within(num(w.tail), rest, 5real * times(k, e)));
    lemma_share_continuous(pr, num(w.tail), rest, 6real * times(k, e));
    lemma_share_continuous(pr, rest, num(w.tail), 6real * times(k, e));
    law_rest_counts_above_a_millionth();
    lemma_order(TAIL_FLOOR, w.tail);
    lemma_order(w.tail, TAIL_FLOOR);
    if below(TAIL_FLOOR, w.tail) {
        lemma_outcome_near(ar, pr, n, w.observed_entropy, w.tail, w.entropy);
    }
    lemma_not_negative(w.entropy);
}

/// The listed probabilities do not add up to less than nothing.
proof fn lemma_probabilities_not_negative<A: Arithmetic>(ar: &A, pr: Precision, tops: Seq<Bits>)
    requires
        listable(ar, pr, tops),
    ensures
        0real <= sum_of(tops.len(), probabilities(pr, tops)),
{
    assert forall|i: int| #![trigger probabilities(pr, tops)(i)] 0 <= i < tops.len() implies 0real
        <= probabilities(pr, tops)(i) by {
        lemma_listed_share(ar, pr, tops, i);
    }
    lemma_sum_of_parts(tops.len(), probabilities(pr, tops));
}

/// With accurate arithmetic, the largest probability of a token that is observed
/// through its top log-probabilities is near the largest listed one, and the
/// margin near the difference of the two largest, or the only one. The
/// log-probability is that of the token itself.
#[verifier::rlimit(40)]
pub proof fn law_top_logprobs_lead_is_exact<A: Arithmetic>(
    ar: &A,
    pr: Precision,
    chosen_logprob: Bits,
    tops: Seq<Bits>,
    u: TokenUncertainty,
)
    requires
        tops.len() > 0,
        listable(ar, pr, tops),
        from_top_logprobs_is(ar, chosen_logprob, tops, u),
    ensures
        u.chosen_logprob == chosen_logprob,
        forall|i: int| 0 <= i < tops.len() ==> #[trigger] probability_of(pr, tops[i]) <= num(
            u.max_prob,
        ) + step(pr, tops.len()),
        exists|i: int| 0 <= i < tops.len() && num(u.max_prob) <= #[trigger] probability_of(
            pr,
            tops[i],
        ) + step(pr, tops.len()),
        tops.len() == 1 ==> within(
            num(u.margin),
            probability_of(pr, tops[0]),
            2real * step(pr, tops.len()),
        ),
        tops.len() > 1 ==> exists|k: int, j: int|
            #![trigger probability_of(pr, tops[k]), probability_of(pr, tops[j])]
            {
                &&& 0 <= k < tops.len() && 0 <= j < tops.len() && k != j
                &&& forall|i: int|
                    0 <= i < tops.len() ==> #[trigger] probability_of(pr, tops[i])
                        <= probability_of(pr, tops[k]) + 2real * step(pr, tops.len())
                &&& forall|i: int|
                    0 <= i < tops.len() && i != k ==> #[trigger] probability_of(pr, tops[i])
                        <= probability_of(pr, tops[j]) + 2real * step(pr, tops.len())
                &&& within(
                    num(u.margin),
                    probability_of(pr, tops[k]) - probability_of(pr, tops[j]),
                    3real * step(pr, tops.len()),
                )
            },
{
    let n = tops.len();
    let e = step(pr, n);
    let w = choose|w: Truncated| #[trigger]
        truncated_is(ar, tops, w) && truncated_gives(ar, w, chosen_logprob, u);
    lemma_fine_enough(ar, pr, n);
    lemma_unit_is_small(pr, span(pr, n), e, square(pr));
    let places = lemma_sorted_powers(ar, pr, tops, w);
    lemma_places_are_few(places, n);
    let first = w.probs[0];
    let second = probability_at(w.probs, 1);
    assert(at_most(ZERO, w.probs[0]) && at_most(w.probs[0], ONE));
    assert(in_unit(first) == first);
    lemma_unit_number(first);
    lemma_order(ZERO, ZERO);
    if n > 1 {
        assert(at_most(ZERO, w.probs[1]) && at_most(w.probs[1], ONE));
        lemma_ranks_descend(w.probs, 0, 1);
        lemma_unit_number(second);
    }
    lemma_order(second, first);
    lemma_margin_near(ar, pr, n, first, second, u.margin);
    assert forall|i: int| 0 <= i < n implies #[trigger] probability_of(pr, tops[i]) <= num(first)
        + e && (i != places[0] && n > 1 ==> probability_of(pr, tops[i]) <= num(second) + e) by {
        assert(places.contains(i));
        let at = choose|at: int| 0 <= at < places.len() && places[at] == i;
        lemma_ranks_descend(w.probs, 0, at);
        lemma_order(w.probs[at], first);
        assert(is_finite(w.probs[at]));
        if i != places[0] && n > 1 {
            lemma_ranks_descend(w.probs, 1, at);
            lemma_order(w.probs[at], second);
        }
    }
    assert(0 <= places[0] < n);
    assert(num(first) <= probability_of(pr, tops[places[0]]) + e);
    if n > 1 {
        assert(0 <= places[1] < n && places[0] != places[1]);
        assert(within(num(w.probs[1]), probability_of(pr, tops[places[1]]), 2real * pr.unit));
        assert(within(
            num(u.margin),
            probability_of(pr, tops[places[0]]) - probability_of(pr, tops[places[1]]),
            3real * e,
        ));
    }
}

/// With accurate arithmetic, a token of which only its own log-probability is
/// known has the entropy of two outcomes: itself and the rest. Its probability
/// counts as the largest, and there is no margin.
#[verifier::rlimit(40)]
pub proof fn law_chosen_alone_is_exact<A: Arithmetic>(
    ar: &A,
    pr: Precision,
    chosen_logprob: Bits,
    u: TokenUncertainty,
)
    requires
        accurate(ar, pr),
        normalizes_faithfully(ar),
        reaches_far(pr),
        fine_enough(pr, 1),
        at_most(chosen_logprob, ZERO),
        from_top_logprobs_is(ar, chosen_logprob, Seq::empty(), u),
    ensures
        u.chosen_logprob == chosen_logprob,
        u.margin == ZERO,
        within(num(u.max_prob), probability_of(pr, chosen_logprob), step(pr, 1)),
        is_finite(u.entropy),
        within(
            num(u.entropy),
            share(pr, probability_of(pr, chosen_logprob)) + share(
                pr,
                1real - probability_of(pr, chosen_logprob),
            ),
            38real * step(pr, 1) + rest_error(pr, 1),
        ),
{
    let d = step(pr, 1);
    let l = chosen_logprob;
    let p = probability_of(pr, l);
    lemma_fine_enough(ar, pr, 1);
    lemma_unit_is_small(pr, span(pr, 1), d, square(pr));
    let (e, tail, first) = choose|e: Bits, tail: Bits, first: Bits|
        #![trigger exp_is(ar, l, e), rest_is(ar, in_unit(e), tail), outcome_added(ar, ZERO, in_unit(e), first)]
        {
            &&& exp_is(ar, l, e)
            &&& rest_is(ar, in_unit(e), tail)
            &&& outcome_added(ar, ZERO, in_unit(e), first)
            &&& outcome_added(ar, first, tail, u.entropy)
            &&& u.max_prob == in_unit(e)
            &&& u.margin == ZERO
            &&& u.chosen_logprob == l
        };
    lemma_listed_near(ar, pr, 1, l, e);
    assert(in_unit(e) == e);
    lemma_unit_number(e);
    lemma_rest_near(ar, pr, 1, e, tail);
    lemma_unit_number(tail);
    lemma_order(ZERO, ZERO);
    lemma_outcome_near(ar, pr, 1, ZERO, e, first);
    lemma_share_in_unit(pr, num(e));
    lemma_outcome_near(ar, pr, 1, first, tail, u.entropy);
    lemma_times_sign(1real, d);
    lemma_share_continuous(pr, num(tail), 1real - p, 6real * times(1nat as real, d));
    lemma_share_continuous(pr, 1real - p, num(tail), 6real * times(1nat as real, d));
}

/// A power is a number, and one at least where the exponent is not negative.
pub open spec fn raises_in_order<A: Arithmetic>(ar: &A) -> bool {
    &&& forall|a: Bits, r: Bits| #[trigger] exp_is(ar, a, r) && !is_nan(a) ==> !is_nan(r)
    &&& forall|a: Bits, r: Bits| #[trigger] exp_is(ar, a, r) && at_most(ZERO, a) ==> at_most(ONE, r)
}

/// Where a listed log-probability is zero or more, whatever the others, the
/// largest probability is one.
pub proof fn law_certain_token_takes_all<A: Arithmetic>(
    ar: &A,
    chosen_logprob: Bits,
    tops: Seq<Bits>,
    u: TokenUncertainty,
    i: int,
)
    requires
        raises_in_order(ar),
        forall|j: int| #![trigger tops[j]] 0 <= j < tops.len() ==> !is_nan(tops[j]),
        0 <= i < tops.len(),
        at_most(ZERO, tops[i]),
        from_top_logprobs_is(ar, chosen_logprob, tops, u),
    ensures
        u.max_prob == ONE,
{
    let w = choose|w: Truncated| #[trigger]
        truncated_is(ar, tops, w) && truncated_gives(ar, w, chosen_logprob, u);
    let places = lemma_sorting_places(w.weights, w.probs);
    lemma_places_are_few(places, tops.len());
    assert(places.contains(i));
    let at = choose|at: int| 0 <= at < places.len() && places[at] == i;
    assert(w.probs[at] == w.weights[i]);
    assert(exp_is(ar, tops[i], w.weights[i]));
    let k = places[0];
    assert(0 <= k < tops.len() && w.probs[0] == w.weights[k]);
    assert(exp_is(ar, tops[k], w.weights[k]));
    assert(!is_nan(tops[k]));
    assert(total_rank(w.probs[at]) <= total_rank(w.probs[0]));
}

} // verus!
