//! The figures of a report lie in `[0, 1]`, with any arithmetic that rounds
//! faithfully.

use crate::arithmetic::{
    count_is, difference_is, exp_is, ln_is, mean_is, narrow_is, narrows_are, product_is, quotient_is,
    sum_is, total_is, Arithmetic,
};
use crate::detector::{
    fraction_is, law_risky_tokens_are_counted, mean_risk_is, report_is, risks_are, risky_count,
    DetectorConfig, Report,
};
use crate::float::{
    at_most, below, in_unit, is_finite, is_nan, is_wide_finite, larger, largest, law_largest_bounds_all,
    rank, Bits, WideBits, INFINITY, NEGATIVE_INFINITY, NEGATIVE_ZERO, ONE, WIDE_NEGATIVE_INFINITY,
    ZERO,
};
use crate::order::{law_two_largest_bound_all, two_largest};
use crate::uncertainty::{
    from_logits_is, from_top_logprobs_is, law_risk_lies_in_unit, logit_added, nothing_observed,
    risk_is, softmax_entropy_is, softmax_gives, softmax_is, truncated_gives, truncated_is, Softmax, TokenUncertainty, Truncated,
};
use vstd::prelude::*;

verus! {

/// `a` does not exceed the number that stands for the count `n`.
pub open spec fn within_count<A: Arithmetic>(ar: &A, a: Bits, n: nat) -> bool {
    n <= usize::MAX && forall|c: Bits| #[trigger] count_is(ar, n as usize, c) ==> at_most(a, c)
}

/// Counting keeps the order of numbers, as rounding to the nearest number does.
pub open spec fn counts_faithfully<A: Arithmetic>(ar: &A) -> bool {
    // No count is negative or infinite, and none but that of nothing is zero.
    &&& forall|n: usize, c: Bits| #[trigger]
        count_is(ar, n, c) ==> at_most(ZERO, c) && below(c, INFINITY) && (n > 0 ==> below(ZERO, c))
    // A larger count does not stand for a smaller number.
    &&& forall|m: usize, n: usize, b: Bits, c: Bits| #[trigger]
        count_is(ar, m, b) && #[trigger] count_is(ar, n, c) && m <= n ==> at_most(b, c)
    // What is not negative adds up to what is not negative.
    &&& forall|a: Bits, b: Bits, r: Bits| #[trigger]
        sum_is(ar, a, b, r) && at_most(ZERO, a) && at_most(ZERO, b) ==> at_most(ZERO, r)
    // Where one more, at most, is added to a count, at most, the sum is at most the next count.
    &&& forall|a: Bits, b: Bits, r: Bits, n: nat| #[trigger]
        sum_is(ar, a, b, r) && #[trigger] within_count(ar, a, n) && at_most(ZERO, a) && at_most(
            ZERO,
            b,
        ) && at_most(b, ONE) && n < usize::MAX ==> within_count(ar, r, n + 1)
    // A part over a whole lies between zero and one.
    &&& forall|a: Bits, b: Bits, r: Bits| #[trigger]
        quotient_is(ar, a, b, r) && at_most(ZERO, a) && at_most(a, b) && below(ZERO, b) && below(
            b,
            INFINITY,
        ) ==> at_most(ZERO, r) && at_most(r, ONE)
}

/// Operations that are defined on every number give a number for a number.
pub open spec fn keeps_numbers<A: Arithmetic>(ar: &A) -> bool {
    &&& forall|a: Bits, r: Bits| #[trigger] exp_is(ar, a, r) && !is_nan(a) ==> !is_nan(r)
    &&& forall|a: Bits, r: Bits| #[trigger]
        difference_is(ar, ONE, a, r) && !is_nan(a) ==> !is_nan(r)
    &&& forall|w: WideBits, r: Bits| #[trigger] narrow_is(ar, w, r) && is_number(w) ==> !is_nan(r)
}

/// Faithful rounding: it keeps the order of numbers, and numbers stay numbers.
pub open spec fn faithful<A: Arithmetic>(ar: &A) -> bool {
    counts_faithfully(ar) && keeps_numbers(ar)
}

/// A binary64 encoding stands for a log-probability: a finite number, or
/// negative infinity.
pub open spec fn is_number(w: WideBits) -> bool {
    is_wide_finite(w) || w == WIDE_NEGATIVE_INFINITY
}

/// All log-probabilities that are given for a token are numbers.
pub open spec fn holds_numbers(token: (WideBits, Seq<WideBits>)) -> bool {
    is_number(token.0) && forall|i: int|
        #![trigger token.1[i]]
        0 <= i < token.1.len() ==> is_number(token.1[i])
}

/// The risk score and the fraction of risky tokens lie in `[0, 1]`.
pub open spec fn figures_in_unit(r: Report) -> bool {
    &&& at_most(ZERO, r.risk_score) && at_most(r.risk_score, ONE)
    &&& at_most(ZERO, r.risky_fraction) && at_most(r.risky_fraction, ONE)
}

/// A sum of numbers in `[0, 1]` is not negative and not above their number.
proof fn lemma_total_within_count<A: Arithmetic>(ar: &A, s: Seq<Bits>, r: Bits)
    requires
        counts_faithfully(ar),
        s.len() <= usize::MAX,
        forall|i: int| #![trigger s[i]] 0 <= i < s.len() ==> at_most(ZERO, s[i]) && at_most(s[i], ONE),
        total_is(ar, NEGATIVE_ZERO, s, r),
    ensures
        at_most(ZERO, r),
        within_count(ar, r, s.len()),
    decreases s.len(),
{
    if s.len() > 0 {
        let rest = s.drop_last();
        let p = choose|p: Bits|
            #![trigger sum_is(ar, p, s.last(), r)]
            total_is(ar, NEGATIVE_ZERO, rest, p) && sum_is(ar, p, s.last(), r);
        assert forall|i: int| #![trigger rest[i]] 0 <= i < rest.len() implies at_most(ZERO, rest[i])
            && at_most(rest[i], ONE) by {
            assert(rest[i] == s[i]);
        }
        lemma_total_within_count(ar, rest, p);
        assert(s[s.len() - 1] == s.last());
        assert(within_count(ar, p, rest.len()));
        assert(within_count(ar, r, rest.len() + 1));
    }
}

/// With faithful rounding, the mean risk of some tokens lies in `[0, 1]` if the
/// largest probability of each is a number.
pub proof fn law_mean_risk_lies_in_unit<A: Arithmetic>(
    ar: &A,
    tokens: Seq<TokenUncertainty>,
    r: Bits,
)
    requires
        faithful(ar),
        0 < tokens.len() <= usize::MAX,
        forall|i: int| #![trigger tokens[i]] 0 <= i < tokens.len() ==> !is_nan(tokens[i].max_prob),
        mean_risk_is(ar, tokens, r),
    ensures
        at_most(ZERO, r),
        at_most(r, ONE),
{
    let risks = choose|risks: Seq<Bits>| #[trigger]
        risks_are(ar, tokens, risks) && mean_is(ar, NEGATIVE_ZERO, risks, r);
    assert forall|i: int| #![trigger risks[i]] 0 <= i < risks.len() implies at_most(ZERO, risks[i])
        && at_most(risks[i], ONE) by {
        assert(risk_is(ar, tokens[i], risks[i]));
        law_risk_lies_in_unit(ar, tokens[i], risks[i]);
    }
    let n = risks.len() as usize;
    let (total, c) = choose|total: Bits, c: Bits|
        #![trigger total_is(ar, NEGATIVE_ZERO, risks, total), count_is(ar, n, c)]
        total_is(ar, NEGATIVE_ZERO, risks, total) && count_is(ar, n, c) && quotient_is(
            ar,
            total,
            c,
            r,
        );
    lemma_total_within_count(ar, risks, total);
    assert(count_is(ar, n, c));
}

/// With faithful rounding, the risk score and the fraction of risky tokens of a
/// report lie in `[0, 1]` if the largest probability of each token is a number.
pub proof fn law_report_figures_lie_in_unit<A: Arithmetic>(
    ar: &A,
    cfg: DetectorConfig,
    tokens: Seq<TokenUncertainty>,
    approx: bool,
    include_per_token: bool,
    r: Report,
)
    requires
        faithful(ar),
        forall|i: int| #![trigger tokens[i]] 0 <= i < tokens.len() ==> !is_nan(tokens[i].max_prob),
        report_is(ar, cfg, tokens, approx, include_per_token, r),
    ensures
        figures_in_unit(r),
{
    if tokens.len() > 0 {
        law_mean_risk_lies_in_unit(ar, tokens, r.risk_score);
        law_risky_tokens_are_counted(cfg, tokens, tokens[0]);
        let part = risky_count(cfg, tokens) as usize;
        assert(fraction_is(ar, part, r.n_tokens, r.risky_fraction));
    }
}

/// With faithful rounding, the largest probability that log-probabilities give
/// is a number, and lies in `[0, 1]`, if they are numbers.
pub proof fn law_largest_probability_lies_in_unit<A: Arithmetic>(
    ar: &A,
    chosen_logprob: Bits,
    top_logprobs: Seq<Bits>,
    u: TokenUncertainty,
)
    requires
        faithful(ar),
        !is_nan(chosen_logprob),
        forall|i: int| #![trigger top_logprobs[i]]
            0 <= i < top_logprobs.len() ==> !is_nan(top_logprobs[i]),
        from_top_logprobs_is(ar, chosen_logprob, top_logprobs, u),
    ensures
        at_most(ZERO, u.max_prob),
        at_most(u.max_prob, ONE),
{
    if top_logprobs.len() > 0 {
        broadcast use vstd::seq_lib::group_to_multiset_ensures;

        let w = choose|w: Truncated| #[trigger]
            truncated_is(ar, top_logprobs, w) && truncated_gives(ar, w, chosen_logprob, u);
        assert(w.probs.to_multiset().len() == w.weights.to_multiset().len());
        assert(w.probs.contains(w.probs[0]));
        assert(w.weights.to_multiset().contains(w.probs[0]));
        let k = choose|k: int| 0 <= k < w.weights.len() && w.weights[k] == w.probs[0];
        assert(exp_is(ar, top_logprobs[k], w.weights[k]));
        assert(u.max_prob == in_unit(w.probs[0]));
    }
}

/// A larger number leaves no more of one.
pub open spec fn subtracts_in_order<A: Arithmetic>(ar: &A) -> bool {
    forall|a: Bits, b: Bits, r: Bits, s: Bits| #[trigger]
        difference_is(ar, ONE, a, r) && #[trigger] difference_is(ar, ONE, b, s) && at_most(a, b)
            ==> at_most(s, r)
}

/// The risk of a token does not grow with its largest probability.
pub proof fn law_risk_falls_as_probability_grows<A: Arithmetic>(
    ar: &A,
    a: TokenUncertainty,
    b: TokenUncertainty,
    ra: Bits,
    rb: Bits,
)
    requires
        subtracts_in_order(ar),
        at_most(a.max_prob, b.max_prob),
        risk_is(ar, a, ra),
        risk_is(ar, b, rb),
    ensures
        at_most(rb, ra),
{
    let r = choose|r: Bits| #[trigger] difference_is(ar, ONE, a.max_prob, r) && ra == in_unit(r);
    let s = choose|s: Bits| #[trigger] difference_is(ar, ONE, b.max_prob, s) && rb == in_unit(s);
    assert(at_most(s, r));
}

/// What a number leaves of one lies where it should: from one up for what is not
/// positive, from zero down for one and more, and in `[0, 1]` for what lies there.
pub open spec fn leaves_in_order<A: Arithmetic>(ar: &A) -> bool {
    forall|a: Bits, r: Bits| #[trigger]
        difference_is(ar, ONE, a, r) ==> {
            &&& at_most(a, ZERO) ==> at_most(ONE, r)
            &&& at_most(ONE, a) ==> at_most(r, ZERO)
            &&& at_most(ZERO, a) && at_most(a, ONE) ==> at_most(ZERO, r) && at_most(r, ONE)
        }
}

/// The risk of a token is what its largest probability leaves of one, if that is
/// a probability. It is none where the largest probability is one or more, and
/// one where it is not positive.
pub proof fn law_risk_is_what_is_left<A: Arithmetic>(ar: &A, u: TokenUncertainty, r: Bits)
    requires
        leaves_in_order(ar),
        risk_is(ar, u, r),
    ensures
        at_most(ZERO, u.max_prob) && at_most(u.max_prob, ONE) ==> difference_is(
            ar,
            ONE,
            u.max_prob,
            r,
        ),
        at_most(ONE, u.max_prob) ==> rank(r) == 0,
        at_most(u.max_prob, ZERO) ==> r == ONE,
{
    let rest = choose|rest: Bits| #[trigger]
        difference_is(ar, ONE, u.max_prob, rest) && r == in_unit(rest);
    assert(at_most(ZERO, u.max_prob) && at_most(u.max_prob, ONE) ==> r == rest);
}

/// What is not a number stays so in sums, quotients and products.
pub open spec fn spreads_nan<A: Arithmetic>(ar: &A) -> bool {
    &&& forall|a: Bits, b: Bits, r: Bits| #[trigger]
        sum_is(ar, a, b, r) && (is_nan(a) || is_nan(b)) ==> is_nan(r)
    &&& forall|a: Bits, b: Bits, r: Bits| #[trigger]
        quotient_is(ar, a, b, r) && is_nan(b) ==> is_nan(r)
    &&& forall|a: Bits, b: Bits, r: Bits| #[trigger]
        product_is(ar, a, b, r) && is_nan(b) ==> is_nan(r)
}

/// The operations of a softmax keep the order of numbers, as rounding to the
/// nearest number does.
pub open spec fn normalizes_faithfully<A: Arithmetic>(ar: &A) -> bool {
    &&& spreads_nan(ar)
    // What is subtracted from itself leaves zero, or no number where it is infinite.
    &&& forall|a: Bits, r: Bits| #[trigger]
        difference_is(ar, a, a, r) ==> if is_finite(a) {
            rank(r) == 0
        } else {
            is_nan(r)
        }
    // What is not a number leaves no number.
    &&& forall|a: Bits, b: Bits, r: Bits| #[trigger]
        difference_is(ar, a, b, r) && is_nan(a) ==> is_nan(r)
    // Something less something larger is not positive.
    &&& forall|a: Bits, b: Bits, r: Bits| #[trigger]
        difference_is(ar, a, b, r) && at_most(a, b) && is_finite(b) ==> at_most(r, ZERO)
    // A power with an exponent that is not positive lies in [0, 1], and is one for zero.
    &&& forall|a: Bits, r: Bits| #[trigger]
        exp_is(ar, a, r) && at_most(a, ZERO) ==> at_most(ZERO, r) && at_most(r, ONE)
    &&& forall|a: Bits, r: Bits| #[trigger] exp_is(ar, a, r) && rank(a) == 0 ==> r == ONE
    &&& forall|a: Bits, r: Bits| #[trigger] exp_is(ar, a, r) && is_nan(a) ==> is_nan(r)
    // Of numbers that are not negative, none exceeds their sum.
    &&& forall|a: Bits, b: Bits, r: Bits| #[trigger]
        sum_is(ar, a, b, r) && at_most(ZERO, a) && at_most(ZERO, b) ==> at_most(a, r) && at_most(
            b,
            r,
        )
    // One over a number from one up lies in [0, 1], and so does a product of numbers that do.
    &&& forall|a: Bits, r: Bits| #[trigger]
        quotient_is(ar, ONE, a, r) && at_most(ONE, a) ==> at_most(ZERO, r) && at_most(r, ONE)
    &&& forall|a: Bits, b: Bits, r: Bits| #[trigger]
        product_is(ar, a, b, r) && at_most(ZERO, a) && at_most(a, ONE) && at_most(ZERO, b)
            && at_most(b, ONE) ==> at_most(ZERO, r) && at_most(r, ONE)
}

/// A sum with a part that is not a number is none.
pub(crate) proof fn lemma_total_spreads_nan<A: Arithmetic>(
    ar: &A,
    start: Bits,
    s: Seq<Bits>,
    r: Bits,
    k: int,
)
    requires
        spreads_nan(ar),
        0 <= k < s.len(),
        is_nan(s[k]),
        total_is(ar, start, s, r),
    ensures
        is_nan(r),
    decreases s.len(),
{
    let p = choose|p: Bits|
        #![trigger sum_is(ar, p, s.last(), r)]
        total_is(ar, start, s.drop_last(), p) && sum_is(ar, p, s.last(), r);
    if k < s.len() - 1 {
        assert(s.drop_last()[k] == s[k]);
        lemma_total_spreads_nan(ar, start, s.drop_last(), p, k);
    }
}

/// Of numbers that are not negative, none exceeds their sum.
pub(crate) proof fn lemma_parts_within_total<A: Arithmetic>(
    ar: &A,
    start: Bits,
    s: Seq<Bits>,
    r: Bits,
)
    requires
        normalizes_faithfully(ar),
        rank(start) == 0,
        forall|i: int| #![trigger s[i]] 0 <= i < s.len() ==> at_most(ZERO, s[i]),
        total_is(ar, start, s, r),
    ensures
        at_most(ZERO, r),
        forall|i: int| #![trigger s[i]] 0 <= i < s.len() ==> at_most(s[i], r),
    decreases s.len(),
{
    if s.len() > 0 {
        let rest = s.drop_last();
        let p = choose|p: Bits|
            #![trigger sum_is(ar, p, s.last(), r)]
            total_is(ar, start, rest, p) && sum_is(ar, p, s.last(), r);
        assert(forall|i: int| 0 <= i < rest.len() ==> #[trigger] rest[i] == s[i]);
        lemma_parts_within_total(ar, start, rest, p);
        assert(s[s.len() - 1] == s.last());
        assert forall|i: int| #![trigger s[i]] 0 <= i < s.len() implies at_most(s[i], r) by {
            if i < rest.len() {
                assert(at_most(rest[i], p));
            }
        }
    }
}

/// The largest of some probabilities is one of them, or negative infinity.
proof fn lemma_first_is_one_of_all(s: Seq<Bits>)
    ensures
        two_largest(s).0 == NEGATIVE_INFINITY || exists|k: int|
            0 <= k < s.len() && #[trigger] s[k] == two_largest(s).0 && !is_nan(s[k]),
    decreases s.len(),
{
    if s.len() > 0 {
        let rest = s.drop_last();
        lemma_first_is_one_of_all(rest);
        assert(s[s.len() - 1] == s.last());
        if two_largest(rest).0 != NEGATIVE_INFINITY {
            let k = choose|k: int|
                0 <= k < rest.len() && #[trigger] rest[k] == two_largest(rest).0 && !is_nan(rest[k]);
            assert(s[k] == rest[k]);
        }
    }
}

/// With faithful rounding, the largest probability of a softmax lies in
/// `[0, 1]`, whatever the logits.
pub proof fn law_softmax_probability_lies_in_unit<A: Arithmetic>(
    ar: &A,
    logits: Seq<Bits>,
    chosen: usize,
    u: TokenUncertainty,
)
    requires
        normalizes_faithfully(ar),
        from_logits_is(ar, logits, chosen, u),
    ensures
        at_most(ZERO, u.max_prob),
        at_most(u.max_prob, ONE),
{
    if logits.len() > 0 {
        let w = choose|w: Softmax| #[trigger]
            softmax_is(ar, logits, w) && softmax_gives(ar, w, chosen, u);
        lemma_first_is_one_of_all(w.probs);
        if two_largest(w.probs).0 != NEGATIVE_INFINITY {
            let k = choose|k: int|
                0 <= k < w.probs.len() && #[trigger] w.probs[k] == two_largest(w.probs).0
                    && !is_nan(w.probs[k]);
            assert(product_is(ar, w.weights[k], w.inverse, w.probs[k]));
            lemma_weights_of_numbers(ar, logits, w);
            assert(at_most(w.weights[k], ONE));
        }
    }
}

/// A softmax with an inverse that is a number has weights in `[0, 1]`, which add
/// up to one at least.
proof fn lemma_weights_of_numbers<A: Arithmetic>(ar: &A, logits: Seq<Bits>, w: Softmax)
    requires
        normalizes_faithfully(ar),
        logits.len() > 0,
        softmax_is(ar, logits, w),
        !is_nan(w.inverse),
    ensures
        forall|i: int| #![trigger w.weights[i]]
            0 <= i < w.weights.len() ==> at_most(ZERO, w.weights[i]) && at_most(w.weights[i], ONE),
        at_most(ONE, w.total),
{
    let top = largest(logits);
    assert forall|i: int| #![trigger logits[i]] 0 <= i < logits.len() implies !is_nan(logits[i]) && (
    logits[i] == top ==> is_finite(top)) by {
        assert(difference_is(ar, logits[i], top, w.shifted[i]));
        assert(exp_is(ar, w.shifted[i], w.weights[i]));
        if is_nan(w.weights[i]) {
            lemma_total_spreads_nan(ar, ZERO, w.weights, w.total, i);
        }
    }
    law_largest_bounds_all(logits);
    assert(!is_nan(logits[0]) && at_most(logits[0], top));
    let k = if logits.contains(top) {
        choose|k: int| 0 <= k < logits.len() && logits[k] == top
    } else {
        0
    };
    assert(logits[k] == top);
    assert forall|i: int| #![trigger w.weights[i]] 0 <= i < w.weights.len() implies at_most(
        ZERO,
        w.weights[i],
    ) && at_most(w.weights[i], ONE) by {
        assert(!is_nan(logits[i]));
        assert(difference_is(ar, logits[i], top, w.shifted[i]));
        assert(exp_is(ar, w.shifted[i], w.weights[i]));
    }
    assert(difference_is(ar, logits[k], top, w.shifted[k]));
    assert(exp_is(ar, w.shifted[k], w.weights[k]));
    lemma_parts_within_total(ar, ZERO, w.weights, w.total);
    assert(at_most(w.weights[k], w.total));
}

/// What is not a number has no logarithm, and leaves no number when it is
/// subtracted.
pub open spec fn spreads_nan_further<A: Arithmetic>(ar: &A) -> bool {
    &&& forall|a: Bits, r: Bits| #[trigger] ln_is(ar, a, r) && is_nan(a) ==> is_nan(r)
    &&& forall|a: Bits, b: Bits, r: Bits| #[trigger]
        difference_is(ar, a, b, r) && is_nan(b) ==> is_nan(r)
}

/// Logits of which no softmax can be taken: some are no numbers or infinitely
/// large, or all are infinitely small.
pub open spec fn unusable(logits: Seq<Bits>) -> bool {
    ||| exists|i: int| 0 <= i < logits.len() && is_nan(#[trigger] logits[i])
    ||| exists|i: int| 0 <= i < logits.len() && #[trigger] logits[i] == INFINITY
    ||| forall|i: int| 0 <= i < logits.len() ==> #[trigger] logits[i] == NEGATIVE_INFINITY
}

/// Where no softmax can be taken, one of the weights is not a number.
proof fn lemma_unusable_weight<A: Arithmetic>(ar: &A, logits: Seq<Bits>, w: Softmax) -> (k: int)
    requires
        normalizes_faithfully(ar),
        logits.len() > 0,
        unusable(logits),
        softmax_is(ar, logits, w),
    ensures
        0 <= k < w.weights.len(),
        is_nan(w.weights[k]),
{
    let top = largest(logits);
    law_largest_bounds_all(logits);
    let k = if exists|i: int| 0 <= i < logits.len() && is_nan(#[trigger] logits[i]) {
        choose|i: int| 0 <= i < logits.len() && is_nan(#[trigger] logits[i])
    } else if exists|i: int| 0 <= i < logits.len() && #[trigger] logits[i] == INFINITY {
        choose|i: int| 0 <= i < logits.len() && #[trigger] logits[i] == INFINITY
    } else {
        0
    };
    assert(is_nan(logits[k]) || at_most(logits[k], top));
    assert(is_nan(logits[k]) || logits[k] == top);
    assert(difference_is(ar, logits[k], top, w.shifted[k]));
    assert(exp_is(ar, w.shifted[k], w.weights[k]));
    k
}

/// Outcomes whose probability is not a number add nothing to an entropy.
proof fn lemma_entropy_of_no_numbers<A: Arithmetic>(
    ar: &A,
    probs: Seq<Bits>,
    shifted: Seq<Bits>,
    log_total: Bits,
    r: Bits,
)
    requires
        forall|i: int| #![trigger probs[i]] 0 <= i < probs.len() ==> is_nan(probs[i]),
        softmax_entropy_is(ar, probs, shifted, log_total, r),
    ensures
        r == ZERO,
    decreases probs.len(),
{
    if probs.len() > 0 {
        let p = choose|p: Bits|
            #![trigger logit_added(ar, p, probs.last(), shifted.last(), log_total, r)]
            softmax_entropy_is(ar, probs.drop_last(), shifted.drop_last(), log_total, p)
                && logit_added(ar, p, probs.last(), shifted.last(), log_total, r);
        assert(forall|i: int|
            0 <= i < probs.len() - 1 ==> #[trigger] probs.drop_last()[i] == probs[i]);
        lemma_entropy_of_no_numbers(ar, probs.drop_last(), shifted.drop_last(), log_total, p);
        assert(is_nan(probs[probs.len() - 1]));
    }
}

/// Logits of which no softmax can be taken say as little as none.
pub proof fn law_unusable_logits_say_nothing<A: Arithmetic>(
    ar: &A,
    logits: Seq<Bits>,
    chosen: usize,
    u: TokenUncertainty,
)
    requires
        normalizes_faithfully(ar),
        spreads_nan_further(ar),
        unusable(logits),
        from_logits_is(ar, logits, chosen, u),
    ensures
        u == nothing_observed(),
{
    if logits.len() > 0 {
        let w = choose|w: Softmax| #[trigger]
            softmax_is(ar, logits, w) && softmax_gives(ar, w, chosen, u);
        let k = lemma_unusable_weight(ar, logits, w);
        lemma_total_spreads_nan(ar, ZERO, w.weights, w.total, k);
        assert forall|i: int| #![trigger w.probs[i]] 0 <= i < w.probs.len() implies is_nan(
            w.probs[i],
        ) by {
            assert(product_is(ar, w.weights[i], w.inverse, w.probs[i]));
        }
        lemma_entropy_of_no_numbers(ar, w.probs, w.shifted, w.log_total, w.entropy);
        lemma_first_is_one_of_all(w.probs);
        law_two_largest_bound_all(w.probs);
        assert(two_largest(w.probs).0 == NEGATIVE_INFINITY);
        assert(larger(two_largest(w.probs).1, ZERO) == ZERO);
        assert(is_nan(w.log_total));
    }
}

/// The binary32 numbers for numbers are numbers.
pub(crate) proof fn lemma_narrows_are_numbers<A: Arithmetic>(ar: &A, s: Seq<WideBits>, r: Seq<Bits>)
    requires
        keeps_numbers(ar),
        forall|i: int| #![trigger s[i]] 0 <= i < s.len() ==> is_number(s[i]),
        narrows_are(ar, s, r),
    ensures
        forall|i: int| #![trigger r[i]] 0 <= i < r.len() ==> !is_nan(r[i]),
{
    assert forall|i: int| #![trigger r[i]] 0 <= i < r.len() implies !is_nan(r[i]) by {
        assert(narrow_is(ar, s[i], r[i]));
    }
}

} // verus!
