//! The uncertainty of one generated token, from the distribution it was drawn
//! from.

use crate::arithmetic::{
    difference_is, exp_is, exps, exps_are, ln_is, product_is, quotient_is, total, total_is,
    Arithmetic,
};
use crate::float::{
    at_most, below, clamp_unit, in_unit, is_nan, larger, largest, law_clamped_lies_in_unit, less,
    max, max_of, min, smaller, test_nan, Bits, NEGATIVE_INFINITY, NEGATIVE_ZERO, ONE, ZERO,
};
use crate::order::{sort_descending, sorts, top_two, two_largest};
use vstd::prelude::*;

verus! {

/// The uncertainty of one generated token. All four are binary32 encodings.
#[derive(Debug, Clone, Copy, PartialEq, Eq, Structural)]
pub struct TokenUncertainty {
    /// Predictive entropy in nats. From the top log-probabilities, the unseen
    /// tail counts as one outcome, which makes it a lower bound up to rounding.
    pub entropy: Bits,
    /// Probability of the most likely token.
    pub max_prob: Bits,
    /// Probability of the most likely token less that of the second.
    pub margin: Bits,
    /// Natural logarithm of the probability of the token that was emitted.
    pub chosen_logprob: Bits,
}

/// The tail of a truncated distribution counts towards the entropy only above
/// this probability, `1e-6`.
pub const TAIL_FLOOR: Bits = 0x3586_37bd;

/// `r` can be the risk of a token: the probability that is not on its most
/// likely token, moved into `[0, 1]`.
pub open spec fn risk_is<A: Arithmetic>(ar: &A, u: TokenUncertainty, r: Bits) -> bool {
    exists|rest: Bits| #[trigger] difference_is(ar, ONE, u.max_prob, rest) && r == in_unit(rest)
}

impl TokenUncertainty {
    /// The risk of the token: the probability mass that the model put on
    /// something other than its top choice, in `[0, 1]`.
    pub fn risk<A: Arithmetic>(&self, ar: &A) -> (r: Bits)
        ensures
            risk_is(ar, *self, r),
    {
        let rest: Bits = ar.minus(ONE, self.max_prob);
        assert(difference_is(ar, ONE, self.max_prob, rest));
        clamp_unit(rest)
    }
}

/// `r` can be `acc` after an outcome of probability `p` and log-probability `l`
/// has been taken from it: `acc - p * l`.
pub open spec fn less_outcome_is<A: Arithmetic>(ar: &A, acc: Bits, p: Bits, l: Bits, r: Bits) -> bool {
    exists|term: Bits| #[trigger] product_is(ar, p, l, term) && difference_is(ar, acc, term, r)
}

/// `r` can be the entropy `acc` with one more outcome of probability `p`. An
/// outcome without a positive probability adds nothing.
pub open spec fn outcome_added<A: Arithmetic>(ar: &A, acc: Bits, p: Bits, r: Bits) -> bool {
    if below(ZERO, p) {
        exists|l: Bits| #[trigger] ln_is(ar, p, l) && less_outcome_is(ar, acc, p, l, r)
    } else {
        r == acc
    }
}

/// `r` can be the entropy of the outcomes `probs`, each added in turn.
pub open spec fn entropy_is<A: Arithmetic>(ar: &A, probs: Seq<Bits>, r: Bits) -> bool
    decreases probs.len(),
{
    if probs.len() == 0 {
        r == ZERO
    } else {
        exists|partial: Bits|
            #![trigger outcome_added(ar, partial, probs.last(), r)]
            entropy_is(ar, probs.drop_last(), partial) && outcome_added(ar, partial, probs.last(), r)
    }
}

/// `r` can be the entropy `acc` with one more outcome of probability `p`, whose
/// log-probability is the logit `shifted` less the logarithm of the total.
pub open spec fn logit_added<A: Arithmetic>(
    ar: &A,
    acc: Bits,
    p: Bits,
    shifted: Bits,
    log_total: Bits,
    r: Bits,
) -> bool {
    if below(ZERO, p) {
        exists|l: Bits| #[trigger]
            difference_is(ar, shifted, log_total, l) && less_outcome_is(ar, acc, p, l, r)
    } else {
        r == acc
    }
}

/// `r` can be the entropy of a softmax with these probabilities and shifted
/// logits, outcome by outcome.
pub open spec fn softmax_entropy_is<A: Arithmetic>(
    ar: &A,
    probs: Seq<Bits>,
    shifted: Seq<Bits>,
    log_total: Bits,
    r: Bits,
) -> bool
    decreases probs.len(),
{
    if probs.len() == 0 {
        r == ZERO
    } else {
        exists|partial: Bits|
            #![trigger logit_added(ar, partial, probs.last(), shifted.last(), log_total, r)]
            softmax_entropy_is(ar, probs.drop_last(), shifted.drop_last(), log_total, partial)
                && logit_added(ar, partial, probs.last(), shifted.last(), log_total, r)
    }
}

/// A softmax in the making.
pub struct Softmax {
    /// The logits, less the largest of them.
    pub shifted: Seq<Bits>,
    /// `e` to the power of each shifted logit.
    pub weights: Seq<Bits>,
    /// The sum of the weights.
    pub total: Bits,
    /// One over the total.
    pub inverse: Bits,
    /// The logarithm of the total.
    pub log_total: Bits,
    /// Each weight times the inverse.
    pub probs: Seq<Bits>,
    /// The entropy of the probabilities.
    pub entropy: Bits,
}

/// `r` can hold, place by place, the numbers in `s` less `b`.
pub open spec fn differences_are<A: Arithmetic>(ar: &A, s: Seq<Bits>, b: Bits, r: Seq<Bits>) -> bool {
    r.len() == s.len() && forall|i: int|
        #![trigger r[i]]
        0 <= i < s.len() ==> difference_is(ar, s[i], b, r[i])
}

/// `r` can hold, place by place, the numbers in `s` times `b`.
pub open spec fn products_are<A: Arithmetic>(ar: &A, s: Seq<Bits>, b: Bits, r: Seq<Bits>) -> bool {
    r.len() == s.len() && forall|i: int|
        #![trigger r[i]]
        0 <= i < s.len() ==> product_is(ar, s[i], b, r[i])
}

/// `w` can be the softmax of `logits`.
pub open spec fn softmax_is<A: Arithmetic>(ar: &A, logits: Seq<Bits>, w: Softmax) -> bool {
    &&& differences_are(ar, logits, largest(logits), w.shifted)
    &&& exps_are(ar, w.shifted, w.weights)
    &&& total_is(ar, ZERO, w.weights, w.total)
    &&& quotient_is(ar, ONE, w.total, w.inverse)
    &&& ln_is(ar, w.total, w.log_total)
    &&& products_are(ar, w.weights, w.inverse, w.probs)
    &&& softmax_entropy_is(ar, w.probs, w.shifted, w.log_total, w.entropy)
}

/// `r` can be the margin between the two largest probabilities: their
/// difference, or zero where it is not positive.
pub open spec fn margin_is<A: Arithmetic>(ar: &A, first: Bits, second: Bits, r: Bits) -> bool {
    exists|gap: Bits| #[trigger] difference_is(ar, first, second, gap) && r == larger(gap, ZERO)
}

/// A number itself, or negative infinity in place of what is not a number.
pub open spec fn or_impossible(a: Bits) -> Bits {
    if is_nan(a) {
        NEGATIVE_INFINITY
    } else {
        a
    }
}

/// `r` can be the log-probability of the emitted token: the logarithm of its
/// probability or, where that is too small to be told from zero, its shifted
/// logit less the logarithm of the total. A token past the end is impossible.
pub open spec fn logprob_is<A: Arithmetic>(ar: &A, w: Softmax, chosen: int, r: Bits) -> bool {
    if !(0 <= chosen < w.probs.len()) {
        r == NEGATIVE_INFINITY
    } else if below(ZERO, w.probs[chosen]) {
        ln_is(ar, w.probs[chosen], r)
    } else {
        exists|l: Bits| #[trigger]
            difference_is(ar, w.shifted[chosen], w.log_total, l) && r == or_impossible(l)
    }
}

/// The probability at a place, or zero past the end.
pub open spec fn probability_at(probs: Seq<Bits>, place: int) -> Bits {
    if 0 <= place < probs.len() {
        probs[place]
    } else {
        ZERO
    }
}

/// What is said of a token without any distribution.
pub open spec fn nothing_observed() -> TokenUncertainty {
    TokenUncertainty {
        entropy: ZERO,
        max_prob: ZERO,
        margin: ZERO,
        chosen_logprob: NEGATIVE_INFINITY,
    }
}

/// `u` can be the uncertainty that the softmax `w` and the emitted token give.
/// Where there is no second probability, it counts as zero.
pub open spec fn softmax_gives<A: Arithmetic>(
    ar: &A,
    w: Softmax,
    chosen: usize,
    u: TokenUncertainty,
) -> bool {
    &&& u.entropy == larger(w.entropy, ZERO)
    &&& u.max_prob == larger(two_largest(w.probs).0, ZERO)
    &&& margin_is(ar, two_largest(w.probs).0, larger(two_largest(w.probs).1, ZERO), u.margin)
    &&& logprob_is(ar, w, chosen as int, u.chosen_logprob)
}

/// `u` can be the uncertainty of a token drawn from the softmax of `logits`.
pub open spec fn from_logits_is<A: Arithmetic>(
    ar: &A,
    logits: Seq<Bits>,
    chosen: usize,
    u: TokenUncertainty,
) -> bool {
    if logits.len() == 0 {
        u == nothing_observed()
    } else {
        exists|w: Softmax| #[trigger]
            softmax_is(ar, logits, w) && softmax_gives(ar, w, chosen, u)
    }
}

/// `r` can be `1 - a`, or zero where that is not positive.
pub open spec fn rest_is<A: Arithmetic>(ar: &A, a: Bits, r: Bits) -> bool {
    exists|gap: Bits| #[trigger] difference_is(ar, ONE, a, gap) && r == larger(gap, ZERO)
}

/// `u` can be the uncertainty of a token of which only its own log-probability
/// is known: its probability stands for the largest, and the rest is one more
/// outcome.
pub open spec fn from_chosen_alone_is<A: Arithmetic>(
    ar: &A,
    chosen_logprob: Bits,
    u: TokenUncertainty,
) -> bool {
    exists|e: Bits, tail: Bits, with_chosen: Bits|
        #![trigger exp_is(ar, chosen_logprob, e), rest_is(ar, in_unit(e), tail), outcome_added(ar, ZERO, in_unit(e), with_chosen)]
        {
            &&& exp_is(ar, chosen_logprob, e)
            &&& rest_is(ar, in_unit(e), tail)
            &&& outcome_added(ar, ZERO, in_unit(e), with_chosen)
            &&& outcome_added(ar, with_chosen, tail, u.entropy)
            &&& u.max_prob == in_unit(e)
            &&& u.margin == ZERO
            &&& u.chosen_logprob == chosen_logprob
        }
}

/// A truncated distribution in the making.
pub struct Truncated {
    /// `e` to the power of each log-probability.
    pub weights: Seq<Bits>,
    /// The weights in descending order.
    pub probs: Seq<Bits>,
    /// Their sum.
    pub total: Bits,
    /// What the total, or one if that is smaller, leaves of one.
    pub tail: Bits,
    /// The entropy of the probabilities.
    pub observed_entropy: Bits,
    /// The entropy with the tail as one more outcome.
    pub entropy: Bits,
}

/// `w` can be the distribution of which `top_logprobs` are the logarithms of
/// the largest probabilities.
pub open spec fn truncated_is<A: Arithmetic>(ar: &A, top_logprobs: Seq<Bits>, w: Truncated) -> bool {
    &&& exps_are(ar, top_logprobs, w.weights)
    &&& sorts(w.weights, w.probs)
    &&& total_is(ar, NEGATIVE_ZERO, w.probs, w.total)
    &&& entropy_is(ar, w.probs, w.observed_entropy)
    &&& rest_is(ar, smaller(w.total, ONE), w.tail)
    &&& if below(TAIL_FLOOR, w.tail) {
        outcome_added(ar, w.observed_entropy, w.tail, w.entropy)
    } else {
        w.entropy == w.observed_entropy
    }
}

/// `u` can be the uncertainty that the truncated distribution `w` gives.
pub open spec fn truncated_gives<A: Arithmetic>(
    ar: &A,
    w: Truncated,
    chosen_logprob: Bits,
    u: TokenUncertainty,
) -> bool {
    &&& u.entropy == larger(w.entropy, ZERO)
    &&& u.max_prob == in_unit(w.probs[0])
    &&& margin_is(ar, w.probs[0], probability_at(w.probs, 1), u.margin)
    &&& u.chosen_logprob == chosen_logprob
}

/// `u` can be the uncertainty of a token with this log-probability, where the
/// largest log-probabilities of its distribution are `top_logprobs`.
pub open spec fn from_top_logprobs_is<A: Arithmetic>(
    ar: &A,
    chosen_logprob: Bits,
    top_logprobs: Seq<Bits>,
    u: TokenUncertainty,
) -> bool {
    if top_logprobs.len() == 0 {
        from_chosen_alone_is(ar, chosen_logprob, u)
    } else {
        exists|w: Truncated| #[trigger]
            truncated_is(ar, top_logprobs, w) && truncated_gives(ar, w, chosen_logprob, u)
    }
}

/// Takes an outcome of probability `p` and log-probability `l` from `acc`.
fn less_outcome<A: Arithmetic>(ar: &A, acc: Bits, p: Bits, l: Bits) -> (r: Bits)
    ensures
        less_outcome_is(ar, acc, p, l, r),
{
    let term: Bits = ar.times(p, l);
    let r: Bits = ar.minus(acc, term);
    assert(product_is(ar, p, l, term) && difference_is(ar, acc, term, r));
    r
}

/// Adds an outcome of probability `p` to the entropy `acc`.
fn add_outcome<A: Arithmetic>(ar: &A, acc: Bits, p: Bits) -> (r: Bits)
    ensures
        outcome_added(ar, acc, p, r),
{
    if less(ZERO, p) {
        let l: Bits = ar.ln(p);
        assert(ln_is(ar, p, l));
        less_outcome(ar, acc, p, l)
    } else {
        acc
    }
}

/// The entropy of the outcomes `probs`.
fn entropy<A: Arithmetic>(ar: &A, probs: &[Bits]) -> (r: Bits)
    ensures
        entropy_is(ar, probs@, r),
{
    let mut acc: Bits = ZERO;
    let mut i: usize = 0;
    while i < probs.len()
        invariant
            i <= probs.len(),
            entropy_is(ar, probs@.take(i as int), acc),
        decreases probs.len() - i,
    {
        let ghost before = acc;
        acc = add_outcome(ar, acc, probs[i]);
        proof {
            assert(probs@.take(i + 1).drop_last() =~= probs@.take(i as int));
            assert(outcome_added(ar, before, probs@.take(i + 1).last(), acc));
        }
        i += 1;
    }
    assert(probs@.take(probs@.len() as int) =~= probs@);
    acc
}

/// The entropy of a softmax.
fn softmax_entropy<A: Arithmetic>(ar: &A, probs: &[Bits], shifted: &[Bits], log_total: Bits) -> (r:
    Bits)
    requires
        probs@.len() == shifted@.len(),
    ensures
        softmax_entropy_is(ar, probs@, shifted@, log_total, r),
{
    let mut acc: Bits = ZERO;
    let mut i: usize = 0;
    while i < probs.len()
        invariant
            i <= probs.len(),
            probs@.len() == shifted@.len(),
            softmax_entropy_is(ar, probs@.take(i as int), shifted@.take(i as int), log_total, acc),
        decreases probs.len() - i,
    {
        let ghost before = acc;
        if less(ZERO, probs[i]) {
            let l: Bits = ar.minus(shifted[i], log_total);
            assert(difference_is(ar, shifted@[i as int], log_total, l));
            acc = less_outcome(ar, acc, probs[i], l);
        }
        proof {
            assert(probs@.take(i + 1).drop_last() =~= probs@.take(i as int));
            assert(shifted@.take(i + 1).drop_last() =~= shifted@.take(i as int));
            assert(logit_added(
                ar,
                before,
                probs@.take(i + 1).last(),
                shifted@.take(i + 1).last(),
                log_total,
                acc,
            ));
        }
        i += 1;
    }
    assert(probs@.take(probs@.len() as int) =~= probs@);
    assert(shifted@.take(shifted@.len() as int) =~= shifted@);
    acc
}

/// The numbers in `s` less `b`.
fn differences<A: Arithmetic>(ar: &A, s: &[Bits], b: Bits) -> (r: Vec<Bits>)
    ensures
        differences_are(ar, s@, b, r@),
{
    let mut r: Vec<Bits> = Vec::new();
    let mut i: usize = 0;
    while i < s.len()
        invariant
            i <= s.len(),
            r@.len() == i,
            forall|j: int| #![trigger r@[j]] 0 <= j < i ==> difference_is(ar, s@[j], b, r@[j]),
        decreases s.len() - i,
    {
        let d: Bits = ar.minus(s[i], b);
        assert(difference_is(ar, s@[i as int], b, d));
        r.push(d);
        i += 1;
    }
    r
}

/// The numbers in `s` times `b`.
fn products<A: Arithmetic>(ar: &A, s: &[Bits], b: Bits) -> (r: Vec<Bits>)
    ensures
        products_are(ar, s@, b, r@),
{
    let mut r: Vec<Bits> = Vec::new();
    let mut i: usize = 0;
    while i < s.len()
        invariant
            i <= s.len(),
            r@.len() == i,
            forall|j: int| #![trigger r@[j]] 0 <= j < i ==> product_is(ar, s@[j], b, r@[j]),
        decreases s.len() - i,
    {
        let p: Bits = ar.times(s[i], b);
        assert(product_is(ar, s@[i as int], b, p));
        r.push(p);
        i += 1;
    }
    r
}

/// The margin between the two largest probabilities.
fn margin<A: Arithmetic>(ar: &A, first: Bits, second: Bits) -> (r: Bits)
    ensures
        margin_is(ar, first, second, r),
{
    let gap: Bits = ar.minus(first, second);
    assert(difference_is(ar, first, second, gap));
    max(gap, ZERO)
}

/// `1 - a`, or zero where that is not positive.
fn rest<A: Arithmetic>(ar: &A, a: Bits) -> (r: Bits)
    ensures
        rest_is(ar, a, r),
{
    let gap: Bits = ar.minus(ONE, a);
    assert(difference_is(ar, ONE, a, gap));
    max(gap, ZERO)
}

/// Entropy, largest probability and margin from one full vector of logits, by a
/// softmax from which the largest logit has been subtracted.
pub fn uncertainty_from_logits<A: Arithmetic>(ar: &A, logits: &[Bits], chosen: usize) -> (u:
    TokenUncertainty)
    ensures
        from_logits_is(ar, logits@, chosen, u),
{
    if logits.len() == 0 {
        return TokenUncertainty {
            entropy: ZERO,
            max_prob: ZERO,
            margin: ZERO,
            chosen_logprob: NEGATIVE_INFINITY,
        };
    }
    let shifted: Vec<Bits> = differences(ar, logits, max_of(logits));
    let weights: Vec<Bits> = exps(ar, shifted.as_slice());
    let sum: Bits = total(ar, ZERO, weights.as_slice());
    let inverse: Bits = ar.over(ONE, sum);
    let log_total: Bits = ar.ln(sum);
    let probs: Vec<Bits> = products(ar, weights.as_slice(), inverse);
    let spread: Bits = softmax_entropy(ar, probs.as_slice(), shifted.as_slice(), log_total);
    let (first, second) = top_two(probs.as_slice());
    let chosen_logprob: Bits = if chosen >= probs.len() {
        NEGATIVE_INFINITY
    } else if less(ZERO, probs[chosen]) {
        ar.ln(probs[chosen])
    } else {
        let l: Bits = ar.minus(shifted[chosen], log_total);
        assert(difference_is(ar, shifted@[chosen as int], log_total, l));
        if test_nan(l) {
            NEGATIVE_INFINITY
        } else {
            l
        }
    };
    let u = TokenUncertainty {
        entropy: max(spread, ZERO),
        max_prob: max(first, ZERO),
        margin: margin(ar, first, max(second, ZERO)),
        chosen_logprob,
    };
    proof {
        let w = Softmax {
            shifted: shifted@,
            weights: weights@,
            total: sum,
            inverse,
            log_total,
            probs: probs@,
            entropy: spread,
        };
        assert(softmax_is(ar, logits@, w));
        assert(softmax_gives(ar, w, chosen, u));
    }
    u
}

/// Entropy, largest probability and margin from the logarithms of the largest
/// probabilities, in any order. The probability that they leave is folded into
/// one outcome, so up to rounding the entropy is a lower bound.
pub fn uncertainty_from_top_logprobs<A: Arithmetic>(
    ar: &A,
    chosen_logprob: Bits,
    top_logprobs: &[Bits],
) -> (u: TokenUncertainty)
    ensures
        from_top_logprobs_is(ar, chosen_logprob, top_logprobs@, u),
{
    if top_logprobs.len() == 0 {
        let e: Bits = ar.exp(chosen_logprob);
        let p: Bits = clamp_unit(e);
        let tail: Bits = rest(ar, p);
        let with_chosen: Bits = add_outcome(ar, ZERO, p);
        let spread: Bits = add_outcome(ar, with_chosen, tail);
        assert(exp_is(ar, chosen_logprob, e) && rest_is(ar, in_unit(e), tail) && outcome_added(
            ar,
            ZERO,
            in_unit(e),
            with_chosen,
        ));
        return TokenUncertainty { entropy: spread, max_prob: p, margin: ZERO, chosen_logprob };
    }
    let weights: Vec<Bits> = exps(ar, top_logprobs);
    let ghost unsorted = weights@;
    let probs: Vec<Bits> = sort_descending(weights);
    proof {
        broadcast use vstd::seq_lib::group_to_multiset_ensures;

        assert(probs@.to_multiset().len() == unsorted.to_multiset().len());
    }
    let sum: Bits = total(ar, NEGATIVE_ZERO, probs.as_slice());
    let seen: Bits = entropy(ar, probs.as_slice());
    let tail: Bits = rest(ar, min(sum, ONE));
    let spread: Bits = if less(TAIL_FLOOR, tail) {
        add_outcome(ar, seen, tail)
    } else {
        seen
    };
    let first: Bits = probs[0];
    let second: Bits = if probs.len() > 1 {
        probs[1]
    } else {
        ZERO
    };
    let u = TokenUncertainty {
        entropy: max(spread, ZERO),
        max_prob: clamp_unit(first),
        margin: margin(ar, first, second),
        chosen_logprob,
    };
    proof {
        let w = Truncated {
            weights: unsorted,
            probs: probs@,
            total: sum,
            tail,
            observed_entropy: seen,
            entropy: spread,
        };
        assert(truncated_is(ar, top_logprobs@, w));
        assert(truncated_gives(ar, w, chosen_logprob, u));
    }
    u
}

/// The risk of a token lies in `[0, 1]`, whatever the arithmetic, unless it is
/// not a number.
pub proof fn law_risk_lies_in_unit<A: Arithmetic>(ar: &A, u: TokenUncertainty, r: Bits)
    requires
        risk_is(ar, u, r),
    ensures
        is_nan(r) || (at_most(ZERO, r) && at_most(r, ONE)),
{
    let rest = choose|rest: Bits| #[trigger]
        difference_is(ar, ONE, u.max_prob, rest) && r == in_unit(rest);
    law_clamped_lies_in_unit(rest);
}

/// Entropy, largest probability and margin from logits are numbers, and none is
/// negative, whatever the arithmetic.
pub proof fn law_logit_signals_are_not_negative<A: Arithmetic>(
    ar: &A,
    logits: Seq<Bits>,
    chosen: usize,
    u: TokenUncertainty,
)
    requires
        from_logits_is(ar, logits, chosen, u),
    ensures
        at_most(ZERO, u.entropy),
        at_most(ZERO, u.max_prob),
        at_most(ZERO, u.margin),
{
}

/// The margin from top log-probabilities is a number and not negative, and so is
/// the entropy where there are any. The largest probability lies in `[0, 1]` or
/// is not a number. This holds whatever the arithmetic.
pub proof fn law_truncated_signals_lie_in_range<A: Arithmetic>(
    ar: &A,
    chosen_logprob: Bits,
    top_logprobs: Seq<Bits>,
    u: TokenUncertainty,
)
    requires
        from_top_logprobs_is(ar, chosen_logprob, top_logprobs, u),
    ensures
        top_logprobs.len() > 0 ==> at_most(ZERO, u.entropy),
        at_most(ZERO, u.margin),
        is_nan(u.max_prob) || (at_most(ZERO, u.max_prob) && at_most(u.max_prob, ONE)),
{
    if top_logprobs.len() > 0 {
        let w = choose|w: Truncated| #[trigger]
            truncated_is(ar, top_logprobs, w) && truncated_gives(ar, w, chosen_logprob, u);
        law_clamped_lies_in_unit(w.probs[0]);
    }
}

/// Which token was emitted matters to its own log-probability only: whatever the
/// arithmetic, the other signals can be the same for a token past the end, which
/// is impossible.
pub proof fn law_emitted_token_is_set_apart<A: Arithmetic>(
    ar: &A,
    logits: Seq<Bits>,
    chosen: usize,
    other: usize,
    u: TokenUncertainty,
)
    requires
        from_logits_is(ar, logits, chosen, u),
        other >= logits.len(),
    ensures
        from_logits_is(
            ar,
            logits,
            other,
            (TokenUncertainty { chosen_logprob: NEGATIVE_INFINITY, ..u }),
        ),
{
    if logits.len() > 0 {
        let w = choose|w: Softmax| #[trigger]
            softmax_is(ar, logits, w) && softmax_gives(ar, w, chosen, u);
        let v = TokenUncertainty { chosen_logprob: NEGATIVE_INFINITY, ..u };
        assert(softmax_is(ar, logits, w) && softmax_gives(ar, w, other, v));
    }
}

/// The log-probability of the emitted token comes back as it was given and,
/// where there are others, matters to nothing else: whatever the arithmetic, the
/// other signals can be the same for any log-probability.
pub proof fn law_chosen_logprob_is_set_apart<A: Arithmetic>(
    ar: &A,
    chosen_logprob: Bits,
    other: Bits,
    top_logprobs: Seq<Bits>,
    u: TokenUncertainty,
)
    requires
        from_top_logprobs_is(ar, chosen_logprob, top_logprobs, u),
    ensures
        u.chosen_logprob == chosen_logprob,
        top_logprobs.len() > 0 ==> from_top_logprobs_is(
            ar,
            other,
            top_logprobs,
            (TokenUncertainty { chosen_logprob: other, ..u }),
        ),
{
    if top_logprobs.len() > 0 {
        let w = choose|w: Truncated| #[trigger]
            truncated_is(ar, top_logprobs, w) && truncated_gives(ar, w, chosen_logprob, u);
        let v = TokenUncertainty { chosen_logprob: other, ..u };
        assert(truncated_is(ar, top_logprobs, w) && truncated_gives(ar, w, other, v));
    }
}

/// The order in which the top log-probabilities are listed does not matter.
pub proof fn law_order_of_top_logprobs_is_irrelevant<A: Arithmetic>(
    ar: &A,
    chosen_logprob: Bits,
    listed: Seq<Bits>,
    relisted: Seq<Bits>,
    u: TokenUncertainty,
)
    requires
        listed.to_multiset() == relisted.to_multiset(),
        from_top_logprobs_is(ar, chosen_logprob, listed, u),
    ensures
        from_top_logprobs_is(ar, chosen_logprob, relisted, u),
{
    broadcast use vstd::seq_lib::group_to_multiset_ensures;

    listed.to_multiset_ensures();
    relisted.to_multiset_ensures();
    if listed.len() > 0 {
        let w = choose|w: Truncated| #[trigger]
            truncated_is(ar, listed, w) && truncated_gives(ar, w, chosen_logprob, u);
        let weights = lemma_exps_follow_relisting(ar, listed, w.weights, relisted);
        let v = Truncated { weights, ..w };
        assert(truncated_is(ar, relisted, v));
        assert(truncated_gives(ar, v, chosen_logprob, u));
    }
}

/// Powers of relisted exponents are the same powers relisted.
proof fn lemma_exps_follow_relisting<A: Arithmetic>(
    ar: &A,
    listed: Seq<Bits>,
    powers: Seq<Bits>,
    relisted: Seq<Bits>,
) -> (r: Seq<Bits>)
    requires
        listed.to_multiset() == relisted.to_multiset(),
        exps_are(ar, listed, powers),
    ensures
        exps_are(ar, relisted, r),
        r.to_multiset() == powers.to_multiset(),
    decreases relisted.len(),
{
    broadcast use vstd::seq_lib::group_to_multiset_ensures;

    listed.to_multiset_ensures();
    relisted.to_multiset_ensures();
    if relisted.len() == 0 {
        assert(powers =~= Seq::<Bits>::empty());
        powers
    } else {
        let last = relisted.last();
        assert(relisted.to_multiset().contains(relisted[relisted.len() - 1]));
        assert(listed.to_multiset().contains(last));
        assert(listed.contains(last));
        let k = choose|k: int| 0 <= k < listed.len() && listed[k] == last;
        let fewer = relisted.drop_last();
        assert(relisted =~= fewer.push(last));
        assert(listed.remove(k).to_multiset() =~= fewer.to_multiset());
        let v = lemma_exps_follow_relisting(ar, listed.remove(k), powers.remove(k), fewer);
        let r = v.push(powers[k]);
        assert(r.to_multiset() =~= powers.to_multiset());
        r
    }
}

/// Without logits nothing is said of a token, and a token past the end of them
/// is impossible, whatever the arithmetic.
pub proof fn law_missing_tokens_are_impossible<A: Arithmetic>(
    ar: &A,
    logits: Seq<Bits>,
    chosen: usize,
    u: TokenUncertainty,
)
    requires
        from_logits_is(ar, logits, chosen, u),
    ensures
        chosen >= logits.len() ==> u.chosen_logprob == NEGATIVE_INFINITY,
        logits.len() == 0 ==> u.entropy == ZERO && u.max_prob == ZERO && u.margin == ZERO,
{
}

} // verus!
