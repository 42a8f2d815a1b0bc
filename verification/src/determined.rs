//! Where the arithmetic is a function, so is the detector: what is observed
//! determines every signal and every figure of the report.

use crate::analysis::{
    all_hold_numbers, analyzed, array_under, assessed, chat_token, first_choice,
    law_only_first_choice_matters, legacy_tops, logprobs_of, or_impossible, present, shortcoming,
    token_observed, tokens_are, tokens_observed,
};
use crate::arithmetic::{
    count_is, difference_is, exp_is, exps_are, ln_is, mean_is, narrow_is, narrows_are, product_is,
    quotient_is, sum_is, total_is, Arithmetic,
};
use crate::detector::{
    default_config, entropies, fraction_is, mean_risk_is, report_is, risks_are, risky_count,
    DetectorConfig, Report,
};
use crate::encode::{numeral_is, report_encoded, token_encoded, Numerals};
use crate::float::{largest, Bits, WideBits, NEGATIVE_INFINITY, NEGATIVE_ZERO, ZERO};
use crate::json::{bits_of, field, json_of, key_before, lists_keys, with, Json};
use crate::order::{law_peak_is_determined, law_sorting_is_determined};
use crate::proxy::{concluded, Reply};
use crate::status::successful;
use crate::uncertainty::{
    entropy_is, from_chosen_alone_is, from_logits_is, from_top_logprobs_is,
    law_order_of_top_logprobs_is_irrelevant, logit_added, outcome_added, risk_is,
    softmax_entropy_is, softmax_gives, softmax_is, truncated_gives, truncated_is, Softmax,
    TokenUncertainty, Truncated,
};
use serde_json::Value;
use vstd::prelude::*;

verus! {

/// Each operation gives one result on the same numbers.
pub open spec fn deterministic<A: Arithmetic>(ar: &A) -> bool {
    &&& forall|a: Bits, b: Bits, r: Bits, s: Bits| #[trigger]
        sum_is(ar, a, b, r) && #[trigger] sum_is(ar, a, b, s) ==> r == s
    &&& forall|a: Bits, b: Bits, r: Bits, s: Bits| #[trigger]
        difference_is(ar, a, b, r) && #[trigger] difference_is(ar, a, b, s) ==> r == s
    &&& forall|a: Bits, b: Bits, r: Bits, s: Bits| #[trigger]
        product_is(ar, a, b, r) && #[trigger] product_is(ar, a, b, s) ==> r == s
    &&& forall|a: Bits, b: Bits, r: Bits, s: Bits| #[trigger]
        quotient_is(ar, a, b, r) && #[trigger] quotient_is(ar, a, b, s) ==> r == s
    &&& forall|a: Bits, r: Bits, s: Bits| #[trigger]
        exp_is(ar, a, r) && #[trigger] exp_is(ar, a, s) ==> r == s
    &&& forall|a: Bits, r: Bits, s: Bits| #[trigger]
        ln_is(ar, a, r) && #[trigger] ln_is(ar, a, s) ==> r == s
    &&& forall|n: usize, r: Bits, s: Bits| #[trigger]
        count_is(ar, n, r) && #[trigger] count_is(ar, n, s) ==> r == s
    &&& forall|w: WideBits, r: Bits, s: Bits| #[trigger]
        narrow_is(ar, w, r) && #[trigger] narrow_is(ar, w, s) ==> r == s
}

/// A sum has one result.
pub(crate) proof fn lemma_total<A: Arithmetic>(ar: &A, start: Bits, s: Seq<Bits>, r: Bits, t: Bits)
    requires
        deterministic(ar),
        total_is(ar, start, s, r),
        total_is(ar, start, s, t),
    ensures
        r == t,
    decreases s.len(),
{
    if s.len() > 0 {
        let p = choose|p: Bits|
            #![trigger sum_is(ar, p, s.last(), r)]
            total_is(ar, start, s.drop_last(), p) && sum_is(ar, p, s.last(), r);
        let q = choose|q: Bits|
            #![trigger sum_is(ar, q, s.last(), t)]
            total_is(ar, start, s.drop_last(), q) && sum_is(ar, q, s.last(), t);
        lemma_total(ar, start, s.drop_last(), p, q);
    }
}

/// A mean has one result.
proof fn lemma_mean<A: Arithmetic>(ar: &A, start: Bits, s: Seq<Bits>, r: Bits, t: Bits)
    requires
        deterministic(ar),
        mean_is(ar, start, s, r),
        mean_is(ar, start, s, t),
    ensures
        r == t,
{
    let n = s.len() as usize;
    let (p, m) = choose|p: Bits, m: Bits|
        #![trigger total_is(ar, start, s, p), count_is(ar, n, m)]
        total_is(ar, start, s, p) && count_is(ar, n, m) && quotient_is(ar, p, m, r);
    let (q, k) = choose|q: Bits, k: Bits|
        #![trigger total_is(ar, start, s, q), count_is(ar, n, k)]
        total_is(ar, start, s, q) && count_is(ar, n, k) && quotient_is(ar, q, k, t);
    lemma_total(ar, start, s, p, q);
}

/// Powers have one result.
proof fn lemma_exps<A: Arithmetic>(ar: &A, s: Seq<Bits>, r: Seq<Bits>, t: Seq<Bits>)
    requires
        deterministic(ar),
        exps_are(ar, s, r),
        exps_are(ar, s, t),
    ensures
        r == t,
{
    assert forall|i: int| 0 <= i < s.len() implies r[i] == t[i] by {
        assert(exp_is(ar, s[i], r[i]) && exp_is(ar, s[i], t[i]));
    }
    assert(r =~= t);
}

/// One more outcome has one result.
proof fn lemma_outcome<A: Arithmetic>(ar: &A, acc: Bits, p: Bits, r: Bits, t: Bits)
    requires
        deterministic(ar),
        outcome_added(ar, acc, p, r),
        outcome_added(ar, acc, p, t),
    ensures
        r == t,
{
}

/// An entropy has one result.
proof fn lemma_entropy<A: Arithmetic>(ar: &A, s: Seq<Bits>, r: Bits, t: Bits)
    requires
        deterministic(ar),
        entropy_is(ar, s, r),
        entropy_is(ar, s, t),
    ensures
        r == t,
    decreases s.len(),
{
    if s.len() > 0 {
        let p = choose|p: Bits|
            #![trigger outcome_added(ar, p, s.last(), r)]
            entropy_is(ar, s.drop_last(), p) && outcome_added(ar, p, s.last(), r);
        let q = choose|q: Bits|
            #![trigger outcome_added(ar, q, s.last(), t)]
            entropy_is(ar, s.drop_last(), q) && outcome_added(ar, q, s.last(), t);
        lemma_entropy(ar, s.drop_last(), p, q);
        lemma_outcome(ar, p, s.last(), r, t);
    }
}

/// The entropy of a softmax has one result.
proof fn lemma_softmax_entropy<A: Arithmetic>(
    ar: &A,
    probs: Seq<Bits>,
    shifted: Seq<Bits>,
    log_total: Bits,
    r: Bits,
    t: Bits,
)
    requires
        deterministic(ar),
        softmax_entropy_is(ar, probs, shifted, log_total, r),
        softmax_entropy_is(ar, probs, shifted, log_total, t),
    ensures
        r == t,
    decreases probs.len(),
{
    if probs.len() > 0 {
        let p = choose|p: Bits|
            #![trigger logit_added(ar, p, probs.last(), shifted.last(), log_total, r)]
            softmax_entropy_is(ar, probs.drop_last(), shifted.drop_last(), log_total, p)
                && logit_added(ar, p, probs.last(), shifted.last(), log_total, r);
        let q = choose|q: Bits|
            #![trigger logit_added(ar, q, probs.last(), shifted.last(), log_total, t)]
            softmax_entropy_is(ar, probs.drop_last(), shifted.drop_last(), log_total, q)
                && logit_added(ar, q, probs.last(), shifted.last(), log_total, t);
        lemma_softmax_entropy(ar, probs.drop_last(), shifted.drop_last(), log_total, p, q);
    }
}

/// A softmax has one result.
pub(crate) proof fn lemma_softmax<A: Arithmetic>(ar: &A, logits: Seq<Bits>, w: Softmax, v: Softmax)
    requires
        deterministic(ar),
        softmax_is(ar, logits, w),
        softmax_is(ar, logits, v),
    ensures
        w == v,
{
    assert forall|i: int| 0 <= i < logits.len() implies w.shifted[i] == v.shifted[i] by {
        assert(difference_is(ar, logits[i], largest(logits), w.shifted[i]));
        assert(difference_is(ar, logits[i], largest(logits), v.shifted[i]));
    }
    assert(w.shifted =~= v.shifted);
    lemma_exps(ar, w.shifted, w.weights, v.weights);
    lemma_total(ar, ZERO, w.weights, w.total, v.total);
    assert forall|i: int| 0 <= i < w.weights.len() implies w.probs[i] == v.probs[i] by {
        assert(product_is(ar, w.weights[i], w.inverse, w.probs[i]));
        assert(product_is(ar, w.weights[i], w.inverse, v.probs[i]));
    }
    assert(w.probs =~= v.probs);
    lemma_softmax_entropy(ar, w.probs, w.shifted, w.log_total, w.entropy, v.entropy);
}

/// Logits and the emitted token determine the uncertainty.
pub proof fn law_logits_determine_uncertainty<A: Arithmetic>(
    ar: &A,
    logits: Seq<Bits>,
    chosen: usize,
    u: TokenUncertainty,
    v: TokenUncertainty,
)
    requires
        deterministic(ar),
        from_logits_is(ar, logits, chosen, u),
        from_logits_is(ar, logits, chosen, v),
    ensures
        u == v,
{
    if logits.len() > 0 {
        let w = choose|w: Softmax| #[trigger]
            softmax_is(ar, logits, w) && softmax_gives(ar, w, chosen, u);
        let x = choose|x: Softmax| #[trigger]
            softmax_is(ar, logits, x) && softmax_gives(ar, x, chosen, v);
        lemma_softmax(ar, logits, w, x);
    }
}

/// Which token was emitted changes nothing but its own log-probability, and one
/// past the end of the logits is impossible.
pub proof fn law_emitted_token_changes_only_its_logprob<A: Arithmetic>(
    ar: &A,
    logits: Seq<Bits>,
    chosen: usize,
    other: usize,
    u: TokenUncertainty,
    v: TokenUncertainty,
)
    requires
        deterministic(ar),
        from_logits_is(ar, logits, chosen, u),
        from_logits_is(ar, logits, other, v),
    ensures
        u.entropy == v.entropy,
        u.max_prob == v.max_prob,
        u.margin == v.margin,
        other >= logits.len() ==> v.chosen_logprob == NEGATIVE_INFINITY,
{
    if logits.len() > 0 {
        let w = choose|w: Softmax| #[trigger]
            softmax_is(ar, logits, w) && softmax_gives(ar, w, chosen, u);
        let x = choose|x: Softmax| #[trigger]
            softmax_is(ar, logits, x) && softmax_gives(ar, x, other, v);
        lemma_softmax(ar, logits, w, x);
    }
}

/// A truncated distribution has one result.
proof fn lemma_truncated<A: Arithmetic>(ar: &A, s: Seq<Bits>, w: Truncated, v: Truncated)
    requires
        deterministic(ar),
        truncated_is(ar, s, w),
        truncated_is(ar, s, v),
    ensures
        w == v,
{
    lemma_exps(ar, s, w.weights, v.weights);
    law_sorting_is_determined(w.weights, w.probs, v.probs);
    lemma_total(ar, NEGATIVE_ZERO, w.probs, w.total, v.total);
    lemma_entropy(ar, w.probs, w.observed_entropy, v.observed_entropy);
    assert(w.tail == v.tail);
}

/// The log-probability of the emitted token and the largest ones of its
/// distribution, in any order, determine the uncertainty.
pub proof fn law_top_logprobs_determine_uncertainty<A: Arithmetic>(
    ar: &A,
    chosen_logprob: Bits,
    listed: Seq<Bits>,
    relisted: Seq<Bits>,
    u: TokenUncertainty,
    v: TokenUncertainty,
)
    requires
        deterministic(ar),
        listed.to_multiset() == relisted.to_multiset(),
        from_top_logprobs_is(ar, chosen_logprob, listed, u),
        from_top_logprobs_is(ar, chosen_logprob, relisted, v),
    ensures
        u == v,
{
    law_order_of_top_logprobs_is_irrelevant(ar, chosen_logprob, relisted, listed, v);
    if listed.len() > 0 {
        let w = choose|w: Truncated| #[trigger]
            truncated_is(ar, listed, w) && truncated_gives(ar, w, chosen_logprob, u);
        let x = choose|x: Truncated| #[trigger]
            truncated_is(ar, listed, x) && truncated_gives(ar, x, chosen_logprob, v);
        lemma_truncated(ar, listed, w, x);
    } else {
        assert(from_chosen_alone_is(ar, chosen_logprob, u));
        assert(from_chosen_alone_is(ar, chosen_logprob, v));
    }
}

/// The log-probability of the emitted token comes back as it was given. Where
/// there are others, it changes nothing else.
pub proof fn law_chosen_logprob_changes_nothing_else<A: Arithmetic>(
    ar: &A,
    chosen_logprob: Bits,
    other: Bits,
    top_logprobs: Seq<Bits>,
    u: TokenUncertainty,
    v: TokenUncertainty,
)
    requires
        deterministic(ar),
        from_top_logprobs_is(ar, chosen_logprob, top_logprobs, u),
        from_top_logprobs_is(ar, other, top_logprobs, v),
    ensures
        u.chosen_logprob == chosen_logprob,
        v.chosen_logprob == other,
        top_logprobs.len() > 0 ==> u.entropy == v.entropy && u.max_prob == v.max_prob && u.margin
            == v.margin,
{
    if top_logprobs.len() > 0 {
        let w = choose|w: Truncated| #[trigger]
            truncated_is(ar, top_logprobs, w) && truncated_gives(ar, w, chosen_logprob, u);
        let x = choose|x: Truncated| #[trigger]
            truncated_is(ar, top_logprobs, x) && truncated_gives(ar, x, other, v);
        lemma_truncated(ar, top_logprobs, w, x);
    }
}

/// Two reports say the same.
pub open spec fn same_report(r: Report, s: Report) -> bool {
    &&& r.risk_score == s.risk_score
    &&& r.mean_entropy == s.mean_entropy
    &&& r.risky_fraction == s.risky_fraction
    &&& r.peak_token == s.peak_token
    &&& r.n_tokens == s.n_tokens
    &&& r.flagged == s.flagged
    &&& r.mode@ == s.mode@
    &&& match (r.per_token, s.per_token) {
        (Some(listed), Some(others)) => listed@ == others@,
        (None, None) => true,
        _ => false,
    }
}

/// A mean risk has one result.
proof fn lemma_mean_risk<A: Arithmetic>(ar: &A, tokens: Seq<TokenUncertainty>, r: Bits, t: Bits)
    requires
        deterministic(ar),
        mean_risk_is(ar, tokens, r),
        mean_risk_is(ar, tokens, t),
    ensures
        r == t,
{
    let a = choose|a: Seq<Bits>| #[trigger]
        risks_are(ar, tokens, a) && mean_is(ar, NEGATIVE_ZERO, a, r);
    let b = choose|b: Seq<Bits>| #[trigger]
        risks_are(ar, tokens, b) && mean_is(ar, NEGATIVE_ZERO, b, t);
    assert forall|i: int| 0 <= i < tokens.len() implies a[i] == b[i] by {
        assert(risk_is(ar, tokens[i], a[i]) && risk_is(ar, tokens[i], b[i]));
    }
    assert(a =~= b);
    lemma_mean(ar, NEGATIVE_ZERO, a, r, t);
}

/// What was observed determines the report.
pub proof fn law_observations_determine_report<A: Arithmetic>(
    ar: &A,
    cfg: DetectorConfig,
    tokens: Seq<TokenUncertainty>,
    approx: bool,
    include_per_token: bool,
    r: Report,
    s: Report,
)
    requires
        deterministic(ar),
        report_is(ar, cfg, tokens, approx, include_per_token, r),
        report_is(ar, cfg, tokens, approx, include_per_token, s),
    ensures
        same_report(r, s),
{
    if tokens.len() > 0 {
        lemma_mean_risk(ar, tokens, r.risk_score, s.risk_score);
        lemma_mean(ar, NEGATIVE_ZERO, entropies(tokens), r.mean_entropy, s.mean_entropy);
        let part = risky_count(cfg, tokens) as usize;
        assert(fraction_is(ar, part, r.n_tokens, r.risky_fraction));
        assert(fraction_is(ar, part, r.n_tokens, s.risky_fraction));
        law_peak_is_determined(
            entropies(tokens),
            r.peak_token->0 as int,
            s.peak_token->0 as int,
        );
    }
}

/// No two keys stand before each other.
proof fn lemma_key_order_is_strict(a: Seq<char>, b: Seq<char>)
    requires
        key_before(a, b),
    ensures
        !key_before(b, a),
        a != b,
{
    let i = choose|i: int|
        #![trigger a.take(i), b.take(i)]
        {
            &&& 0 <= i <= a.len()
            &&& i < b.len()
            &&& a.take(i) == b.take(i)
            &&& (i == a.len() || a[i] < b[i])
        };
    if key_before(b, a) {
        let k = choose|k: int|
            #![trigger b.take(k), a.take(k)]
            {
                &&& 0 <= k <= b.len()
                &&& k < a.len()
                &&& b.take(k) == a.take(k)
                &&& (k == b.len() || b[k] < a[k])
            };
        if i < k {
            assert(b.take(k)[i] == a.take(k)[i]);
        } else if k < i {
            assert(b.take(i)[k] == a.take(i)[k]);
        }
    }
}

/// The keys of an object are listed in one way only.
proof fn lemma_key_list(m: Map<Seq<char>, Json>, a: Seq<Seq<char>>, b: Seq<Seq<char>>)
    requires
        lists_keys(m, a),
        lists_keys(m, b),
    ensures
        a == b,
{
    lemma_key_list_prefix(m, a, b, a.len() as int);
    lemma_key_list_prefix(m, b, a, b.len() as int);
    assert(a =~= b);
}

/// The first keys of two lists agree.
proof fn lemma_key_list_prefix(
    m: Map<Seq<char>, Json>,
    a: Seq<Seq<char>>,
    b: Seq<Seq<char>>,
    n: int,
)
    requires
        lists_keys(m, a),
        lists_keys(m, b),
        0 <= n <= a.len(),
    ensures
        n <= b.len(),
        forall|i: int| #![trigger a[i]] 0 <= i < n ==> a[i] == b[i],
    decreases n,
{
    if n > 0 {
        let i = n - 1;
        lemma_key_list_prefix(m, a, b, i);
        assert(a.contains(a[i]));
        assert(m.contains_key(a[i]));
        assert(b.contains(a[i]));
        let j = choose|j: int| 0 <= j < b.len() && b[j] == a[i];
        if j < i {
            assert(a[j] == b[j]);
            assert(key_before(a[j], a[i]));
            lemma_key_order_is_strict(a[j], a[i]);
        } else if i < j {
            assert(key_before(b[i], b[j]));
            assert(b.contains(b[i]));
            assert(m.contains_key(b[i]));
            assert(a.contains(b[i]));
            let k = choose|k: int| 0 <= k < a.len() && a[k] == b[i];
            if k < i {
                assert(a[k] == b[k]);
                assert(key_before(b[k], b[i]));
                lemma_key_order_is_strict(b[k], b[i]);
            } else if i < k {
                assert(key_before(a[i], a[k]));
                lemma_key_order_is_strict(a[i], b[i]);
            } else {
                lemma_key_order_is_strict(b[i], b[j]);
            }
        }
    }
}

/// A response has one list of tokens.
pub proof fn law_response_determines_tokens(
    response: Json,
    a: Seq<(WideBits, Seq<WideBits>)>,
    b: Seq<(WideBits, Seq<WideBits>)>,
)
    requires
        tokens_are(response, a),
        tokens_are(response, b),
    ensures
        a == b,
{
    let logprobs = logprobs_of(first_choice(response)->0)->0;
    if array_under(logprobs, "content"@) is None {
        let array = array_under(logprobs, "top_logprobs"@);
        assert forall|i: int| 0 <= i < a.len() implies a[i] == b[i] by {
            assert(legacy_tops(array, i, a[i].1) && legacy_tops(array, i, b[i].1));
            if array is Some && i < array->0.len() && array->0[i] is Object {
                let m = array->0[i]->Object_0;
                let p = choose|p: Seq<Seq<char>>|
                    #![trigger lists_keys(m, p)]
                    lists_keys(m, p) && a[i].1 == present(
                        p.map_values(|k: Seq<char>| bits_of(m[k])),
                    );
                let q = choose|q: Seq<Seq<char>>|
                    #![trigger lists_keys(m, q)]
                    lists_keys(m, q) && b[i].1 == present(
                        q.map_values(|k: Seq<char>| bits_of(m[k])),
                    );
                lemma_key_list(m, p, q);
            } else {
                assert(a[i].1 =~= b[i].1);
            }
        }
        assert(a =~= b);
    }
}

/// Two lists of tokens hold the same numbers. The largest log-probabilities of
/// a token may stand in another order.
pub open spec fn same_numbers(
    a: Seq<(WideBits, Seq<WideBits>)>,
    b: Seq<(WideBits, Seq<WideBits>)>,
) -> bool {
    a.len() == b.len() && forall|i: int|
        #![trigger a[i]]
        #![trigger b[i]]
        0 <= i < a.len() ==> a[i].0 == b[i].0 && a[i].1.to_multiset() == b[i].1.to_multiset()
}

/// Narrowed numbers that are relisted are the same narrowed numbers relisted.
proof fn lemma_narrows_follow_relisting<A: Arithmetic>(
    ar: &A,
    listed: Seq<WideBits>,
    narrowed: Seq<Bits>,
    relisted: Seq<WideBits>,
    renarrowed: Seq<Bits>,
)
    requires
        deterministic(ar),
        listed.to_multiset() == relisted.to_multiset(),
        narrows_are(ar, listed, narrowed),
        narrows_are(ar, relisted, renarrowed),
    ensures
        narrowed.to_multiset() == renarrowed.to_multiset(),
    decreases relisted.len(),
{
    broadcast use vstd::seq_lib::group_to_multiset_ensures;

    listed.to_multiset_ensures();
    relisted.to_multiset_ensures();
    if relisted.len() == 0 {
        assert(narrowed =~= renarrowed);
    } else {
        let last = relisted.last();
        let n = relisted.len() - 1;
        assert(relisted.to_multiset().contains(relisted[n]));
        assert(listed.contains(last));
        let k = choose|k: int| 0 <= k < listed.len() && listed[k] == last;
        let fewer = relisted.drop_last();
        let renarrowed_fewer = renarrowed.drop_last();
        assert(relisted =~= fewer.push(last));
        assert(renarrowed =~= renarrowed_fewer.push(renarrowed.last()));
        assert(listed.remove(k).to_multiset() =~= fewer.to_multiset());
        lemma_narrows_follow_relisting(
            ar,
            listed.remove(k),
            narrowed.remove(k),
            fewer,
            renarrowed_fewer,
        );
        assert(narrow_is(ar, listed[k], narrowed[k]));
        assert(narrow_is(ar, relisted[n], renarrowed[n]));
        assert(narrowed.to_multiset() =~= renarrowed.to_multiset());
    }
}

/// Responses that give the same numbers get the same report, whatever their
/// shapes.
pub proof fn law_same_numbers_give_same_report<A: Arithmetic>(
    ar: &A,
    response: Json,
    other: Json,
    a: Seq<(WideBits, Seq<WideBits>)>,
    b: Seq<(WideBits, Seq<WideBits>)>,
    per_token: bool,
    r: Report,
    s: Report,
)
    requires
        deterministic(ar),
        tokens_are(response, a),
        tokens_are(other, b),
        same_numbers(a, b),
        assessed(ar, response, per_token, r),
        assessed(ar, other, per_token, s),
    ensures
        same_report(r, s),
{
    let (a_read, us) = choose|a: Seq<(WideBits, Seq<WideBits>)>, us: Seq<TokenUncertainty>| #[trigger]
        tokens_are(response, a) && #[trigger] tokens_observed(ar, a, us) && all_hold_numbers(a)
            && report_is(ar, default_config(), us, true, per_token, r);
    let (b_read, vs) = choose|b: Seq<(WideBits, Seq<WideBits>)>, vs: Seq<TokenUncertainty>| #[trigger]
        tokens_are(other, b) && #[trigger] tokens_observed(ar, b, vs) && all_hold_numbers(b)
            && report_is(ar, default_config(), vs, true, per_token, s);
    law_response_determines_tokens(response, a, a_read);
    law_response_determines_tokens(other, b, b_read);
    assert forall|i: int| 0 <= i < us.len() implies us[i] == vs[i] by {
        assert(token_observed(ar, a[i], us[i]) && token_observed(ar, b[i], vs[i]));
        let (c, ts) = choose|c: Bits, ts: Seq<Bits>| #[trigger]
            narrow_is(ar, a[i].0, c) && #[trigger] narrows_are(ar, a[i].1, ts)
                && from_top_logprobs_is(ar, c, ts, us[i]);
        let (d, ss) = choose|d: Bits, ss: Seq<Bits>| #[trigger]
            narrow_is(ar, b[i].0, d) && #[trigger] narrows_are(ar, b[i].1, ss)
                && from_top_logprobs_is(ar, d, ss, vs[i]);
        lemma_narrows_follow_relisting(ar, a[i].1, ts, b[i].1, ss);
        law_top_logprobs_determine_uncertainty(ar, c, ts, ss, us[i], vs[i]);
    }
    assert(us =~= vs);
    law_observations_determine_report(ar, default_config(), us, true, per_token, r, s);
}

/// Log-probabilities in the chat shape and in the legacy shape give the same
/// numbers: token by token, that of the token itself, and the largest ones of
/// its distribution in any order.
pub open spec fn shapes_agree(chat: Json, legacy: Json) -> bool {
    let content = array_under(chat, "content"@);
    let chosen = array_under(legacy, "token_logprobs"@);
    let tops = array_under(legacy, "top_logprobs"@);
    &&& content is Some
    &&& array_under(legacy, "content"@) is None
    &&& chosen is Some
    &&& content->0.len() == chosen->0.len()
    &&& forall|i: int|
        #![trigger content->0[i]]
        0 <= i < content->0.len() ==> {
            &&& or_impossible(bits_of(chosen->0[i])) == chat_token(content->0[i]).0
            &&& forall|t: Seq<WideBits>| #[trigger]
                legacy_tops(tops, i, t) ==> t.to_multiset() == chat_token(
                    content->0[i],
                ).1.to_multiset()
        }
}

/// A chat answer and a legacy answer that give the same numbers get the same
/// report.
pub proof fn law_both_shapes_give_same_report<A: Arithmetic>(
    ar: &A,
    chat: Json,
    legacy: Json,
    per_token: bool,
    r: Report,
    s: Report,
)
    requires
        deterministic(ar),
        shapes_agree(
            logprobs_of(first_choice(chat)->0)->0,
            logprobs_of(first_choice(legacy)->0)->0,
        ),
        assessed(ar, chat, per_token, r),
        assessed(ar, legacy, per_token, s),
    ensures
        same_report(r, s),
{
    let (a, us) = choose|a: Seq<(WideBits, Seq<WideBits>)>, us: Seq<TokenUncertainty>| #[trigger]
        tokens_are(chat, a) && #[trigger] tokens_observed(ar, a, us) && all_hold_numbers(a)
            && report_is(ar, default_config(), us, true, per_token, r);
    let (b, vs) = choose|b: Seq<(WideBits, Seq<WideBits>)>, vs: Seq<TokenUncertainty>| #[trigger]
        tokens_are(legacy, b) && #[trigger] tokens_observed(ar, b, vs) && all_hold_numbers(b)
            && report_is(ar, default_config(), vs, true, per_token, s);
    let content = array_under(logprobs_of(first_choice(chat)->0)->0, "content"@)->0;
    let tops = array_under(logprobs_of(first_choice(legacy)->0)->0, "top_logprobs"@);
    assert(same_numbers(a, b)) by {
        assert forall|i: int|
            #![trigger a[i]]
            #![trigger b[i]]
            0 <= i < a.len() implies a[i].0 == b[i].0 && a[i].1.to_multiset()
            == b[i].1.to_multiset() by {
            assert(a[i] == chat_token(content[i]));
            assert(legacy_tops(tops, i, b[i].1));
        }
    }
    law_same_numbers_give_same_report(ar, chat, legacy, a, b, per_token, r, s);
}

/// A response determines the report on it.
pub proof fn law_response_determines_report<A: Arithmetic>(
    ar: &A,
    response: Json,
    per_token: bool,
    r: Report,
    s: Report,
)
    requires
        deterministic(ar),
        assessed(ar, response, per_token, r),
        assessed(ar, response, per_token, s),
    ensures
        same_report(r, s),
{
    let (a, us) = choose|a: Seq<(WideBits, Seq<WideBits>)>, us: Seq<TokenUncertainty>| #[trigger]
        tokens_are(response, a) && #[trigger] tokens_observed(ar, a, us) && all_hold_numbers(a)
            && report_is(ar, default_config(), us, true, per_token, r);
    law_same_numbers_give_same_report(ar, response, response, a, a, per_token, r, s);
}

/// Each number is written in one way.
pub open spec fn one_numeral<N: Numerals>(nu: &N) -> bool {
    forall|a: Bits, v: Value, w: Value| #[trigger]
        call_ensures(N::numeral, (nu, a), v) && #[trigger] call_ensures(N::numeral, (nu, a), w)
            ==> json_of(v) == json_of(w)
}

/// A number has one JSON value.
proof fn lemma_numeral<N: Numerals>(nu: &N, a: Bits, j: Json, k: Json)
    requires
        one_numeral(nu),
        numeral_is(nu, a, j),
        numeral_is(nu, a, k),
    ensures
        j == k,
{
}

/// A token has one JSON value.
proof fn lemma_token_encoding<N: Numerals>(nu: &N, u: TokenUncertainty, j: Json, k: Json)
    requires
        one_numeral(nu),
        token_encoded(nu, u, j),
        token_encoded(nu, u, k),
    ensures
        j == k,
{
    lemma_numeral(nu, u.entropy, j->Object_0["entropy"@], k->Object_0["entropy"@]);
    lemma_numeral(nu, u.max_prob, j->Object_0["max_prob"@], k->Object_0["max_prob"@]);
    lemma_numeral(nu, u.margin, j->Object_0["margin"@], k->Object_0["margin"@]);
    lemma_numeral(
        nu,
        u.chosen_logprob,
        j->Object_0["chosen_logprob"@],
        k->Object_0["chosen_logprob"@],
    );
    assert(j->Object_0 =~= k->Object_0);
}

/// Reports that say the same are written in one way.
pub proof fn law_report_has_one_encoding<N: Numerals>(
    nu: &N,
    r: Report,
    s: Report,
    j: Json,
    k: Json,
)
    requires
        one_numeral(nu),
        same_report(r, s),
        report_encoded(nu, r, j),
        report_encoded(nu, s, k),
    ensures
        j == k,
{
    let m = j->Object_0;
    let n = k->Object_0;
    lemma_numeral(nu, r.risk_score, m["risk_score"@], n["risk_score"@]);
    lemma_numeral(nu, r.mean_entropy, m["mean_entropy"@], n["mean_entropy"@]);
    lemma_numeral(nu, r.risky_fraction, m["risky_fraction"@], n["risky_fraction"@]);
    if let Some(us) = r.per_token {
        let a = m["per_token"@];
        let b = n["per_token"@];
        assert forall|i: int| 0 <= i < us@.len() implies a->Array_0[i] == b->Array_0[i] by {
            lemma_token_encoding(nu, us@[i], a->Array_0[i], b->Array_0[i]);
        }
        assert(a->Array_0 =~= b->Array_0);
    }
    assert(m =~= n);
}

/// Answers whose first choices have the same log-probabilities get the same
/// analysis.
pub proof fn law_first_choice_determines_analysis<A: Arithmetic + Numerals>(
    ar: &A,
    response: Json,
    other: Json,
    per_token: bool,
    j: Json,
    k: Json,
)
    requires
        deterministic(ar),
        one_numeral(ar),
        first_choice(response) is Some,
        first_choice(other) is Some,
        field(first_choice(response)->0, "logprobs"@) == field(
            first_choice(other)->0,
            "logprobs"@,
        ),
        analyzed(ar, response, per_token, j),
        analyzed(ar, other, per_token, k),
    ensures
        j == k,
{
    let r = choose|r: Report| #[trigger]
        assessed(ar, response, per_token, r) && report_encoded(ar, r, j);
    let s = choose|s: Report| #[trigger]
        assessed(ar, other, per_token, s) && report_encoded(ar, s, k);
    law_only_first_choice_matters(ar, response, other, per_token, s);
    law_response_determines_report(ar, response, per_token, r, s);
    law_report_has_one_encoding(ar, r, s, j, k);
}

/// A chat answer and a legacy answer that give the same numbers get the same
/// analysis.
pub proof fn law_both_shapes_give_same_analysis<A: Arithmetic + Numerals>(
    ar: &A,
    chat: Json,
    legacy: Json,
    per_token: bool,
    j: Json,
    k: Json,
)
    requires
        deterministic(ar),
        one_numeral(ar),
        shapes_agree(
            logprobs_of(first_choice(chat)->0)->0,
            logprobs_of(first_choice(legacy)->0)->0,
        ),
        analyzed(ar, chat, per_token, j),
        analyzed(ar, legacy, per_token, k),
    ensures
        j == k,
{
    let r = choose|r: Report| #[trigger]
        assessed(ar, chat, per_token, r) && report_encoded(ar, r, j);
    let s = choose|s: Report| #[trigger]
        assessed(ar, legacy, per_token, s) && report_encoded(ar, s, k);
    law_both_shapes_give_same_report(ar, chat, legacy, per_token, r, s);
    law_report_has_one_encoding(ar, r, s, j, k);
}

/// The same answer from upstream gives the same reply to the client.
pub proof fn law_equal_answers_give_equal_replies<A: Arithmetic + Numerals>(
    ar: &A,
    status: u16,
    answer: Json,
    per_token: bool,
    p: Reply,
    q: Reply,
)
    requires
        deterministic(ar),
        one_numeral(ar),
        concluded(ar, status, answer, per_token, p),
        concluded(ar, status, answer, per_token, q),
    ensures
        p.status == q.status,
        json_of(p.body) == json_of(q.body),
{
    if successful(status) && shortcoming(answer) is None {
        let j = choose|j: Json| #[trigger]
            analyzed(ar, answer, per_token, j) && json_of(p.body) == with(
                answer,
                "hallucination"@,
                j,
            );
        let k = choose|k: Json| #[trigger]
            analyzed(ar, answer, per_token, k) && json_of(q.body) == with(
                answer,
                "hallucination"@,
                k,
            );
        let r = choose|r: Report| #[trigger]
            assessed(ar, answer, per_token, r) && report_encoded(ar, r, j);
        let s = choose|s: Report| #[trigger]
            assessed(ar, answer, per_token, s) && report_encoded(ar, s, k);
        law_response_determines_report(ar, answer, per_token, r, s);
        law_report_has_one_encoding(ar, r, s, j, k);
    }
}

} // verus!
