//! The figures of a report: with arithmetic that comes close to exact
//! arithmetic, they come close to the exact means and the exact fraction.

use crate::accuracy::{accurate, close, moderate, num, size, Precision};
use crate::arithmetic::{
    count_is, difference_is, mean_is, quotient_is, sum_is, total_is, Arithmetic,
};
use crate::bounds::{lemma_total_spreads_nan, normalizes_faithfully, spreads_nan};
use crate::detector::{
    default_config, entropies, law_risky_fraction_counts_both_bars, mean_risk_is, report_is,
    risks_are, DetectorConfig, Report,
};
use crate::float::{
    at_most, below, in_unit, is_finite, is_nan, rank, Bits, NEGATIVE_ZERO, ONE, ZERO,
};
use crate::folding::within;
use crate::modes::{lemma_order, lemma_unit_number, numbers};
use crate::shift::scale;
use crate::sums::{
    inverse, lemma_inverse, lemma_sum_equal, lemma_sum_of_nothing, lemma_sum_of_parts,
    lemma_sum_shifted, lemma_times_multiple, lemma_times_order, lemma_times_positive,
    lemma_times_regroup, lemma_times_sign, lemma_times_sum, sum_of, times,
};
use crate::uncertainty::{risk_is, TokenUncertainty};
use vstd::arithmetic::power2::{lemma2_to64, lemma_pow2_adds, lemma_pow2_pos, pow2};
use vstd::prelude::*;

verus! {

/// Counts and quotients come close to the exact ones, for the numbers for which
/// a report needs them.
pub open spec fn averages_closely<A: Arithmetic>(ar: &A, pr: Precision) -> bool {
    &&& forall|n: usize, c: Bits| #[trigger]
        count_is(ar, n, c) ==> close(pr, c, n as real) && at_most(ZERO, c) && (n > 0 ==> at_most(
            ONE,
            c,
        ))
    &&& forall|a: Bits, b: Bits, r: Bits| #[trigger]
        quotient_is(ar, a, b, r) && at_most(ZERO, a) && at_most(ONE, b) && moderate(pr, a)
            && moderate(pr, b) ==> close(pr, r, times(num(a), inverse(num(b))))
}

/// The error of one step with numbers up to `top`.
pub open spec fn slip(pr: Precision, top: real) -> real {
    times(pr.unit, top + pr.unit)
}

/// The precision is fine enough for `n` numbers that add up to half of `top`.
pub open spec fn fine_for(pr: Precision, n: nat, top: real) -> bool {
    &&& n >= 1
    &&& pr.unit > 0real
    &&& 4real * pr.unit <= 1real
    &&& 4real * n as real <= top <= pr.wide
    &&& 2real * times(n as real, slip(pr, top)) <= top
}

/// How far `n` times a mean is, at most, from the exact sum.
pub open spec fn mean_error(pr: Precision, n: nat, top: real) -> real {
    8real * times(n as real, slip(pr, top))
}

/// A sum of numbers that are not negative is near the exact sum.
proof fn lemma_sum_near<A: Arithmetic>(
    ar: &A,
    pr: Precision,
    n: nat,
    top: real,
    start: Bits,
    s: Seq<Bits>,
    r: Bits,
)
    requires
        accurate(ar, pr),
        normalizes_faithfully(ar),
        fine_for(pr, n, top),
        s.len() <= n,
        forall|i: int| #![trigger s[i]] 0 <= i < s.len() ==> at_most(ZERO, s[i]) && is_finite(s[i]),
        2real * sum_of(s.len(), numbers(s)) <= top,
        rank(start) == 0,
        total_is(ar, start, s, r),
    ensures
        is_finite(r),
        at_most(ZERO, r),
        within(num(r), sum_of(s.len(), numbers(s)), times(s.len() as real, slip(pr, top))),
    decreases s.len(),
{
    let c = slip(pr, top);
    let u = pr.unit;
    lemma_order(start, ZERO);
    lemma_order(ZERO, start);
    lemma_times_sign(0real, c);
    lemma_times_order(0real, top + u, u);
    lemma_times_sign(u, 0real);
    if s.len() > 0 {
        let k = s.len() as real;
        let rest = s.drop_last();
        let last = s.last();
        let p = choose|p: Bits|
            #![trigger sum_is(ar, p, s.last(), r)]
            total_is(ar, start, rest, p) && sum_is(ar, p, s.last(), r);
        assert(forall|i: int| 0 <= i < rest.len() ==> #[trigger] rest[i] == s[i]);
        assert(s[s.len() - 1] == last);
        lemma_order(ZERO, last);
        lemma_sum_equal(rest.len(), numbers(rest), numbers(s));
        assert forall|i: int| #![trigger numbers(rest)(i)] 0 <= i < rest.len() implies 0real
            <= numbers(rest)(i) by {
            assert(rest[i] == s[i]);
            lemma_order(ZERO, s[i]);
        }
        lemma_sum_of_parts(rest.len(), numbers(rest));
        lemma_sum_near(ar, pr, n, top, start, rest, p);
        assert(rest.len() as real == k - 1real);
        lemma_times_order(k - 1real, n as real, c);
        lemma_order(ZERO, p);
        let x = num(p) + num(last);
        assert(moderate(pr, p) && moderate(pr, last));
        assert(close(pr, r, x));
        lemma_times_order(x + u, top + u, u);
        lemma_times_sum(k - 1real, 1real, c);
        lemma_times_sign(1real, c);
        assert(k - 1real + 1real == k);
    }
}

/// A quotient by a count, times the count, is near the dividend.
proof fn lemma_quotient_by_count<A: Arithmetic>(
    ar: &A,
    pr: Precision,
    n: nat,
    top: real,
    a: Bits,
    c: Bits,
    r: Bits,
)
    requires
        averages_closely(ar, pr),
        fine_for(pr, n, top),
        n <= usize::MAX,
        is_finite(a),
        at_most(ZERO, a),
        num(a) <= top,
        count_is(ar, n as usize, c),
        quotient_is(ar, a, c, r),
    ensures
        is_finite(r),
        within(times(n as real, num(r)), num(a), 7real * times(n as real, slip(pr, top))),
{
    let u = pr.unit;
    let k = n as real;
    let d = num(c);
    let v = num(a);
    lemma_order(ZERO, a);
    lemma_order(ONE, c);
    assert(close(pr, c, (n as usize) as real));
    assert((n as usize) as real == k);
    lemma_times_order(k + u, 2real * k, u);
    lemma_times_multiple(2real, u, k);
    lemma_times_order(4real * u, 1real, k);
    lemma_times_multiple(4real, u, k);
    lemma_times_sign(1real, k);
    // The count is within half of itself, so the quotients are of one size.
    assert(within(d, k, 2real * times(u, k)));
    assert(moderate(pr, a) && moderate(pr, c));
    let inv = inverse(d);
    let x = times(v, inv);
    lemma_inverse(d);
    lemma_times_regroup(d, v, inv);
    lemma_times_sign(d, inv);
    lemma_times_sign(v, 1real);
    assert(times(d, x) == v);
    lemma_times_order(0real, v, inv);
    lemma_times_sign(0real, inv);
    lemma_times_sign(inv, v);
    assert(x >= 0real);
    assert(close(pr, r, x));
    // The count against the number that stands for it.
    lemma_times_sum(k, d, x);
    lemma_times_order(k - d, 2real * times(u, k), x);
    lemma_times_order(d - k, 2real * times(u, k), x);
    lemma_times_sum(d, k, x);
    lemma_times_multiple(2real, times(u, k), x);
    lemma_times_sign(times(u, k), x);
    lemma_times_regroup(x, u, k);
    lemma_times_regroup(u, k, x);
    lemma_times_sign(x, times(u, k));
    lemma_times_order(k, 2real * d, x);
    lemma_times_multiple(2real, d, x);
    lemma_times_sign(x, d);
    lemma_times_sign(x, k);
    lemma_times_order(times(k, x), 2real * v, u);
    lemma_times_multiple(2real, u, v);
    lemma_times_order(v, top, u);
    // The error of the quotient itself.
    lemma_times_order(num(r) - x, times(u, x + u), k);
    lemma_times_order(x - num(r), times(u, x + u), k);
    lemma_times_sum(num(r), x, k);
    lemma_times_sum(x, num(r), k);
    lemma_times_regroup(k, u, x + u);
    lemma_times_regroup(u, k, x + u);
    lemma_times_sign(k, u);
    lemma_times_sum(x, u, k);
    lemma_times_sum(times(k, x), times(k, u), u);
    // All of it against a step.
    lemma_times_sum(top, u, u);
    lemma_times_order(0real, top, u);
    lemma_times_sign(u, 0real);
    lemma_times_positive(u, u);
    lemma_times_order(1real, k, slip(pr, top));
    lemma_times_sign(1real, slip(pr, top));
    lemma_times_regroup(k, u, u);
    lemma_times_order(times(u, u), slip(pr, top), k);
}

/// A mean of numbers that are not negative, times their count, is near their
/// exact sum.
pub proof fn law_mean_is_exact<A: Arithmetic>(
    ar: &A,
    pr: Precision,
    top: real,
    s: Seq<Bits>,
    r: Bits,
)
    requires
        accurate(ar, pr),
        normalizes_faithfully(ar),
        averages_closely(ar, pr),
        fine_for(pr, s.len(), top),
        s.len() <= usize::MAX,
        forall|i: int| #![trigger s[i]] 0 <= i < s.len() ==> at_most(ZERO, s[i]) && is_finite(s[i]),
        2real * sum_of(s.len(), numbers(s)) <= top,
        mean_is(ar, NEGATIVE_ZERO, s, r),
    ensures
        is_finite(r),
        within(
            times(s.len() as real, num(r)),
            sum_of(s.len(), numbers(s)),
            mean_error(pr, s.len(), top),
        ),
{
    let n = s.len();
    let (total, c) = choose|total: Bits, c: Bits|
        #![trigger total_is(ar, NEGATIVE_ZERO, s, total), count_is(ar, s.len() as usize, c)]
        total_is(ar, NEGATIVE_ZERO, s, total) && count_is(ar, s.len() as usize, c) && quotient_is(
            ar,
            total,
            c,
            r,
        );
    lemma_sum_near(ar, pr, n, top, NEGATIVE_ZERO, s, total);
    lemma_quotient_by_count(ar, pr, n, top, total, c, r);
}

/// A risk is near what the largest probability leaves of one.
proof fn lemma_risk_near<A: Arithmetic>(
    ar: &A,
    pr: Precision,
    n: nat,
    top: real,
    u: TokenUncertainty,
    r: Bits,
)
    requires
        accurate(ar, pr),
        fine_for(pr, n, top),
        at_most(ZERO, u.max_prob),
        at_most(u.max_prob, ONE),
        risk_is(ar, u, r),
    ensures
        is_finite(r),
        at_most(ZERO, r),
        at_most(r, ONE),
        within(num(r), 1real - num(u.max_prob), slip(pr, top)),
{
    let rest = choose|rest: Bits| #[trigger]
        difference_is(ar, ONE, u.max_prob, rest) && r == in_unit(rest);
    let x = 1real - num(u.max_prob);
    lemma_unit_number(u.max_prob);
    lemma_order(ONE, ONE);
    assert(moderate(pr, ONE) && moderate(pr, u.max_prob));
    assert(close(pr, rest, x));
    lemma_times_order(x + pr.unit, top + pr.unit, pr.unit);
    lemma_order(rest, ZERO);
    lemma_order(ZERO, rest);
    lemma_order(rest, ONE);
    lemma_order(ONE, rest);
    lemma_order(ZERO, ZERO);
}

/// With accurate arithmetic, the figures of a report are near the exact ones: the
/// mean of what the largest probabilities leave of one, the mean of the
/// entropies, and the fraction of the tokens that reach past a bar.
#[verifier::rlimit(40)]
pub proof fn law_report_figures_are_exact<A: Arithmetic>(
    ar: &A,
    pr: Precision,
    top: real,
    cfg: DetectorConfig,
    tokens: Seq<TokenUncertainty>,
    approx: bool,
    include_per_token: bool,
    r: Report,
    counted: Set<int>,
)
    requires
        accurate(ar, pr),
        normalizes_faithfully(ar),
        averages_closely(ar, pr),
        fine_for(pr, tokens.len(), top),
        forall|i: int|
            #![trigger tokens[i]]
            0 <= i < tokens.len() ==> at_most(ZERO, tokens[i].entropy) && is_finite(
                tokens[i].entropy,
            ) && at_most(ZERO, tokens[i].max_prob) && at_most(tokens[i].max_prob, ONE),
        2real * sum_of(tokens.len(), |i: int| num(tokens[i].entropy)) <= top,
        forall|i: int| #[trigger]
            counted.contains(i) <==> 0 <= i < tokens.len() && (below(
                cfg.entropy_threshold,
                tokens[i].entropy,
            ) || below(tokens[i].max_prob, cfg.max_prob_threshold)),
        report_is(ar, cfg, tokens, approx, include_per_token, r),
    ensures
        within(
            times(tokens.len() as real, num(r.mean_entropy)),
            sum_of(tokens.len(), |i: int| num(tokens[i].entropy)),
            mean_error(pr, tokens.len(), top),
        ),
        within(
            times(tokens.len() as real, num(r.risk_score)),
            sum_of(tokens.len(), |i: int| 1real - num(tokens[i].max_prob)),
            2real * mean_error(pr, tokens.len(), top),
        ),
        within(
            times(tokens.len() as real, num(r.risky_fraction)),
            counted.len() as real,
            mean_error(pr, tokens.len(), top),
        ),
{
    let n = tokens.len();
    let spread = |i: int| num(tokens[i].entropy);
    let s = entropies(tokens);
    assert forall|i: int| #![trigger s[i]] 0 <= i < s.len() implies at_most(ZERO, s[i])
        && is_finite(s[i]) by {
        assert(s[i] == tokens[i].entropy);
    }
    lemma_sum_equal(n, numbers(s), spread);
    law_mean_is_exact(ar, pr, top, s, r.mean_entropy);
    lemma_risk_score_near(ar, pr, top, tokens, r.risk_score);
    law_risky_fraction_counts_both_bars(ar, cfg, tokens, approx, include_per_token, r, counted);
    let (part, whole) = choose|part: Bits, whole: Bits|
        {
            &&& #[trigger] count_is(ar, counted.len() as usize, part)
            &&& #[trigger] count_is(ar, tokens.len() as usize, whole)
            &&& quotient_is(ar, part, whole, r.risky_fraction)
        };
    let k = counted.len() as real;
    assert(close(pr, part, (counted.len() as usize) as real));
    assert((counted.len() as usize) as real == k);
    lemma_times_order(k + pr.unit, top + pr.unit, pr.unit);
    lemma_times_order(1real, n as real, slip(pr, top));
    lemma_times_order(0real, top + pr.unit, pr.unit);
    lemma_times_sign(pr.unit, 0real);
    lemma_times_sign(1real, slip(pr, top));
    lemma_quotient_by_count(ar, pr, n, top, part, whole, r.risky_fraction);
}

/// A mean risk is near the exact one.
proof fn lemma_risk_score_near<A: Arithmetic>(
    ar: &A,
    pr: Precision,
    top: real,
    tokens: Seq<TokenUncertainty>,
    r: Bits,
)
    requires
        accurate(ar, pr),
        normalizes_faithfully(ar),
        averages_closely(ar, pr),
        fine_for(pr, tokens.len(), top),
        tokens.len() <= usize::MAX,
        forall|i: int|
            #![trigger tokens[i]]
            0 <= i < tokens.len() ==> at_most(ZERO, tokens[i].max_prob) && at_most(
                tokens[i].max_prob,
                ONE,
            ),
        mean_risk_is(ar, tokens, r),
    ensures
        within(
            times(tokens.len() as real, num(r)),
            sum_of(tokens.len(), |i: int| 1real - num(tokens[i].max_prob)),
            2real * mean_error(pr, tokens.len(), top),
        ),
{
    let n = tokens.len();
    let c = slip(pr, top);
    let risks = choose|risks: Seq<Bits>| #[trigger]
        risks_are(ar, tokens, risks) && mean_is(ar, NEGATIVE_ZERO, risks, r);
    let left = |i: int| 1real - num(tokens[i].max_prob);
    let q = numbers(risks);
    let none = |i: int| 0real;
    assert forall|i: int| #![trigger risks[i]] 0 <= i < n implies at_most(ZERO, risks[i])
        && is_finite(risks[i]) && num(risks[i]) <= 1real && within(num(risks[i]), left(i), c) by {
        assert(at_most(ZERO, tokens[i].max_prob));
        lemma_risk_near(ar, pr, n, top, tokens[i], risks[i]);
        lemma_unit_number(risks[i]);
    }
    assert forall|i: int| #![trigger q(i)] #![trigger left(i)] 0 <= i < n implies q(i) <= left(i)
        + c && left(i) <= q(i) + c && q(i) <= none(i) + 1real by {
        assert(at_most(ZERO, risks[i]));
    }
    lemma_sum_shifted(n, q, left, c);
    lemma_sum_shifted(n, left, q, c);
    lemma_sum_shifted(n, q, none, 1real);
    lemma_sum_of_nothing(n, none);
    lemma_times_sign(n as real, 1real);
    law_mean_is_exact(ar, pr, top, risks, r);
    lemma_times_order(0real, top + pr.unit, pr.unit);
    lemma_times_sign(pr.unit, 0real);
    lemma_times_order(0real, c, n as real);
    lemma_times_sign(n as real, 0real);
}

/// What is not a number leaves none in a quotient, and leaves nothing of one.
pub open spec fn spreads_nan_to_means<A: Arithmetic>(ar: &A) -> bool {
    &&& spreads_nan(ar)
    &&& forall|a: Bits, b: Bits, r: Bits| #[trigger]
        quotient_is(ar, a, b, r) && is_nan(a) ==> is_nan(r)
    &&& forall|a: Bits, r: Bits| #[trigger] difference_is(ar, ONE, a, r) && is_nan(a) ==> is_nan(r)
}

/// A mean with a part that is not a number is none.
proof fn lemma_mean_spreads_nan<A: Arithmetic>(ar: &A, s: Seq<Bits>, r: Bits, k: int)
    requires
        spreads_nan_to_means(ar),
        0 <= k < s.len(),
        is_nan(s[k]),
        mean_is(ar, NEGATIVE_ZERO, s, r),
    ensures
        is_nan(r),
{
    let (total, c) = choose|total: Bits, c: Bits|
        #![trigger total_is(ar, NEGATIVE_ZERO, s, total), count_is(ar, s.len() as usize, c)]
        total_is(ar, NEGATIVE_ZERO, s, total) && count_is(ar, s.len() as usize, c) && quotient_is(
            ar,
            total,
            c,
            r,
        );
    lemma_total_spreads_nan(ar, NEGATIVE_ZERO, s, total, k);
}

/// A token without an entropy leaves the mean entropy without a number, and one
/// without a largest probability the risk score: such tokens are not passed
/// over.
pub proof fn law_no_token_is_passed_over<A: Arithmetic>(
    ar: &A,
    cfg: DetectorConfig,
    tokens: Seq<TokenUncertainty>,
    approx: bool,
    include_per_token: bool,
    r: Report,
    k: int,
)
    requires
        spreads_nan_to_means(ar),
        0 <= k < tokens.len(),
        report_is(ar, cfg, tokens, approx, include_per_token, r),
    ensures
        is_nan(tokens[k].entropy) ==> is_nan(r.mean_entropy),
        is_nan(tokens[k].max_prob) ==> is_nan(r.risk_score) && !r.flagged,
{
    if is_nan(tokens[k].entropy) {
        assert(entropies(tokens)[k] == tokens[k].entropy);
        lemma_mean_spreads_nan(ar, entropies(tokens), r.mean_entropy, k);
    }
    if is_nan(tokens[k].max_prob) {
        let risks = choose|risks: Seq<Bits>| #[trigger]
            risks_are(ar, tokens, risks) && mean_is(ar, NEGATIVE_ZERO, risks, r.risk_score);
        assert(risk_is(ar, tokens[k], risks[k]));
        lemma_mean_spreads_nan(ar, risks, r.risk_score, k);
    }
}

/// The usual bars are two nats, two fifths, rounded, and one half.
pub proof fn law_usual_bars_are_numbers()
    ensures
        num(default_config().entropy_threshold) == 2real,
        2real <= 5real * num(default_config().max_prob_threshold) <= 2real + 1real / 10000000real,
        num(default_config().risk_flag_threshold) == 1real / 2real,
{
    reveal(num);
    lemma2_to64();
    lemma_pow2_pos(124);
    lemma_pow2_adds(23, 127);
    lemma_pow2_adds(23, 125);
    lemma_pow2_adds(25, 124);
    lemma_pow2_adds(1, 149);
    lemma_pow2_adds(1, 148);
    let d = pow2(149) as real;
    let h = pow2(148) as real;
    let q = pow2(124) as real;
    assert(scale(0x4000_0000) == 0x80_0000 * pow2(127));
    assert(scale(0x3f00_0000) == 0x80_0000 * pow2(125));
    assert(scale(0x3ecc_cccd) == 13421773 * pow2(124));
    assert(pow2(25) == 33554432);
    assert(d == 2real * h && d == 33554432real * q && h > 0real && q > 0real);
    assert((2real * d) / d == 2real) by (nonlinear_arith)
        requires
            d > 0real,
    ;
    assert(h / d == 1real / 2real) by (nonlinear_arith)
        requires
            d == 2real * h,
            h > 0real,
    ;
    let x = (13421773real * q) / d;
    assert(x == 13421773real / 33554432real) by (nonlinear_arith)
        requires
            x == (13421773real * q) / d,
            d == 33554432real * q,
            q > 0real,
    ;
}

} // verus!
