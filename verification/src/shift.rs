//! A softmax does not see a common shift of its logits.

use crate::arithmetic::{difference_is, exp_is, product_is, Arithmetic};
use crate::determined::{deterministic, lemma_total};
use crate::float::{
    is_finite, is_nan, larger, largest, law_largest_bounds_all, magnitude, rank, Bits,
    NEGATIVE_ZERO, ZERO,
};
use crate::uncertainty::{
    from_logits_is, logit_added, softmax_entropy_is, softmax_gives, softmax_is, Softmax,
    TokenUncertainty,
};
use vstd::arithmetic::power2::{lemma2_to64, lemma_pow2_pos, lemma_pow2_unfold, pow2};
use vstd::prelude::*;

verus! {

/// How many of the smallest positive numbers make up the number with this
/// magnitude.
pub open spec fn scale(m: nat) -> nat {
    if m < 0x80_0000 {
        m
    } else {
        (0x80_0000 + m % 0x80_0000) * pow2((m / 0x80_0000 - 1) as nat)
    }
}

/// The number that a finite encoding stands for, exactly, in units of the
/// smallest positive number.
pub open spec fn value(a: Bits) -> int {
    if a < NEGATIVE_ZERO {
        scale(magnitude(a) as nat) as int
    } else {
        -(scale(magnitude(a) as nat) as int)
    }
}

/// Two encodings stand for the same number, or for none.
pub open spec fn alike(a: Bits, b: Bits) -> bool {
    if is_nan(a) {
        is_nan(b)
    } else {
        !is_nan(b) && rank(a) == rank(b)
    }
}

/// The operations go by the numbers that are meant, as exact operations do that
/// are rounded afterwards.
pub open spec fn regards_values<A: Arithmetic>(ar: &A) -> bool {
    // Where the exact differences of finite numbers agree, so do the rounded ones.
    &&& forall|a: Bits, b: Bits, c: Bits, d: Bits, r: Bits, s: Bits| #[trigger]
        difference_is(ar, a, b, r) && #[trigger] difference_is(ar, c, d, s) && is_finite(a)
            && is_finite(b) && is_finite(c) && is_finite(d) && value(a) - value(b) == value(c)
            - value(d) ==> alike(r, s) && !is_nan(r)
    // The same number gives the same difference, product and power.
    &&& forall|a: Bits, b: Bits, c: Bits, d: Bits, r: Bits, s: Bits| #[trigger]
        difference_is(ar, a, b, r) && #[trigger] difference_is(ar, c, d, s) && alike(a, c) && alike(
            b,
            d,
        ) ==> alike(r, s)
    &&& forall|a: Bits, b: Bits, c: Bits, r: Bits, s: Bits| #[trigger]
        product_is(ar, a, b, r) && #[trigger] product_is(ar, a, c, s) && alike(b, c) ==> alike(r, s)
    &&& forall|a: Bits, b: Bits, r: Bits, s: Bits| #[trigger]
        exp_is(ar, a, r) && #[trigger] exp_is(ar, b, s) && alike(a, b) && !is_nan(a) ==> r == s
}

/// The next magnitude stands for a larger number.
proof fn lemma_scale_grows_by_one(m: nat)
    ensures
        scale(m) < scale(m + 1),
{
    if m + 1 < 0x80_0000 {
    } else if m + 1 == 0x80_0000 {
        lemma2_to64();
        assert(scale(m + 1) == 0x80_0000 * pow2(0));
    } else {
        let e = m / 0x80_0000;
        let f = m % 0x80_0000;
        let unit = pow2((e - 1) as nat);
        lemma_pow2_pos((e - 1) as nat);
        assert(scale(m) == (0x80_0000 + f) * unit);
        if f + 1 < 0x80_0000 {
            assert((m + 1) / 0x80_0000 == e && (m + 1) % 0x80_0000 == f + 1);
            assert(scale(m + 1) == (0x80_0000 + f + 1) * unit);
            assert((0x80_0000 + f) * unit < (0x80_0000 + f + 1) * unit) by (nonlinear_arith)
                requires
                    unit > 0,
            ;
        } else {
            assert((m + 1) / 0x80_0000 == e + 1 && (m + 1) % 0x80_0000 == 0);
            lemma_pow2_unfold(e);
            assert(pow2(e) == 2 * unit);
            assert(scale(m + 1) == 0x80_0000 * (2 * unit));
            assert((0x80_0000 + f) * unit < 0x80_0000 * (2 * unit)) by (nonlinear_arith)
                requires
                    unit > 0,
                    f + 1 == 0x80_0000,
            ;
        }
    }
}

/// A larger magnitude stands for a larger number.
proof fn lemma_scale_grows(m: nat, n: nat)
    requires
        m < n,
    ensures
        scale(m) < scale(n),
    decreases n,
{
    lemma_scale_grows_by_one((n - 1) as nat);
    if m < n - 1 {
        lemma_scale_grows(m, (n - 1) as nat);
    }
}

/// The order of encodings is the order of the numbers that they stand for.
pub proof fn law_rank_orders_values(a: Bits, b: Bits)
    ensures
        rank(a) <= rank(b) <==> value(a) <= value(b),
{
    let m = magnitude(a) as nat;
    let n = magnitude(b) as nat;
    if m > 0 {
        lemma_scale_grows(0, m);
    }
    if n > 0 {
        lemma_scale_grows(0, n);
    }
    if m < n {
        lemma_scale_grows(m, n);
    } else if n < m {
        lemma_scale_grows(n, m);
    }
}

/// `moved` are the logits, each with exactly `c` added to it.
pub open spec fn moved_by(logits: Seq<Bits>, c: Bits, moved: Seq<Bits>) -> bool {
    &&& moved.len() == logits.len()
    &&& is_finite(c)
    &&& forall|i: int|
        #![trigger logits[i]]
        #![trigger moved[i]]
        0 <= i < logits.len() ==> is_finite(logits[i]) && is_finite(moved[i]) && value(moved[i])
            == value(logits[i]) + value(c)
}

/// The largest of some finite numbers is one of them.
pub(crate) proof fn lemma_largest_of_finite(s: Seq<Bits>) -> (k: int)
    requires
        s.len() > 0,
        forall|i: int| #![trigger s[i]] 0 <= i < s.len() ==> is_finite(s[i]),
    ensures
        0 <= k < s.len(),
        s[k] == largest(s),
        forall|i: int| #![trigger s[i]] 0 <= i < s.len() ==> rank(s[i]) <= rank(s[k]),
{
    law_largest_bounds_all(s);
    assert(is_finite(s[0]));
    choose|k: int| 0 <= k < s.len() && s[k] == largest(s)
}

/// The largest logit moves along.
proof fn lemma_largest_moves(logits: Seq<Bits>, c: Bits, moved: Seq<Bits>)
    requires
        logits.len() > 0,
        moved_by(logits, c, moved),
    ensures
        is_finite(largest(logits)),
        is_finite(largest(moved)),
        value(largest(moved)) == value(largest(logits)) + value(c),
{
    let i = lemma_largest_of_finite(logits);
    let j = lemma_largest_of_finite(moved);
    law_rank_orders_values(logits[j], logits[i]);
    law_rank_orders_values(moved[i], moved[j]);
}

/// Shifted logits that are alike give entropies that are alike.
proof fn lemma_entropies_alike<A: Arithmetic>(
    ar: &A,
    probs: Seq<Bits>,
    shifted: Seq<Bits>,
    other: Seq<Bits>,
    log_total: Bits,
    r: Bits,
    s: Bits,
)
    requires
        regards_values(ar),
        shifted.len() == probs.len(),
        other.len() == probs.len(),
        forall|i: int| #![trigger shifted[i]] 0 <= i < probs.len() ==> alike(shifted[i], other[i]),
        softmax_entropy_is(ar, probs, shifted, log_total, r),
        softmax_entropy_is(ar, probs, other, log_total, s),
    ensures
        alike(r, s),
    decreases probs.len(),
{
    if probs.len() > 0 {
        let n = probs.len() - 1;
        let p = choose|p: Bits|
            #![trigger logit_added(ar, p, probs.last(), shifted.last(), log_total, r)]
            softmax_entropy_is(ar, probs.drop_last(), shifted.drop_last(), log_total, p)
                && logit_added(ar, p, probs.last(), shifted.last(), log_total, r);
        let q = choose|q: Bits|
            #![trigger logit_added(ar, q, probs.last(), other.last(), log_total, s)]
            softmax_entropy_is(ar, probs.drop_last(), other.drop_last(), log_total, q)
                && logit_added(ar, q, probs.last(), other.last(), log_total, s);
        assert forall|i: int| #![trigger shifted.drop_last()[i]] 0 <= i < n implies alike(
            shifted.drop_last()[i],
            other.drop_last()[i],
        ) by {
            assert(alike(shifted[i], other[i]));
        }
        lemma_entropies_alike(
            ar,
            probs.drop_last(),
            shifted.drop_last(),
            other.drop_last(),
            log_total,
            p,
            q,
        );
        assert(alike(shifted[n], other[n]));
    }
}

/// Logits that are all moved by the same number, exactly, give the same
/// uncertainty.
pub proof fn law_common_shift_changes_nothing<A: Arithmetic>(
    ar: &A,
    logits: Seq<Bits>,
    c: Bits,
    moved: Seq<Bits>,
    chosen: usize,
    u: TokenUncertainty,
    v: TokenUncertainty,
)
    requires
        deterministic(ar),
        regards_values(ar),
        logits.len() > 0,
        moved_by(logits, c, moved),
        from_logits_is(ar, logits, chosen, u),
        from_logits_is(ar, moved, chosen, v),
    ensures
        u.entropy == v.entropy,
        u.max_prob == v.max_prob,
        u.margin == v.margin,
        alike(u.chosen_logprob, v.chosen_logprob),
{
    let w = choose|w: Softmax| #[trigger]
        softmax_is(ar, logits, w) && softmax_gives(ar, w, chosen, u);
    let x = choose|x: Softmax| #[trigger]
        softmax_is(ar, moved, x) && softmax_gives(ar, x, chosen, v);
    lemma_largest_moves(logits, c, moved);
    assert forall|i: int| #![trigger w.shifted[i]] 0 <= i < logits.len() implies alike(
        w.shifted[i],
        x.shifted[i],
    ) && w.weights[i] == x.weights[i] by {
        assert(is_finite(logits[i]));
        assert(difference_is(ar, logits[i], largest(logits), w.shifted[i]));
        assert(difference_is(ar, moved[i], largest(moved), x.shifted[i]));
        assert(exp_is(ar, w.shifted[i], w.weights[i]));
        assert(exp_is(ar, x.shifted[i], x.weights[i]));
    }
    assert(w.weights =~= x.weights) by {
        assert forall|i: int| 0 <= i < w.weights.len() implies w.weights[i] == x.weights[i] by {
            assert(alike(w.shifted[i], x.shifted[i]));
        }
    }
    lemma_total(ar, ZERO, w.weights, w.total, x.total);
    assert forall|i: int| 0 <= i < w.weights.len() implies w.probs[i] == x.probs[i] by {
        assert(product_is(ar, w.weights[i], w.inverse, w.probs[i]));
        assert(product_is(ar, w.weights[i], w.inverse, x.probs[i]));
    }
    assert(w.probs =~= x.probs);
    lemma_entropies_alike(ar, w.probs, w.shifted, x.shifted, w.log_total, w.entropy, x.entropy);
    assert(larger(w.entropy, ZERO) == larger(x.entropy, ZERO));
    if chosen < w.probs.len() {
        assert(alike(w.shifted[chosen as int], x.shifted[chosen as int]));
    }
}

} // verus!
