//! Tokens that cannot occur: a logit of negative infinity is as good as none.

use crate::arithmetic::{
    difference_is, exp_is, ln_is, product_is, quotient_is, sum_is, total_is, Arithmetic,
};
use crate::bounds::{lemma_parts_within_total, normalizes_faithfully};
use crate::float::{
    at_most, below, is_finite, is_nan, larger, largest, law_largest_bounds_all, rank, Bits,
    INFINITY, NEGATIVE_INFINITY, NEGATIVE_ZERO, ONE, ZERO,
};
use crate::order::{law_two_largest_bound_all, two_largest};
use crate::uncertainty::{
    from_logits_is, logit_added, softmax_entropy_is, softmax_gives, softmax_is, Softmax,
    TokenUncertainty,
};
use vstd::prelude::*;

verus! {

/// What is impossible leaves no trace in the operations of a softmax, as with
/// rounding to the nearest number.
pub open spec fn masks_out<A: Arithmetic>(ar: &A) -> bool {
    // Negative infinity less a number stays so, and its power is nothing.
    &&& forall|b: Bits, r: Bits| #[trigger]
        difference_is(ar, NEGATIVE_INFINITY, b, r) && is_finite(b) ==> r == NEGATIVE_INFINITY
    &&& forall|r: Bits| #[trigger] exp_is(ar, NEGATIVE_INFINITY, r) ==> r == ZERO
    // Nothing added changes nothing, and only negative zeros add up to one.
    &&& forall|a: Bits, r: Bits| #[trigger]
        sum_is(ar, a, ZERO, r) && at_most(ZERO, a) && a != NEGATIVE_ZERO ==> r == a
    &&& forall|a: Bits, b: Bits, r: Bits| #[trigger]
        sum_is(ar, a, b, r) && r == NEGATIVE_ZERO ==> a == NEGATIVE_ZERO
    // One more, at most, does not overflow.
    &&& forall|a: Bits, b: Bits, r: Bits| #[trigger]
        sum_is(ar, a, b, r) && at_most(ZERO, a) && is_finite(a) && at_most(ZERO, b) && at_most(
            b,
            ONE,
        ) ==> is_finite(r)
    // One over a number from one up is something.
    &&& forall|a: Bits, r: Bits| #[trigger]
        quotient_is(ar, ONE, a, r) && at_most(ONE, a) && is_finite(a) ==> below(ZERO, r)
    // The logarithm of a number from one up is finite.
    &&& forall|a: Bits, r: Bits| #[trigger]
        ln_is(ar, a, r) && at_most(ONE, a) && is_finite(a) ==> is_finite(r)
    // Nothing stays nothing in a product, and one changes nothing.
    &&& forall|b: Bits, r: Bits| #[trigger]
        product_is(ar, ZERO, b, r) && at_most(ZERO, b) && is_finite(b) ==> rank(r) == 0
    &&& forall|b: Bits, r: Bits| #[trigger] product_is(ar, ONE, b, r) ==> r == b
}

/// Logits of which a softmax can be taken: no number is missing or infinitely
/// large, and one is finite.
pub open spec fn usable(logits: Seq<Bits>) -> bool {
    &&& forall|i: int| #![trigger logits[i]]
        0 <= i < logits.len() ==> !is_nan(logits[i]) && logits[i] != INFINITY
    &&& exists|i: int| 0 <= i < logits.len() && is_finite(#[trigger] logits[i])
}

/// All numbers lie in `[0, 1]`.
spec fn are_shares(s: Seq<Bits>) -> bool {
    forall|i: int| #![trigger s[i]] 0 <= i < s.len() ==> at_most(ZERO, s[i]) && at_most(s[i], ONE)
}

/// The largest of usable logits is finite, and one of them.
proof fn lemma_largest_is_finite(logits: Seq<Bits>) -> (k: int)
    requires
        usable(logits),
    ensures
        is_finite(largest(logits)),
        0 <= k < logits.len(),
        logits[k] == largest(logits),
{
    law_largest_bounds_all(logits);
    let j = choose|j: int| 0 <= j < logits.len() && is_finite(#[trigger] logits[j]);
    assert(at_most(logits[j], largest(logits)));
    assert(logits.contains(largest(logits)));
    choose|k: int| 0 <= k < logits.len() && logits[k] == largest(logits)
}

/// Negative infinity is never the largest.
proof fn lemma_largest_without(s: Seq<Bits>, k: int)
    requires
        0 <= k <= s.len(),
    ensures
        largest(s.insert(k, NEGATIVE_INFINITY)) == largest(s),
    decreases s.len(),
{
    let t = s.insert(k, NEGATIVE_INFINITY);
    if k == s.len() {
        assert(t.drop_last() =~= s);
        law_largest_bounds_all(s);
    } else {
        assert(t.drop_last() =~= s.drop_last().insert(k, NEGATIVE_INFINITY));
        lemma_largest_without(s.drop_last(), k);
    }
}

/// A sum of shares is finite, and no negative zero.
proof fn lemma_total_is_proper<A: Arithmetic>(ar: &A, s: Seq<Bits>, r: Bits)
    requires
        normalizes_faithfully(ar),
        masks_out(ar),
        are_shares(s),
        total_is(ar, ZERO, s, r),
    ensures
        at_most(ZERO, r),
        is_finite(r),
        r != NEGATIVE_ZERO,
    decreases s.len(),
{
    lemma_parts_within_total(ar, ZERO, s, r);
    if s.len() > 0 {
        let rest = s.drop_last();
        let p = choose|p: Bits|
            #![trigger sum_is(ar, p, s.last(), r)]
            total_is(ar, ZERO, rest, p) && sum_is(ar, p, s.last(), r);
        assert(forall|i: int| 0 <= i < rest.len() ==> #[trigger] rest[i] == s[i]);
        lemma_total_is_proper(ar, rest, p);
        assert(s[s.len() - 1] == s.last());
    }
}

/// Nothing among the parts of a sum changes nothing.
proof fn lemma_total_without<A: Arithmetic>(ar: &A, s: Seq<Bits>, k: int, r: Bits)
    requires
        normalizes_faithfully(ar),
        masks_out(ar),
        are_shares(s),
        0 <= k <= s.len(),
        total_is(ar, ZERO, s.insert(k, ZERO), r),
    ensures
        total_is(ar, ZERO, s, r),
    decreases s.len(),
{
    let t = s.insert(k, ZERO);
    let p = choose|p: Bits|
        #![trigger sum_is(ar, p, t.last(), r)]
        total_is(ar, ZERO, t.drop_last(), p) && sum_is(ar, p, t.last(), r);
    if k == s.len() {
        assert(t.drop_last() =~= s);
        lemma_total_is_proper(ar, s, p);
    } else {
        let rest = s.drop_last();
        assert(t.drop_last() =~= rest.insert(k, ZERO));
        assert(t.last() == s.last());
        assert(forall|i: int| 0 <= i < rest.len() ==> #[trigger] rest[i] == s[i]);
        lemma_total_without(ar, rest, k, p);
        assert(sum_is(ar, p, s.last(), r));
    }
}

/// An outcome without probability adds nothing to an entropy, wherever it stands.
proof fn lemma_entropy_without<A: Arithmetic>(
    ar: &A,
    probs: Seq<Bits>,
    shifted: Seq<Bits>,
    k: int,
    p0: Bits,
    s0: Bits,
    log_total: Bits,
    r: Bits,
)
    requires
        probs.len() == shifted.len(),
        0 <= k <= probs.len(),
        !below(ZERO, p0),
        softmax_entropy_is(ar, probs.insert(k, p0), shifted.insert(k, s0), log_total, r),
    ensures
        softmax_entropy_is(ar, probs, shifted, log_total, r),
    decreases probs.len(),
{
    let p = probs.insert(k, p0);
    let s = shifted.insert(k, s0);
    let partial = choose|partial: Bits|
        #![trigger logit_added(ar, partial, p.last(), s.last(), log_total, r)]
        softmax_entropy_is(ar, p.drop_last(), s.drop_last(), log_total, partial) && logit_added(
            ar,
            partial,
            p.last(),
            s.last(),
            log_total,
            r,
        );
    if k == probs.len() {
        assert(p.drop_last() =~= probs && s.drop_last() =~= shifted);
    } else {
        assert(p.drop_last() =~= probs.drop_last().insert(k, p0));
        assert(s.drop_last() =~= shifted.drop_last().insert(k, s0));
        assert(p.last() == probs.last() && s.last() == shifted.last());
        lemma_entropy_without(
            ar,
            probs.drop_last(),
            shifted.drop_last(),
            k,
            p0,
            s0,
            log_total,
            partial,
        );
        assert(logit_added(ar, partial, probs.last(), shifted.last(), log_total, r));
    }
}

/// Nothing among some shares does not change what is positive of the two largest.
proof fn lemma_two_largest_without(s: Seq<Bits>, k: int, p0: Bits)
    requires
        are_shares(s),
        0 <= k <= s.len(),
        !is_nan(p0),
        rank(p0) == 0,
    ensures
        larger(two_largest(s.insert(k, p0)).0, ZERO) == larger(two_largest(s).0, ZERO),
        larger(two_largest(s.insert(k, p0)).1, ZERO) == larger(two_largest(s).1, ZERO),
    decreases s.len(),
{
    let t = s.insert(k, p0);
    law_two_largest_bound_all(s);
    law_two_largest_bound_all(t);
    if k == s.len() {
        assert(t.drop_last() =~= s);
    } else {
        let rest = s.drop_last();
        assert(t.drop_last() =~= rest.insert(k, p0));
        assert(t.last() == s.last());
        assert(forall|i: int| 0 <= i < rest.len() ==> #[trigger] rest[i] == s[i]);
        assert(s[s.len() - 1] == s.last());
        lemma_two_largest_without(rest, k, p0);
        law_two_largest_bound_all(rest);
        law_two_largest_bound_all(rest.insert(k, p0));
    }
}

/// The weights and probabilities of a softmax of usable logits are shares, and
/// one probability is positive.
proof fn lemma_usable_shares<A: Arithmetic>(ar: &A, logits: Seq<Bits>, w: Softmax)
    requires
        normalizes_faithfully(ar),
        masks_out(ar),
        usable(logits),
        softmax_is(ar, logits, w),
    ensures
        are_shares(w.weights),
        are_shares(w.probs),
        below(ZERO, w.inverse),
        at_most(w.inverse, ONE),
        is_finite(w.log_total),
        exists|k: int| 0 <= k < w.probs.len() && below(ZERO, #[trigger] w.probs[k]),
{
    let top = largest(logits);
    let k = lemma_largest_is_finite(logits);
    law_largest_bounds_all(logits);
    assert forall|i: int| #![trigger w.weights[i]] 0 <= i < w.weights.len() implies at_most(
        ZERO,
        w.weights[i],
    ) && at_most(w.weights[i], ONE) by {
        assert(!is_nan(logits[i]));
        assert(difference_is(ar, logits[i], top, w.shifted[i]));
        assert(exp_is(ar, w.shifted[i], w.weights[i]));
    }
    assert(difference_is(ar, logits[k], top, w.shifted[k]));
    assert(exp_is(ar, w.shifted[k], w.weights[k]));
    assert(w.weights[k] == ONE);
    lemma_parts_within_total(ar, ZERO, w.weights, w.total);
    lemma_total_is_proper(ar, w.weights, w.total);
    assert(at_most(ONE, w.total));
    assert forall|i: int| #![trigger w.probs[i]] 0 <= i < w.probs.len() implies at_most(
        ZERO,
        w.probs[i],
    ) && at_most(w.probs[i], ONE) by {
        assert(at_most(ZERO, w.weights[i]));
        assert(product_is(ar, w.weights[i], w.inverse, w.probs[i]));
    }
    assert(product_is(ar, w.weights[k], w.inverse, w.probs[k]));
}

/// A token whose logit is negative infinity is impossible, and the uncertainty
/// of any other is what it is without that logit, wherever it stands.
#[verifier::rlimit(40)]
pub proof fn law_masked_logit_changes_nothing<A: Arithmetic>(
    ar: &A,
    logits: Seq<Bits>,
    k: int,
    chosen: usize,
    u: TokenUncertainty,
)
    requires
        normalizes_faithfully(ar),
        masks_out(ar),
        usable(logits),
        0 <= k <= logits.len(),
        chosen <= logits.len(),
        from_logits_is(ar, logits.insert(k, NEGATIVE_INFINITY), chosen, u),
    ensures
        chosen < k ==> from_logits_is(ar, logits, chosen, u),
        chosen > k ==> from_logits_is(ar, logits, (chosen - 1) as usize, u),
        chosen == k ==> u.chosen_logprob == NEGATIVE_INFINITY,
{
    let more = logits.insert(k, NEGATIVE_INFINITY);
    let w = choose|w: Softmax| #[trigger]
        softmax_is(ar, more, w) && softmax_gives(ar, w, chosen, u);
    lemma_largest_without(logits, k);
    let j = lemma_largest_is_finite(logits);
    assert(usable(more)) by {
        assert(more[if j < k {
            j
        } else {
            j + 1
        }] == logits[j]);
        assert forall|i: int| #![trigger more[i]] 0 <= i < more.len() implies !is_nan(more[i])
            && more[i] != INFINITY by {
            if i < k {
                assert(more[i] == logits[i]);
            } else if i > k {
                assert(more[i] == logits[i - 1]);
            }
        }
    }
    lemma_usable_shares(ar, more, w);
    let v = Softmax {
        shifted: w.shifted.remove(k),
        weights: w.weights.remove(k),
        probs: w.probs.remove(k),
        ..w
    };
    let top = largest(logits);
    assert(difference_is(ar, more[k], top, w.shifted[k]));
    assert(exp_is(ar, w.shifted[k], w.weights[k]));
    assert(product_is(ar, w.weights[k], w.inverse, w.probs[k]));
    assert(w.weights[k] == ZERO && rank(w.probs[k]) == 0);
    assert(w.weights =~= v.weights.insert(k, ZERO));
    assert(w.probs =~= v.probs.insert(k, w.probs[k]));
    assert(w.shifted =~= v.shifted.insert(k, w.shifted[k]));
    assert forall|i: int| #![trigger v.shifted[i]] 0 <= i < logits.len() implies difference_is(
        ar,
        logits[i],
        top,
        v.shifted[i],
    ) by {
        let at = if i < k {
            i
        } else {
            i + 1
        };
        assert(difference_is(ar, more[at], top, w.shifted[at]));
    }
    assert forall|i: int| #![trigger v.weights[i]] 0 <= i < logits.len() implies exp_is(
        ar,
        v.shifted[i],
        v.weights[i],
    ) && at_most(ZERO, v.weights[i]) && at_most(v.weights[i], ONE) by {
        let at = if i < k {
            i
        } else {
            i + 1
        };
        assert(exp_is(ar, w.shifted[at], w.weights[at]));
    }
    assert forall|i: int| #![trigger v.probs[i]] 0 <= i < logits.len() implies product_is(
        ar,
        v.weights[i],
        w.inverse,
        v.probs[i],
    ) && at_most(ZERO, v.probs[i]) && at_most(v.probs[i], ONE) by {
        let at = if i < k {
            i
        } else {
            i + 1
        };
        assert(product_is(ar, w.weights[at], w.inverse, w.probs[at]));
        assert(at_most(ZERO, w.probs[at]));
    }
    lemma_total_without(ar, v.weights, k, w.total);
    lemma_entropy_without(
        ar,
        v.probs,
        v.shifted,
        k,
        w.probs[k],
        w.shifted[k],
        w.log_total,
        w.entropy,
    );
    assert(softmax_is(ar, logits, v));
    lemma_two_largest_without(v.probs, k, w.probs[k]);
    let p = choose|p: int| 0 <= p < w.probs.len() && below(ZERO, #[trigger] w.probs[p]);
    law_two_largest_bound_all(w.probs);
    assert(at_most(w.probs[p], two_largest(w.probs).0));
    assert(two_largest(v.probs).0 == two_largest(w.probs).0);
    if chosen < k {
        assert(v.probs[chosen as int] == w.probs[chosen as int]);
        assert(v.shifted[chosen as int] == w.shifted[chosen as int]);
        assert(softmax_gives(ar, v, chosen, u));
    } else if chosen > k {
        let other = (chosen - 1) as usize;
        assert(v.probs[other as int] == w.probs[chosen as int]);
        assert(v.shifted[other as int] == w.shifted[chosen as int]);
        assert(softmax_gives(ar, v, other, u));
    }
}

} // verus!
