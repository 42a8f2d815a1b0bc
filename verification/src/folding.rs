//! Folding outcomes into one does not raise an exact entropy.

use crate::accuracy::{is_logarithm, Precision};
use crate::sums::{
    apart_from, at_places, distinct_places, inverse, lemma_inverse, lemma_places_are_few,
    lemma_sum_difference, lemma_sum_linear, lemma_sum_of_parts, lemma_sum_scaled,
    lemma_sum_shifted, lemma_sum_splits,
    lemma_times_multiple, lemma_times_order, lemma_times_positive, lemma_times_regroup,
    lemma_times_sign, lemma_times_sum, sum_of, times,
};
use vstd::prelude::*;

verus! {

/// What an outcome of probability `x` adds to an exact entropy.
pub open spec fn share(pr: Precision, x: real) -> real {
    if x > 0real {
        -times(x, (pr.log)(x))
    } else {
        0real
    }
}

/// `r` and `x` differ by at most `e`.
pub open spec fn within(r: real, x: real, e: real) -> bool {
    -e <= r - x <= e
}

/// Numbers that differ by `d` have multiples that differ as much more.
pub(crate) proof fn lemma_within_scaled(r: real, x: real, d: real, c: real)
    requires
        within(r, x, d),
        0real <= c,
    ensures
        within(times(r, c), times(x, c), times(d, c)),
        within(times(c, r), times(c, x), times(c, d)),
{
    lemma_times_order(r - x, d, c);
    lemma_times_order(-d, r - x, c);
    lemma_times_sum(r, x, c);
    lemma_times_sign(d, c);
    lemma_times_sign(c, d);
}

/// A larger number has the larger logarithm.
pub(crate) proof fn lemma_log_order(pr: Precision, x: real, y: real)
    requires
        is_logarithm(pr.log, pr.exp),
        0real < x <= y,
    ensures
        (pr.log)(x) <= (pr.log)(y),
{
    let d = (pr.log)(x) - (pr.log)(y);
    assert(times(y, d) <= x - y);
    if d > 0real {
        lemma_times_positive(y, d);
    }
}

/// An outcome adds between zero and one to an entropy.
pub(crate) proof fn lemma_share_in_unit(pr: Precision, x: real)
    requires
        is_logarithm(pr.log, pr.exp),
        0real <= x <= 1real,
    ensures
        0real <= share(pr, x) <= 1real,
        x > 0real ==> (pr.log)(x) <= 0real,
{
    if x > 0real {
        let a = (pr.log)(x);
        lemma_log_order(pr, x, 1real);
        assert(times(x, (pr.log)(1real) - a) <= 1real - x);
        assert((pr.log)(1real) - a == -a);
        lemma_times_sign(x, a);
        lemma_times_order(a, 0real, x);
    }
}

/// The power of a number that is not positive is at most one, and its product
/// with that number is at most one in size.
pub(crate) proof fn lemma_power_in_unit(pr: Precision, l: real)
    requires
        is_logarithm(pr.log, pr.exp),
        l <= 0real,
    ensures
        0real < (pr.exp)(l) <= 1real,
        (pr.log)((pr.exp)(l)) == l,
        0real <= -times((pr.exp)(l), l) <= 1real,
{
    let z = (pr.exp)(l);
    assert(z > 0real && (pr.log)(z) == l);
    if z > 1real {
        lemma_log_order(pr, 1real, z);
        assert(times(z, (pr.log)(1real) - l) <= 1real - z);
        assert((pr.log)(1real) - l == 0real);
        lemma_times_sign(z, 0real);
    }
    lemma_share_in_unit(pr, z);
}

/// A weight over a total, computed by way of the inverse of the total.
pub(crate) proof fn lemma_quotient_near(u: real, t: real, w: real, inv: real, p: real)
    requires
        0real < u <= 1real,
        t >= 1real,
        0real <= w <= 1real,
        within(inv, inverse(t), times(u, inverse(t) + u)),
        within(p, times(w, inv), times(u, times(w, inv) + u)),
    ensures
        within(p, times(w, inverse(t)), 3real * times(u, times(w, inverse(t)) + u)),
        0real <= times(w, inverse(t)),
{
    let c = inverse(t);
    lemma_inverse(t);
    let a = times(w, c);
    let b = times(w, inv);
    lemma_within_scaled(inv, c, times(u, c + u), w);
    lemma_times_regroup(w, u, c + u);
    lemma_times_sum(c, u, w);
    lemma_times_order(w, 1real, u);
    lemma_times_sign(1real, u);
    lemma_times_order(a + times(w, u), a + u, u);
    lemma_times_order(0real, c, w);
    lemma_times_sign(w, 0real);
    lemma_times_order(u, 1real, a + u);
    lemma_times_sign(1real, a + u);
    assert(b <= 2real * a + u);
    lemma_times_order(b + u, 2real * (a + u), u);
    lemma_times_multiple(2real, u, a + u);
}

/// What is near the logarithm of a positive number is the logarithm of a number
/// near it.
pub(crate) proof fn lemma_power_near(pr: Precision, k: real, l: real, y: real)
    requires
        is_logarithm(pr.log, pr.exp),
        0real <= k,
        2real * k <= 1real,
        y > 0real,
        within(l, (pr.log)(y), k),
    ensures
        within((pr.exp)(l), y, 2real * times(k, (pr.exp)(l))),
        y <= 2real * (pr.exp)(l),
{
    let z = (pr.exp)(l);
    let a = (pr.log)(y);
    assert(z > 0real && (pr.log)(z) == l);
    assert(times(z, a - l) <= y - z);
    assert(times(y, l - a) <= z - y);
    lemma_times_order(-k, a - l, z);
    lemma_times_sign(z, k);
    lemma_times_order(-k, l - a, y);
    lemma_times_sign(y, k);
    lemma_times_order(2real * k, 1real, y);
    lemma_times_multiple(2real, y, k);
    lemma_times_sign(y, 1real);
    assert(y <= 2real * z);
    lemma_times_order(y, 2real * z, k);
    lemma_times_multiple(2real, z, k);
    lemma_times_order(0real, k, z);
    lemma_times_sign(z, 0real);
}

/// The errors are small against `g`: `e` is `g` units, and `b` is a unit squared.
pub open spec fn small_unit(pr: Precision, g: real, e: real, b: real) -> bool {
    &&& is_logarithm(pr.log, pr.exp)
    &&& g >= 2real
    &&& pr.unit > 0real
    &&& e == times(g, pr.unit)
    &&& b == times(pr.unit, pr.unit)
    &&& 200real * e <= 1real
}

/// The unit is small, and so are its products with `g`.
pub(crate) proof fn lemma_unit_is_small(pr: Precision, g: real, e: real, b: real)
    requires
        small_unit(pr, g, e, b),
    ensures
        2real * pr.unit <= e,
        400real * pr.unit <= 1real,
        0real < e,
        0real < b,
        400real * b <= pr.unit,
        400real * times(pr.unit, e) <= e,
{
    let u = pr.unit;
    lemma_times_order(2real, g, u);
    lemma_times_multiple(2real, 1real, u);
    lemma_times_sign(1real, u);
    lemma_times_order(400real * u, 1real, u);
    lemma_times_multiple(400real, u, u);
    lemma_times_order(400real * u, 1real, e);
    lemma_times_multiple(400real, u, e);
    lemma_times_sign(1real, e);
    lemma_times_positive(u, u);
}

/// A computed probability is near the power of the computed log-probability.
pub(crate) proof fn lemma_probability_near(
    pr: Precision,
    g: real,
    e: real,
    b: real,
    s: real,
    t: real,
    w: real,
    inv: real,
    p: real,
    l: real,
)
    requires
        small_unit(pr, g, e, b),
        t >= 1real,
        0real <= w <= 1real,
        within(w, (pr.exp)(s), times(pr.unit, (pr.exp)(s) + pr.unit)),
        within(inv, inverse(t), times(pr.unit, inverse(t) + pr.unit)),
        within(p, times(w, inv), times(pr.unit, times(w, inv) + pr.unit)),
        within(l, s - (pr.log)(t), 3real * e),
    ensures
        within(p, (pr.exp)(l), 13real * times(e, (pr.exp)(l)) + 7real * b),
{
    let u = pr.unit;
    let x = (pr.exp)(s);
    let z = (pr.exp)(l);
    let c = inverse(t);
    lemma_unit_is_small(pr, g, e, b);
    lemma_inverse(t);
    assert(x > 0real && (pr.log)(x) == s && z > 0real);
    lemma_quotient_near(u, t, w, inv, p);
    let a = times(w, c);
    let y = times(x, c);
    lemma_times_positive(x, c);
    lemma_times_regroup(x, c, t);
    lemma_times_sign(x, 1real);
    assert((pr.log)(times(y, t)) == (pr.log)(y) + (pr.log)(t));
    lemma_power_near(pr, 3real * e, l, y);
    lemma_times_multiple(3real, e, z);
    lemma_within_scaled(w, x, times(u, x + u), c);
    lemma_times_regroup(u, x + u, c);
    lemma_times_sum(x, u, c);
    lemma_times_order(c, 1real, u);
    lemma_times_sign(u, 1real);
    lemma_times_order(y + times(u, c), y + u, u);
    assert(within(a, y, times(u, y + u)));
    lemma_times_order(u, 1real, y + u);
    lemma_times_sign(1real, y + u);
    lemma_times_order(a + u, 2real * (y + u), u);
    lemma_times_multiple(2real, u, y + u);
    assert(within(p, y, 7real * times(u, y + u)));
    lemma_times_sum(y, u, u);
    lemma_times_order(y, 2real * z, u);
    lemma_times_multiple(2real, u, z);
    lemma_times_order(2real * u, e, z);
    lemma_times_multiple(2real, u, z);
}

/// `p` can be a computed probability where `l` is the computed log-probability.
pub open spec fn probability_fits(
    pr: Precision,
    g: real,
    e: real,
    b: real,
    p: real,
    l: real,
) -> bool {
    &&& 0real <= p <= 1real
    &&& l <= 0real
    &&& within(p, (pr.exp)(l), 13real * times(e, (pr.exp)(l)) + 7real * b)
    &&& l >= -(2real * g) || p == 0real
}

/// `q` can be the computed power of the computed log-probability `l`.
pub open spec fn power_fits(pr: Precision, g: real, q: real, l: real) -> bool {
    &&& 0real <= q <= 1real
    &&& within(q, (pr.exp)(l), times(pr.unit, (pr.exp)(l) + pr.unit))
    &&& l >= -(2real * g) || q == 0real
}

/// A probability times its log-probability is at most two in size.
pub(crate) proof fn lemma_term_bounded(
    pr: Precision,
    g: real,
    e: real,
    b: real,
    p: real,
    l: real,
)
    requires
        small_unit(pr, g, e, b),
        probability_fits(pr, g, e, b, p, l),
    ensures
        0real <= -times(p, l) <= 2real,
        p > 0real ==> within(
            times(p, -l),
            times((pr.exp)(l), -l),
            14real * e,
        ),
{
    let u = pr.unit;
    let z = (pr.exp)(l);
    let m = -l;
    lemma_power_in_unit(pr, l);
    lemma_unit_is_small(pr, g, e, b);
    lemma_times_sign(p, l);
    lemma_times_sign(z, l);
    lemma_times_sign(0real, l);
    if p > 0real {
        let zm = times(z, m);
        let ez = times(e, z);
        lemma_within_scaled(p, z, 13real * ez + 7real * b, m);
        lemma_times_sum(13real * ez, 7real * b, m);
        lemma_times_multiple(13real, ez, m);
        lemma_times_multiple(7real, b, m);
        lemma_times_regroup(e, z, m);
        lemma_times_order(zm, 1real, e);
        lemma_times_sign(e, 1real);
        lemma_square_times_log(pr, g, e, b, m);
        lemma_times_order(0real, m, p);
        lemma_times_sign(p, 0real);
    }
}

/// A unit squared, times a logarithm, is small.
pub(crate) proof fn lemma_square_times_log(pr: Precision, g: real, e: real, b: real, m: real)
    requires
        small_unit(pr, g, e, b),
        0real <= m <= 2real * g,
    ensures
        200real * times(b, m) <= e,
{
    let u = pr.unit;
    lemma_unit_is_small(pr, g, e, b);
    lemma_times_regroup(u, u, m);
    lemma_times_order(m, 2real * g, u);
    lemma_times_multiple(2real, u, g);
    lemma_times_sign(u, g);
    lemma_times_order(times(u, m), 2real * e, u);
    lemma_times_multiple(2real, u, e);
}

/// Products with a log-probability differ little where the probabilities do.
proof fn lemma_terms_near(
    pr: Precision,
    g: real,
    e: real,
    b: real,
    p: real,
    q: real,
    l: real,
)
    requires
        small_unit(pr, g, e, b),
        probability_fits(pr, g, e, b, p, l),
        power_fits(pr, g, q, l),
    ensures
        within(times(q, l), times(p, l), 15real * e),
{
    let u = pr.unit;
    let z = (pr.exp)(l);
    let m = -l;
    lemma_power_in_unit(pr, l);
    lemma_unit_is_small(pr, g, e, b);
    lemma_times_sign(p, l);
    lemma_times_sign(q, l);
    lemma_times_sign(z, l);
    lemma_times_sign(0real, l);
    if l >= -(2real * g) {
        let zm = times(z, m);
        let ez = times(e, z);
        lemma_within_scaled(p, z, 13real * ez + 7real * b, m);
        lemma_times_sum(13real * ez, 7real * b, m);
        lemma_times_multiple(13real, ez, m);
        lemma_times_multiple(7real, b, m);
        lemma_times_regroup(e, z, m);
        lemma_times_order(zm, 1real, e);
        lemma_times_sign(e, 1real);
        lemma_square_times_log(pr, g, e, b, m);
        lemma_within_scaled(q, z, times(u, z + u), m);
        lemma_times_sum(z, u, u);
        lemma_times_sum(times(u, z), b, m);
        lemma_times_regroup(u, z, m);
        lemma_times_order(zm, 1real, u);
        lemma_times_sign(u, 1real);
    }
}

/// A power adds to an entropy about as much as its probability does.
pub(crate) proof fn lemma_share_near(
    pr: Precision,
    g: real,
    e: real,
    b: real,
    p: real,
    q: real,
    l: real,
)
    requires
        small_unit(pr, g, e, b),
        probability_fits(pr, g, e, b, p, l),
        power_fits(pr, g, q, l),
    ensures
        share(pr, q) <= -times(p, l) + 16real * e,
        -times(p, l) <= share(pr, q) + 24real * e,
{
    let u = pr.unit;
    let z = (pr.exp)(l);
    lemma_power_in_unit(pr, l);
    lemma_unit_is_small(pr, g, e, b);
    lemma_terms_near(pr, g, e, b, p, q, l);
    lemma_times_order(z + u, 2real, u);
    lemma_times_multiple(2real, u, 1real);
    lemma_times_sign(u, 1real);
    assert(times(u, z + u) <= 2real * u);
    if q > 0real {
        let a = (pr.log)(q);
        assert(times(q, l - a) <= z - q);
        lemma_times_sum(l, a, q);
        lemma_share_in_unit(pr, q);
        if a > l {
            let f = a - l;
            assert(times(z, f) <= q - z);
            lemma_times_sum(q, z, f);
            lemma_times_sum(a, l, q);
            lemma_times_order(q - z, 2real * u, f);
            lemma_times_multiple(2real, u, f);
            lemma_times_order(f, 2real * g, u);
            lemma_times_multiple(2real, u, g);
            lemma_times_sign(u, g);
        } else {
            lemma_times_order(a, l, q);
        }
    } else {
        lemma_times_sign(0real, l);
    }
}

/// A power differs from its probability by little, and that in proportion.
pub(crate) proof fn lemma_power_differs_little(
    pr: Precision,
    g: real,
    e: real,
    b: real,
    p: real,
    q: real,
    l: real,
)
    requires
        small_unit(pr, g, e, b),
        probability_fits(pr, g, e, b, p, l),
        power_fits(pr, g, q, l),
    ensures
        within(q, p, times(28real * e, p) + 9real * b),
        within(q, p, 15real * e),
{
    let u = pr.unit;
    let z = (pr.exp)(l);
    lemma_power_in_unit(pr, l);
    lemma_unit_is_small(pr, g, e, b);
    lemma_times_order(200real * e, 1real, z);
    lemma_times_multiple(200real, e, z);
    lemma_times_sign(1real, z);
    lemma_times_order(z, 1real, e);
    lemma_times_sign(e, 1real);
    lemma_times_sum(z, u, u);
    lemma_times_order(2real * u, e, z);
    lemma_times_multiple(2real, u, z);
    assert(z <= 2real * p + 14real * b);
    lemma_times_order(z, 2real * p + 14real * b, e);
    lemma_times_sum(2real * p, 14real * b, e);
    lemma_times_multiple(2real, e, p);
    lemma_times_multiple(14real, e, b);
    lemma_times_order(200real * e, 1real, b);
    lemma_times_multiple(200real, e, b);
    lemma_times_sign(1real, b);
    lemma_times_multiple(28real, e, p);
    lemma_times_order(0real, p, e);
    lemma_times_sign(e, 0real);
}

/// A power is not much larger than its probability.
proof fn lemma_power_bounded(pr: Precision, g: real, e: real, b: real, p: real, l: real)
    requires
        small_unit(pr, g, e, b),
        probability_fits(pr, g, e, b, p, l),
    ensures
        (pr.exp)(l) <= p + 14real * e,
{
    lemma_power_in_unit(pr, l);
    lemma_unit_is_small(pr, g, e, b);
    lemma_times_order((pr.exp)(l), 1real, e);
    lemma_times_sign(e, 1real);
}

/// What the tail adds to an entropy is little more than what the outcomes add
/// that are folded into it.
proof fn lemma_tail_share(
    pr: Precision,
    n: nat,
    f: spec_fn(int) -> real,
    l: spec_fn(int) -> real,
    h: spec_fn(int) -> real,
    tail: real,
    d: real,
    gap: real,
)
    requires
        is_logarithm(pr.log, pr.exp),
        0real < gap < 1real,
        0real <= d,
        0real <= tail,
        forall|i: int| #![trigger f(i)] 0 <= i < n ==> 0real <= f(i),
        forall|i: int| #![trigger f(i)]
            0 <= i < n && f(i) > 0real ==> l(i) <= 0real && (pr.exp)(l(i)) <= tail + gap,
        forall|i: int| #![trigger h(i)] 0 <= i < n ==> h(i) == -times(f(i), l(i)),
        within(tail, sum_of(n, f), d),
    ensures
        share(pr, tail) <= sum_of(n, h) + gap + times(d, -(pr.log)(gap)),
        sum_of(n, h) >= 0real,
        0real <= times(d, -(pr.log)(gap)),
{
    assert forall|i: int| #![trigger h(i)] 0 <= i < n implies 0real <= h(i) by {
        lemma_times_sign(f(i), l(i));
        lemma_times_sign(f(i), 0real);
        if f(i) > 0real {
            lemma_times_order(l(i), 0real, f(i));
        }
    }
    lemma_sum_of_parts(n, h);
    let s = sum_of(n, f);
    lemma_log_order(pr, gap, 1real);
    let far = (pr.log)(gap);
    lemma_times_order(0real, -far, d);
    lemma_times_sign(d, 0real);
    if tail > 0real {
        let wider = tail + gap;
        let a = (pr.log)(tail);
        let b = (pr.log)(wider);
        assert(times(tail, b - a) <= wider - tail);
        lemma_times_sum(b, a, tail);
        lemma_log_order(pr, gap, wider);
        if b < 0real {
            let c = -b;
            let scaled = |i: int| times(c, f(i));
            assert forall|i: int| #![trigger scaled(i)] 0 <= i < n implies scaled(i) <= h(i)
                + 0real by {
                assert(h(i) == -times(f(i), l(i)));
                lemma_times_sign(0real, l(i));
                lemma_times_sign(c, 0real);
                lemma_times_sign(c, f(i));
                lemma_times_sign(f(i), l(i));
                if f(i) > 0real {
                    let z = (pr.exp)(l(i));
                    assert((pr.log)(z) == l(i));
                    lemma_log_order(pr, z, wider);
                    lemma_times_order(c, -l(i), f(i));
                }
            }
            lemma_sum_shifted(n, scaled, h, 0real);
            lemma_times_sign(n as real, 0real);
            lemma_sum_scaled(n, f, c, scaled);
            lemma_times_order(tail, s + d, c);
            lemma_times_sum(s, d, c);
            lemma_times_sign(s, c);
            lemma_times_order(c, -far, d);
            lemma_times_sign(tail, b);
        } else {
            lemma_times_order(0real, b, tail);
            lemma_times_sign(tail, 0real);
        }
    }
}

/// The powers at some places add up to about what the probabilities there do.
pub(crate) proof fn lemma_powers_add_up(
    pr: Precision,
    g: real,
    e: real,
    b: real,
    n: nat,
    places: Seq<int>,
    p: spec_fn(int) -> real,
    l: spec_fn(int) -> real,
    q: spec_fn(int) -> real,
)
    requires
        small_unit(pr, g, e, b),
        n as real <= g,
        distinct_places(places, n),
        forall|i: int| #![trigger p(i)] 0 <= i < n ==> probability_fits(pr, g, e, b, p(i), l(i)),
        forall|j: int| #![trigger q(j)]
            0 <= j < places.len() ==> power_fits(pr, g, q(j), l(places[j])),
        within(sum_of(n, p), 1real, 5real * e),
    ensures
        sum_of(n, apart_from(places, p)) >= 0real,
        within(1real - sum_of(places.len(), q), sum_of(n, apart_from(places, p)), 34real * e),
{
    let k = places.len();
    let u = pr.unit;
    let seen = at_places(places, p);
    let unseen = apart_from(places, p);
    lemma_unit_is_small(pr, g, e, b);
    lemma_places_are_few(places, n);
    lemma_sum_splits(n, places, p);
    assert forall|i: int| #![trigger unseen(i)] 0 <= i < n implies 0real <= unseen(i) by {
        assert(0real <= p(i));
    }
    lemma_sum_of_parts(n, unseen);
    assert forall|j: int| #![trigger seen(j)] 0 <= j < k implies 0real <= seen(j) by {
        assert(0real <= p(places[j]));
    }
    lemma_sum_of_parts(k, seen);
    let s = sum_of(k, seen);
    let c = 28real * e;
    let more = |j: int| q(j) - seen(j);
    let less = |j: int| seen(j) - q(j);
    assert forall|j: int| #![trigger more(j)] 0 <= j < k implies more(j) <= times(c, seen(j))
        + 9real * b by {
        assert(power_fits(pr, g, q(j), l(places[j])));
        assert(probability_fits(pr, g, e, b, p(places[j]), l(places[j])));
        lemma_power_differs_little(pr, g, e, b, seen(j), q(j), l(places[j]));
    }
    assert forall|j: int| #![trigger less(j)] 0 <= j < k implies less(j) <= times(c, seen(j))
        + 9real * b by {
        assert(power_fits(pr, g, q(j), l(places[j])));
        assert(probability_fits(pr, g, e, b, p(places[j]), l(places[j])));
        lemma_power_differs_little(pr, g, e, b, seen(j), q(j), l(places[j]));
    }
    lemma_sum_linear(k, more, seen, c, 9real * b);
    lemma_sum_linear(k, less, seen, c, 9real * b);
    lemma_sum_difference(k, q, seen, more);
    lemma_sum_difference(k, seen, q, less);
    lemma_times_order(s, 1real + 5real * e, c);
    lemma_times_sum(1real, 5real * e, c);
    lemma_times_sign(c, 1real);
    lemma_times_multiple(5real, c, e);
    lemma_times_order(200real * e, 1real, c);
    lemma_times_multiple(200real, c, e);
    lemma_times_order(k as real, g, 9real * b);
    lemma_times_multiple(9real, g, b);
    lemma_times_regroup(g, u, u);
    lemma_times_sign(e, u);
}

/// The error that folding the tail can make, where `e` is the error of a
/// log-probability.
pub open spec fn tail_error(pr: Precision, e: real) -> real {
    54real * e + times(40real * e, -(pr.log)(54real * e))
}

/// The exact entropy of the powers at some places, with the rest as one more
/// outcome, is not much above that of all probabilities.
pub(crate) proof fn lemma_folded_entropy(
    pr: Precision,
    g: real,
    e: real,
    b: real,
    n: nat,
    places: Seq<int>,
    p: spec_fn(int) -> real,
    l: spec_fn(int) -> real,
    q: spec_fn(int) -> real,
    h: spec_fn(int) -> real,
    shares: spec_fn(int) -> real,
    total: real,
    tail: real,
)
    requires
        small_unit(pr, g, e, b),
        n as real <= g,
        distinct_places(places, n),
        forall|i: int| #![trigger p(i)] 0 <= i < n ==> probability_fits(pr, g, e, b, p(i), l(i)),
        forall|j: int| #![trigger q(j)]
            0 <= j < places.len() ==> power_fits(pr, g, q(j), l(places[j])),
        forall|i: int| #![trigger h(i)] 0 <= i < n ==> h(i) == -times(p(i), l(i)),
        forall|j: int| #![trigger shares(j)] 0 <= j < places.len() ==> shares(j) == share(pr, q(j)),
        within(sum_of(n, p), 1real, 5real * e),
        within(total, sum_of(places.len(), q), 5real * e),
        0real <= tail,
        within(
            tail,
            if total < 1real {
                1real - total
            } else {
                0real
            },
            e,
        ),
    ensures
        sum_of(places.len(), shares) <= sum_of(n, h) + 16real * times(n as real, e),
        sum_of(places.len(), shares) + share(pr, tail) <= sum_of(n, h) + 16real * times(
            n as real,
            e,
        ) + tail_error(pr, e),
        tail_error(pr, e) >= 0real,
{
    let k = places.len();
    let unseen = apart_from(places, p);
    let unseen_h = apart_from(places, h);
    let seen_h = at_places(places, h);
    lemma_unit_is_small(pr, g, e, b);
    lemma_places_are_few(places, n);
    lemma_powers_add_up(pr, g, e, b, n, places, p, l, q);
    let rest = sum_of(n, unseen);
    assert forall|i: int| #![trigger unseen(i)] 0 <= i < n implies 0real <= unseen(i) by {
        assert(0real <= p(i));
    }
    lemma_sum_of_parts(n, unseen);
    assert(within(tail, rest, 40real * e));
    assert forall|i: int| #![trigger unseen(i)] 0 <= i < n && unseen(i) > 0real implies l(i) <= 0real
        && (pr.exp)(l(i)) <= tail + 54real * e by {
        assert(probability_fits(pr, g, e, b, p(i), l(i)));
        lemma_power_bounded(pr, g, e, b, p(i), l(i));
        assert(unseen(i) <= rest);
    }
    assert forall|i: int| #![trigger unseen_h(i)] 0 <= i < n implies unseen_h(i) == -times(
        unseen(i),
        l(i),
    ) by {
        assert(h(i) == -times(p(i), l(i)));
        lemma_times_sign(0real, l(i));
    }
    lemma_tail_share(pr, n, unseen, l, unseen_h, tail, 40real * e, 54real * e);
    assert forall|j: int| #![trigger shares(j)] 0 <= j < k implies shares(j) <= seen_h(j) + 16real
        * e by {
        assert(h(places[j]) == -times(p(places[j]), l(places[j])));
        assert(probability_fits(pr, g, e, b, p(places[j]), l(places[j])));
        assert(power_fits(pr, g, q(j), l(places[j])));
        lemma_share_near(pr, g, e, b, p(places[j]), q(j), l(places[j]));
    }
    lemma_sum_shifted(k, shares, seen_h, 16real * e);
    lemma_sum_splits(n, places, h);
    lemma_times_order(k as real, n as real, 16real * e);
    lemma_times_multiple(16real, n as real, e);
}

/// Where the powers stand at all places, their exact entropy is not much below
/// that of the probabilities.
pub(crate) proof fn lemma_whole_entropy(
    pr: Precision,
    g: real,
    e: real,
    b: real,
    n: nat,
    places: Seq<int>,
    p: spec_fn(int) -> real,
    l: spec_fn(int) -> real,
    q: spec_fn(int) -> real,
    h: spec_fn(int) -> real,
    shares: spec_fn(int) -> real,
)
    requires
        small_unit(pr, g, e, b),
        distinct_places(places, n),
        places.len() == n,
        forall|i: int| #![trigger p(i)] 0 <= i < n ==> probability_fits(pr, g, e, b, p(i), l(i)),
        forall|j: int| #![trigger q(j)] 0 <= j < n ==> power_fits(pr, g, q(j), l(places[j])),
        forall|i: int| #![trigger h(i)] 0 <= i < n ==> h(i) == -times(p(i), l(i)),
        forall|j: int| #![trigger shares(j)] 0 <= j < n ==> shares(j) == share(pr, q(j)),
    ensures
        sum_of(n, h) <= sum_of(n, shares) + 24real * times(n as real, e),
{
    let unseen_h = apart_from(places, h);
    let seen_h = at_places(places, h);
    lemma_places_are_few(places, n);
    lemma_sum_splits(n, places, h);
    assert forall|i: int| #![trigger unseen_h(i)] 0 <= i < n implies unseen_h(i) <= times(
        0real,
        h(i),
    ) + 0real by {
        assert(places.contains(i));
        lemma_times_sign(0real, h(i));
    }
    lemma_sum_linear(n, unseen_h, h, 0real, 0real);
    lemma_times_sign(0real, sum_of(n, h));
    lemma_times_sign(n as real, 0real);
    assert forall|j: int| #![trigger seen_h(j)] 0 <= j < n implies seen_h(j) <= shares(j) + 24real
        * e by {
        assert(h(places[j]) == -times(p(places[j]), l(places[j])));
        assert(probability_fits(pr, g, e, b, p(places[j]), l(places[j])));
        assert(power_fits(pr, g, q(j), l(places[j])));
        assert(shares(j) == share(pr, q(j)));
        lemma_share_near(pr, g, e, b, p(places[j]), q(j), l(places[j]));
    }
    lemma_sum_shifted(n, seen_h, shares, 24real * e);
    lemma_times_multiple(24real, n as real, e);
}

} // verus!
