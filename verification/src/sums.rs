//! Products and sums of real numbers.

use vstd::prelude::*;

verus! {

/// The product of two real numbers. It is opaque, so that proofs about many
/// products go by the facts below and stay linear.
#[verifier::opaque]
pub open spec fn times(a: real, b: real) -> real {
    a * b
}

/// A product grows with its factors.
pub(crate) proof fn lemma_times_order(a: real, b: real, c: real)
    requires
        a <= b,
        0real <= c,
    ensures
        times(a, c) <= times(b, c),
        times(c, a) <= times(c, b),
{
    reveal(times);
    assert(a * c <= b * c && c * a <= c * b) by (nonlinear_arith)
        requires
            a <= b,
            0real <= c,
    ;
}

/// Factors can be exchanged, signs taken out, and zero and one left out.
pub(crate) proof fn lemma_times_sign(a: real, b: real)
    ensures
        times(a, b) == times(b, a),
        times(a, -b) == -times(a, b),
        times(-a, b) == -times(a, b),
        times(0real, b) == 0real,
        times(a, 0real) == 0real,
        times(a, 1real) == a,
        times(1real, b) == b,
{
    reveal(times);
    assert(a * b == b * a) by (nonlinear_arith);
    assert(a * -b == -(a * b)) by (nonlinear_arith);
    assert(-a * b == -(a * b)) by (nonlinear_arith);
    assert(0real * b == 0real && a * 0real == 0real) by (nonlinear_arith);
    assert(a * 1real == a && 1real * b == b) by (nonlinear_arith);
}

/// A product distributes over sums and differences.
pub(crate) proof fn lemma_times_sum(a: real, b: real, c: real)
    ensures
        times(a + b, c) == times(a, c) + times(b, c),
        times(c, a + b) == times(c, a) + times(c, b),
        times(a - b, c) == times(a, c) - times(b, c),
        times(c, a - b) == times(c, a) - times(c, b),
{
    reveal(times);
    assert((a + b) * c == a * c + b * c) by (nonlinear_arith);
    assert(c * (a + b) == c * a + c * b) by (nonlinear_arith);
    assert((a - b) * c == a * c - b * c) by (nonlinear_arith);
    assert(c * (a - b) == c * a - c * b) by (nonlinear_arith);
}

/// Factors can be regrouped.
pub(crate) proof fn lemma_times_regroup(a: real, b: real, c: real)
    ensures
        times(times(a, b), c) == times(a, times(b, c)),
        times(a, times(b, c)) == times(b, times(a, c)),
{
    reveal(times);
    assert((a * b) * c == a * (b * c)) by (nonlinear_arith);
    assert(a * (b * c) == b * (a * c)) by (nonlinear_arith);
}

/// A multiple of a factor makes a multiple of the product.
pub(crate) proof fn lemma_times_multiple(k: real, a: real, b: real)
    ensures
        times(k * a, b) == k * times(a, b),
        times(a, k * b) == k * times(a, b),
{
    reveal(times);
    assert((k * a) * b == k * (a * b)) by (nonlinear_arith);
    assert(a * (k * b) == k * (a * b)) by (nonlinear_arith);
}

/// A product of positive numbers is positive.
pub(crate) proof fn lemma_times_positive(a: real, b: real)
    requires
        0real < a,
        0real < b,
    ensures
        0real < times(a, b),
{
    reveal(times);
    assert(0real < a * b) by (nonlinear_arith)
        requires
            0real < a,
            0real < b,
    ;
}

/// One over a number, opaque like [`times`].
#[verifier::opaque]
pub open spec fn inverse(a: real) -> real {
    1real / a
}

/// One over a number from one up lies above zero and not above one.
pub(crate) proof fn lemma_inverse(a: real)
    requires
        1real <= a,
    ensures
        0real < inverse(a) <= 1real,
        times(inverse(a), a) == 1real,
{
    reveal(times);
    reveal(inverse);
    let c = 1real / a;
    assert(c * a == 1real) by (nonlinear_arith)
        requires
            c == 1real / a,
            1real <= a,
    ;
    assert(0real < c <= 1real) by (nonlinear_arith)
        requires
            c * a == 1real,
            1real <= a,
    ;
}

/// The sum of the first `n` values of `f`.
pub open spec fn sum_of(n: nat, f: spec_fn(int) -> real) -> real
    decreases n,
{
    if n == 0 {
        0real
    } else {
        sum_of((n - 1) as nat, f) + f(n - 1)
    }
}

/// The places are different ones of the first `n`.
pub open spec fn distinct_places(places: Seq<int>, n: nat) -> bool {
    &&& forall|j: int| #![trigger places[j]] 0 <= j < places.len() ==> 0 <= places[j] < n
    &&& forall|j: int, k: int|
        #![trigger places[j], places[k]]
        0 <= j < k < places.len() ==> places[j] != places[k]
}

/// `f` away from some places, and zero at them.
pub open spec fn apart_from(places: Seq<int>, f: spec_fn(int) -> real) -> spec_fn(int) -> real {
    |i: int|
        if places.contains(i) {
            0real
        } else {
            f(i)
        }
}

/// `f` at some places, in their order.
pub open spec fn at_places(places: Seq<int>, f: spec_fn(int) -> real) -> spec_fn(int) -> real {
    |j: int| f(places[j])
}

/// A linear bound on values carries over to sums.
pub(crate) proof fn lemma_sum_linear(
    n: nat,
    f: spec_fn(int) -> real,
    g: spec_fn(int) -> real,
    a: real,
    b: real,
)
    requires
        forall|i: int| #![trigger f(i)] 0 <= i < n ==> f(i) <= times(a, g(i)) + b,
    ensures
        sum_of(n, f) <= times(a, sum_of(n, g)) + times(n as real, b),
    decreases n,
{
    if n > 0 {
        let m = (n - 1) as nat;
        lemma_sum_linear(m, f, g, a, b);
        assert(f(n - 1) <= times(a, g(n - 1)) + b);
        lemma_times_sum(sum_of(m, g), g(n - 1), a);
        lemma_times_sum(m as real, 1real, b);
        lemma_times_sign(1real, b);
        assert(n as real == m as real + 1real);
    } else {
        lemma_times_sign(a, 0real);
        lemma_times_sign(0real, b);
    }
}

/// Values that exceed others by at most `b` have a sum that exceeds theirs by as
/// much each.
pub(crate) proof fn lemma_sum_shifted(
    n: nat,
    f: spec_fn(int) -> real,
    g: spec_fn(int) -> real,
    b: real,
)
    requires
        forall|i: int| #![trigger f(i)] 0 <= i < n ==> f(i) <= g(i) + b,
    ensures
        sum_of(n, f) <= sum_of(n, g) + times(n as real, b),
{
    assert forall|i: int| #![trigger f(i)] 0 <= i < n implies f(i) <= times(1real, g(i)) + b by {
        lemma_times_sign(1real, g(i));
    }
    lemma_sum_linear(n, f, g, 1real, b);
    lemma_times_sign(1real, sum_of(n, g));
}

/// Equal values have equal sums.
pub(crate) proof fn lemma_sum_equal(n: nat, f: spec_fn(int) -> real, g: spec_fn(int) -> real)
    requires
        forall|i: int| #![trigger f(i)] #![trigger g(i)] 0 <= i < n ==> f(i) == g(i),
    ensures
        sum_of(n, f) == sum_of(n, g),
    decreases n,
{
    if n > 0 {
        lemma_sum_equal((n - 1) as nat, f, g);
        assert(f(n - 1) == g(n - 1));
    }
}

/// A sum of differences is the difference of the sums.
pub(crate) proof fn lemma_sum_difference(
    n: nat,
    f: spec_fn(int) -> real,
    g: spec_fn(int) -> real,
    h: spec_fn(int) -> real,
)
    requires
        forall|i: int| #![trigger h(i)] 0 <= i < n ==> h(i) == f(i) - g(i),
    ensures
        sum_of(n, h) == sum_of(n, f) - sum_of(n, g),
    decreases n,
{
    if n > 0 {
        lemma_sum_difference((n - 1) as nat, f, g, h);
        assert(h(n - 1) == f(n - 1) - g(n - 1));
    }
}

/// A sum of multiples is the multiple of the sum.
pub(crate) proof fn lemma_sum_scaled(
    n: nat,
    f: spec_fn(int) -> real,
    c: real,
    g: spec_fn(int) -> real,
)
    requires
        forall|i: int| #![trigger g(i)] 0 <= i < n ==> g(i) == times(c, f(i)),
    ensures
        sum_of(n, g) == times(c, sum_of(n, f)),
    decreases n,
{
    if n > 0 {
        let m = (n - 1) as nat;
        lemma_sum_scaled(m, f, c, g);
        assert(g(n - 1) == times(c, f(n - 1)));
        lemma_times_sum(sum_of(m, f), f(n - 1), c);
    } else {
        lemma_times_sign(c, 0real);
    }
}

/// Values that are not negative have a sum that is not negative, and that none of
/// them exceeds.
pub(crate) proof fn lemma_sum_of_parts(n: nat, f: spec_fn(int) -> real)
    requires
        forall|i: int| #![trigger f(i)] 0 <= i < n ==> 0real <= f(i),
    ensures
        0real <= sum_of(n, f),
        forall|i: int| #![trigger f(i)] 0 <= i < n ==> f(i) <= sum_of(n, f),
    decreases n,
{
    if n > 0 {
        lemma_sum_of_parts((n - 1) as nat, f);
        assert(0real <= f(n - 1));
    }
}

/// Values that differ at one place have sums that differ by as much.
proof fn lemma_sum_differs_at(
    n: nat,
    f: spec_fn(int) -> real,
    g: spec_fn(int) -> real,
    k: int,
)
    requires
        0 <= k < n,
        forall|i: int| #![trigger f(i)] #![trigger g(i)] 0 <= i < n && i != k ==> f(i) == g(i),
    ensures
        sum_of(n, f) - sum_of(n, g) == f(k) - g(k),
    decreases n,
{
    let m = (n - 1) as nat;
    if k == m {
        lemma_sum_equal(m, f, g);
    } else {
        lemma_sum_differs_at(m, f, g, k);
        assert(f(n - 1) == g(n - 1));
    }
}

/// A sum splits into the values at some places and the others.
pub(crate) proof fn lemma_sum_splits(n: nat, places: Seq<int>, f: spec_fn(int) -> real)
    requires
        distinct_places(places, n),
    ensures
        sum_of(n, f) == sum_of(places.len(), at_places(places, f)) + sum_of(
            n,
            apart_from(places, f),
        ),
    decreases places.len(),
{
    if places.len() == 0 {
        lemma_sum_equal(n, f, apart_from(places, f));
    } else {
        let rest = places.drop_last();
        let k = places.last();
        assert(forall|j: int| 0 <= j < rest.len() ==> #[trigger] rest[j] == places[j]);
        assert(places[places.len() - 1] == k);
        lemma_sum_splits(n, rest, f);
        lemma_sum_equal(rest.len(), at_places(rest, f), at_places(places, f));
        assert(!rest.contains(k)) by {
            if rest.contains(k) {
                let j = choose|j: int| 0 <= j < rest.len() && rest[j] == k;
                assert(places[j] == places[places.len() - 1]);
            }
        }
        assert(places.contains(k));
        assert forall|i: int| #![trigger apart_from(rest, f)(i)]
            #![trigger apart_from(places, f)(i)]
            0 <= i < n && i != k implies apart_from(rest, f)(i) == apart_from(places, f)(i) by {
            if places.contains(i) {
                let j = choose|j: int| 0 <= j < places.len() && places[j] == i;
                assert(rest[j] == i);
            }
            if rest.contains(i) {
                let j = choose|j: int| 0 <= j < rest.len() && rest[j] == i;
                assert(places[j] == i);
            }
        }
        lemma_sum_differs_at(n, apart_from(rest, f), apart_from(places, f), k);
    }
}

/// A sum of zeros is zero.
pub(crate) proof fn lemma_sum_of_nothing(n: nat, none: spec_fn(int) -> real)
    requires
        forall|i: int| #![trigger none(i)] 0 <= i < n ==> none(i) == 0real,
    ensures
        sum_of(n, none) == 0real,
    decreases n,
{
    if n > 0 {
        lemma_sum_of_nothing((n - 1) as nat, none);
        assert(none(n - 1) == 0real);
    }
}

/// A sum of ones is their number.
proof fn lemma_sum_of_ones(n: nat, one: spec_fn(int) -> real)
    requires
        forall|i: int| #![trigger one(i)] 0 <= i < n ==> one(i) == 1real,
    ensures
        sum_of(n, one) == n as real,
    decreases n,
{
    if n > 0 {
        lemma_sum_of_ones((n - 1) as nat, one);
        assert(one(n - 1) == 1real);
    }
}

/// There are no more different places than there are places, and where there are
/// as many, they are all of them.
pub(crate) proof fn lemma_places_are_few(places: Seq<int>, n: nat)
    requires
        distinct_places(places, n),
    ensures
        places.len() <= n,
        places.len() == n ==> forall|i: int| 0 <= i < n ==> #[trigger] places.contains(i),
{
    let one = |i: int| 1real;
    let others = apart_from(places, one);
    lemma_sum_splits(n, places, one);
    lemma_sum_of_ones(n, one);
    lemma_sum_of_ones(places.len(), at_places(places, one));
    lemma_sum_of_parts(n, others);
    if places.len() == n {
        assert forall|i: int| 0 <= i < n implies #[trigger] places.contains(i) by {
            assert(others(i) <= sum_of(n, others));
        }
    }
}

} // verus!
