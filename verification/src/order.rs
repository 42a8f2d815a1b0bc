//! Selection by order: sorting, the two largest, and the peak.

use crate::float::{
    at_most, below, is_nan, less, precedes, rank, total_rank, Bits, NEGATIVE_INFINITY, ZERO,
};
use crate::sums::distinct_places;
use vstd::prelude::*;

verus! {

/// The encodings stand in descending total order.
pub open spec fn descending(s: Seq<Bits>) -> bool {
    forall|i: int, j: int| 0 <= i <= j < s.len() ==> total_rank(s[j]) <= total_rank(s[i])
}

/// `sorted` holds what `s` holds, in descending total order.
pub open spec fn sorts(s: Seq<Bits>, sorted: Seq<Bits>) -> bool {
    descending(sorted) && sorted.to_multiset() == s.to_multiset()
}

/// The largest and the second largest of some numbers, each negative infinity
/// where there is none. A number that occurs twice can be both; of numbers that
/// compare equal the one that came first is the largest.
pub open spec fn two_largest(s: Seq<Bits>) -> (Bits, Bits)
    decreases s.len(),
{
    if s.len() == 0 {
        (NEGATIVE_INFINITY, NEGATIVE_INFINITY)
    } else {
        let (first, second) = two_largest(s.drop_last());
        let last = s.last();
        if below(first, last) {
            (last, first)
        } else if below(second, last) {
            (first, last)
        } else {
            (first, second)
        }
    }
}

/// `peak` is the place of the greatest encoding in the total order, and the
/// last such place.
pub open spec fn is_peak(s: Seq<Bits>, peak: int) -> bool {
    &&& 0 <= peak < s.len()
    &&& forall|j: int| #![trigger s[j]]
        0 <= j < s.len() ==> total_rank(s[j]) <= total_rank(s[peak])
    &&& forall|j: int| #![trigger s[j]]
        peak < j < s.len() ==> total_rank(s[j]) < total_rank(s[peak])
}

/// Puts `s` into descending total order.
pub fn sort_descending(s: Vec<Bits>) -> (r: Vec<Bits>)
    ensures
        sorts(s@, r@),
{
    let mut r: Vec<Bits> = s;
    let mut i: usize = 0;
    while i < r.len()
        invariant
            i <= r.len(),
            r@.to_multiset() == s@.to_multiset(),
            descending(r@.take(i as int)),
        decreases r.len() - i,
    {
        let mut k: usize = i;
        let ghost before = r@;
        assert forall|a: int, b: int| 0 <= a <= b < i implies total_rank(before[b]) <= total_rank(
            before[a],
        ) by {
            assert(before.take(i as int)[a] == before[a]);
            assert(before.take(i as int)[b] == before[b]);
        }
        while k > 0 && precedes(r[k - 1], r[k])
            invariant
                k <= i < r.len(),
                r@.to_multiset() == s@.to_multiset(),
                r@.len() == before.len(),
                forall|a: int, b: int|
                    0 <= a <= b <= i && a != k && b != k ==> total_rank(r@[b]) <= total_rank(r@[a]),
                forall|b: int| k < b <= i ==> total_rank(#[trigger] r@[b]) <= total_rank(r@[k as int]),
            decreases k,
        {
            let ghost prior = r@;
            let left: Bits = r[k - 1];
            let right: Bits = r[k];
            r.set(k - 1, right);
            r.set(k, left);
            proof {
                lemma_swap_keeps_multiset(prior, k - 1, k as int);
                assert(r@ =~= prior.update(k - 1, prior[k as int]).update(k as int, prior[k - 1]));
            }
            k -= 1;
        }
        i += 1;
    }
    assert(r@.take(r@.len() as int) =~= r@);
    r
}

/// Exchanging two places keeps the multiset.
proof fn lemma_swap_keeps_multiset(s: Seq<Bits>, i: int, j: int)
    requires
        0 <= i < j < s.len(),
    ensures
        s.update(i, s[j]).update(j, s[i]).to_multiset() == s.to_multiset(),
{
    broadcast use vstd::seq_lib::group_to_multiset_ensures;
    assert(s.update(i, s[j])[j] == s[j]);
    assert(s.update(i, s[j]).update(j, s[i]).to_multiset() =~= s.to_multiset());
}

/// The largest and the second largest number of `s`.
pub fn top_two(s: &[Bits]) -> (r: (Bits, Bits))
    ensures
        r == two_largest(s@),
{
    let mut first: Bits = NEGATIVE_INFINITY;
    let mut second: Bits = NEGATIVE_INFINITY;
    let mut i: usize = 0;
    while i < s.len()
        invariant
            i <= s.len(),
            (first, second) == two_largest(s@.take(i as int)),
        decreases s.len() - i,
    {
        let p: Bits = s[i];
        if less(first, p) {
            second = first;
            first = p;
        } else if less(second, p) {
            second = p;
        }
        assert(s@.take(i + 1).drop_last() =~= s@.take(i as int));
        i += 1;
    }
    assert(s@.take(s@.len() as int) =~= s@);
    (first, second)
}

/// The place of the greatest of `s` in the total order, the last such place.
pub fn peak(s: &[Bits]) -> (r: Option<usize>)
    ensures
        match r {
            Some(i) => is_peak(s@, i as int),
            None => s@.len() == 0,
        },
{
    if s.len() == 0 {
        return None;
    }
    let mut best: usize = 0;
    let mut i: usize = 1;
    while i < s.len()
        invariant
            1 <= i <= s.len(),
            is_peak(s@.take(i as int), best as int),
        decreases s.len() - i,
    {
        let ghost seen = s@.take(i as int);
        let ghost next = s@.take(i + 1);
        assert(forall|j: int| 0 <= j < i ==> #[trigger] next[j] == seen[j]);
        if !precedes(s[i], s[best]) {
            best = i;
        }
        i += 1;
    }
    assert(s@.take(s@.len() as int) =~= s@);
    Some(best)
}

/// Only one arrangement of the same encodings is in descending order.
pub proof fn law_sorting_is_determined(s: Seq<Bits>, a: Seq<Bits>, b: Seq<Bits>)
    requires
        sorts(s, a),
        sorts(s, b),
    ensures
        a == b,
{
    let leq = |x: Bits, y: Bits| total_rank(y) <= total_rank(x);
    assert(vstd::relations::sorted_by(a, leq));
    assert(vstd::relations::sorted_by(b, leq));
    assert(vstd::relations::total_ordering(leq));
    vstd::seq_lib::lemma_sorted_unique(a, b, leq);
}

/// There is only one peak.
pub proof fn law_peak_is_determined(s: Seq<Bits>, i: int, j: int)
    requires
        is_peak(s, i),
        is_peak(s, j),
    ensures
        i == j,
{
    assert(total_rank(s[i]) <= total_rank(s[j]));
    assert(total_rank(s[j]) <= total_rank(s[i]));
}

/// The largest two bound all others: apart from one place that holds the
/// largest, no number exceeds the second largest, and the second largest does
/// not exceed the largest.
pub proof fn law_two_largest_bound_all(s: Seq<Bits>)
    ensures
        at_most(two_largest(s).1, two_largest(s).0),
        below(NEGATIVE_INFINITY, two_largest(s).0) ==> exists|k: int|
            0 <= k < s.len() && #[trigger] s[k] == two_largest(s).0 && forall|i: int|
                #![trigger s[i]]
                0 <= i < s.len() && i != k && !is_nan(s[i]) ==> at_most(s[i], two_largest(s).1),
        forall|i: int| #![trigger s[i]]
            0 <= i < s.len() && !is_nan(s[i]) ==> at_most(s[i], two_largest(s).0),
    decreases s.len(),
{
    if s.len() > 0 {
        let rest = s.drop_last();
        let (first, second) = two_largest(rest);
        let (top, next) = two_largest(s);
        let last = s.len() - 1;
        law_two_largest_bound_all(rest);
        assert(s[last] == s.last());
        assert(forall|i: int| 0 <= i < last ==> #[trigger] s[i] == rest[i]);
        if below(first, s.last()) {
            assert forall|i: int|
                #![trigger s[i]]
                0 <= i < s.len() && i != last && !is_nan(s[i]) implies at_most(s[i], next) by {
                assert(rest[i] == s[i]);
            }
            assert(s[last] == top);
        } else if below(NEGATIVE_INFINITY, first) {
            let k = choose|k: int|
                0 <= k < rest.len() && #[trigger] rest[k] == first && forall|i: int|
                    #![trigger rest[i]]
                    0 <= i < rest.len() && i != k && !is_nan(rest[i]) ==> at_most(rest[i], second);
            assert forall|i: int|
                #![trigger s[i]]
                0 <= i < s.len() && i != k && !is_nan(s[i]) implies at_most(s[i], next) by {
                if i < last {
                    assert(rest[i] == s[i]);
                }
            }
            assert(s[k] == top);
        }
        assert forall|i: int| #![trigger s[i]] 0 <= i < s.len() && !is_nan(s[i]) implies at_most(
            s[i],
            top,
        ) by {
            if i < last {
                assert(rest[i] == s[i]);
            }
        }
    }
}

/// Where a sorted list has its items from.
pub(crate) proof fn lemma_sorting_places(listed: Seq<Bits>, sorted: Seq<Bits>) -> (places: Seq<int>)
    requires
        listed.to_multiset() == sorted.to_multiset(),
    ensures
        places.len() == sorted.len(),
        sorted.len() == listed.len(),
        distinct_places(places, listed.len()),
        forall|j: int| #![trigger places[j]] #![trigger sorted[j]]
            0 <= j < sorted.len() ==> sorted[j] == listed[places[j]],
    decreases sorted.len(),
{
    broadcast use vstd::seq_lib::group_to_multiset_ensures;

    listed.to_multiset_ensures();
    sorted.to_multiset_ensures();
    if sorted.len() == 0 {
        Seq::empty()
    } else {
        let last = sorted.last();
        let n = sorted.len() - 1;
        assert(sorted.to_multiset().contains(sorted[n]));
        assert(listed.contains(last));
        let k = choose|k: int| 0 <= k < listed.len() && listed[k] == last;
        let fewer = sorted.drop_last();
        assert(sorted =~= fewer.push(last));
        assert(listed.remove(k).to_multiset() =~= fewer.to_multiset());
        let inner = lemma_sorting_places(listed.remove(k), fewer);
        let outer = Seq::new(
            inner.len(),
            |j: int|
                if inner[j] < k {
                    inner[j]
                } else {
                    inner[j] + 1
                },
        );
        let places = outer.push(k);
        assert forall|j: int| #![trigger places[j]] #![trigger sorted[j]]
            0 <= j < sorted.len() implies sorted[j] == listed[places[j]] && 0 <= places[j]
            < listed.len() && (j < n ==> places[j] != k) by {
            if j < n {
                assert(0 <= inner[j] < listed.remove(k).len());
                assert(fewer[j] == listed.remove(k)[inner[j]]);
            }
        }
        assert forall|i: int, j: int|
            #![trigger places[i], places[j]]
            0 <= i < j < places.len() implies places[i] != places[j] by {
            if j < n {
                assert(inner[i] != inner[j]);
            }
        }
        places
    }
}

/// Where the two largest of some numbers in `[0, 1]` stand.
pub(crate) proof fn lemma_two_largest_places(s: Seq<Bits>) -> (r: (int, int))
    requires
        s.len() > 0,
        forall|i: int| #![trigger s[i]] 0 <= i < s.len() ==> at_most(ZERO, s[i]),
    ensures
        0 <= r.0 < s.len(),
        s[r.0] == two_largest(s).0,
        forall|i: int| #![trigger s[i]] 0 <= i < s.len() ==> rank(s[i]) <= rank(s[r.0]),
        s.len() == 1 ==> two_largest(s).1 == NEGATIVE_INFINITY,
        s.len() > 1 ==> 0 <= r.1 < s.len() && r.1 != r.0 && s[r.1] == two_largest(s).1,
        s.len() > 1 ==> forall|i: int| #![trigger s[i]]
            0 <= i < s.len() && i != r.0 ==> rank(s[i]) <= rank(s[r.1]),
    decreases s.len(),
{
    let n = s.len() - 1;
    let rest = s.drop_last();
    assert(s[n] == s.last());
    assert(forall|i: int| 0 <= i < n ==> #[trigger] rest[i] == s[i]);
    assert(at_most(ZERO, s[n]));
    if n == 0 {
        reveal_with_fuel(two_largest, 2);
        (0, 0)
    } else {
        let (k, j) = lemma_two_largest_places(rest);
        let (first, second) = two_largest(rest);
        assert(at_most(ZERO, s[k]));
        assert forall|i: int| #![trigger s[i]] 0 <= i < n implies rank(s[i]) <= rank(s[k]) && (n > 1
            && i != k ==> rank(s[i]) <= rank(s[j])) by {
            assert(rest[i] == s[i]);
        }
        if below(first, s.last()) {
            (n, k)
        } else if below(second, s.last()) {
            (k, n)
        } else {
            assert(n > 1);
            assert(at_most(ZERO, s[j]));
            (k, j)
        }
    }
}

} // verus!
