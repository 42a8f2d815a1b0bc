//! The arithmetic that the detector computes with.
//!
//! Every operation on binary32 numbers that rounds is a method of
//! [`Arithmetic`], on encodings. Nothing is assumed of what an operation
//! returns: each contract of the library speaks of the numbers that the
//! operations did return, through the relations below, and holds for every
//! implementation.

use crate::float::{Bits, WideBits};
use vstd::prelude::*;

verus! {

/// The rounding operations on binary32 numbers, on their encodings.
pub trait Arithmetic {
    /// `a + b`.
    fn plus(&self, a: Bits, b: Bits) -> Bits;

    /// `a - b`.
    fn minus(&self, a: Bits, b: Bits) -> Bits;

    /// `a * b`.
    fn times(&self, a: Bits, b: Bits) -> Bits;

    /// `a / b`.
    fn over(&self, a: Bits, b: Bits) -> Bits;

    /// `e` to the power `a`.
    fn exp(&self, a: Bits) -> Bits;

    /// The natural logarithm of `a`.
    fn ln(&self, a: Bits) -> Bits;

    /// The number nearest to a count.
    fn count(&self, n: usize) -> Bits;

    /// The binary32 number nearest to a binary64 number.
    fn narrow(&self, wide: WideBits) -> Bits;
}

/// `r` can be the sum `a + b`.
pub open spec fn sum_is<A: Arithmetic>(ar: &A, a: Bits, b: Bits, r: Bits) -> bool {
    call_ensures(A::plus, (ar, a, b), r)
}

/// `r` can be the difference `a - b`.
pub open spec fn difference_is<A: Arithmetic>(ar: &A, a: Bits, b: Bits, r: Bits) -> bool {
    call_ensures(A::minus, (ar, a, b), r)
}

/// `r` can be the product `a * b`.
pub open spec fn product_is<A: Arithmetic>(ar: &A, a: Bits, b: Bits, r: Bits) -> bool {
    call_ensures(A::times, (ar, a, b), r)
}

/// `r` can be the quotient `a / b`.
pub open spec fn quotient_is<A: Arithmetic>(ar: &A, a: Bits, b: Bits, r: Bits) -> bool {
    call_ensures(A::over, (ar, a, b), r)
}

/// `r` can be `e` to the power `a`.
pub open spec fn exp_is<A: Arithmetic>(ar: &A, a: Bits, r: Bits) -> bool {
    call_ensures(A::exp, (ar, a), r)
}

/// `r` can be the natural logarithm of `a`.
pub open spec fn ln_is<A: Arithmetic>(ar: &A, a: Bits, r: Bits) -> bool {
    call_ensures(A::ln, (ar, a), r)
}

/// `r` can be the number that stands for the count `n`.
pub open spec fn count_is<A: Arithmetic>(ar: &A, n: usize, r: Bits) -> bool {
    call_ensures(A::count, (ar, n), r)
}

/// `r` can be the binary32 number for the binary64 number `wide`.
pub open spec fn narrow_is<A: Arithmetic>(ar: &A, wide: WideBits, r: Bits) -> bool {
    call_ensures(A::narrow, (ar, wide), r)
}

/// `r` can be the sum of `s`, added up from `start` in the order of `s`.
pub open spec fn total_is<A: Arithmetic>(ar: &A, start: Bits, s: Seq<Bits>, r: Bits) -> bool
    decreases s.len(),
{
    if s.len() == 0 {
        r == start
    } else {
        exists|partial: Bits|
            #![trigger sum_is(ar, partial, s.last(), r)]
            total_is(ar, start, s.drop_last(), partial) && sum_is(ar, partial, s.last(), r)
    }
}

/// `r` can be the mean of `s`: its sum, over its length.
pub open spec fn mean_is<A: Arithmetic>(ar: &A, start: Bits, s: Seq<Bits>, r: Bits) -> bool {
    exists|total: Bits, n: Bits| #![trigger total_is(ar, start, s, total), count_is(ar, s.len() as usize, n)]
        total_is(ar, start, s, total) && count_is(ar, s.len() as usize, n) && quotient_is(ar, total, n, r)
}

/// `r` can hold, place by place, `e` to the powers in `s`.
pub open spec fn exps_are<A: Arithmetic>(ar: &A, s: Seq<Bits>, r: Seq<Bits>) -> bool {
    r.len() == s.len() && forall|i: int|
        #![trigger r[i]]
        0 <= i < s.len() ==> exp_is(ar, s[i], r[i])
}

/// `r` can hold, place by place, the binary32 numbers for those in `s`.
pub open spec fn narrows_are<A: Arithmetic>(ar: &A, s: Seq<WideBits>, r: Seq<Bits>) -> bool {
    r.len() == s.len() && forall|i: int|
        #![trigger r[i]]
        0 <= i < s.len() ==> narrow_is(ar, s[i], r[i])
}

/// Adds up `s` from `start`, in order.
pub fn total<A: Arithmetic>(ar: &A, start: Bits, s: &[Bits]) -> (r: Bits)
    ensures
        total_is(ar, start, s@, r),
{
    let mut acc: Bits = start;
    let mut i: usize = 0;
    while i < s.len()
        invariant
            i <= s.len(),
            total_is(ar, start, s@.take(i as int), acc),
        decreases s.len() - i,
    {
        let ghost before = acc;
        acc = ar.plus(acc, s[i]);
        proof {
            assert(s@.take(i + 1).drop_last() =~= s@.take(i as int));
            assert(sum_is(ar, before, s@.take(i + 1).last(), acc));
        }
        i += 1;
    }
    assert(s@.take(s@.len() as int) =~= s@);
    acc
}

/// The mean of `s`.
pub fn mean<A: Arithmetic>(ar: &A, start: Bits, s: &[Bits]) -> (r: Bits)
    ensures
        mean_is(ar, start, s@, r),
{
    let sum: Bits = total(ar, start, s);
    let n: Bits = ar.count(s.len());
    let r: Bits = ar.over(sum, n);
    assert(total_is(ar, start, s@, sum) && count_is(ar, s@.len() as usize, n));
    r
}

/// `e` to each of the powers in `s`.
pub fn exps<A: Arithmetic>(ar: &A, s: &[Bits]) -> (r: Vec<Bits>)
    ensures
        exps_are(ar, s@, r@),
{
    let mut r: Vec<Bits> = Vec::new();
    let mut i: usize = 0;
    while i < s.len()
        invariant
            i <= s.len(),
            r@.len() == i,
            forall|j: int| #![trigger r@[j]] 0 <= j < i ==> exp_is(ar, s@[j], r@[j]),
        decreases s.len() - i,
    {
        let e: Bits = ar.exp(s[i]);
        assert(exp_is(ar, s@[i as int], e));
        r.push(e);
        i += 1;
    }
    r
}

/// The binary32 numbers for those in `s`.
pub fn narrow_all<A: Arithmetic>(ar: &A, s: &[WideBits]) -> (r: Vec<Bits>)
    ensures
        narrows_are(ar, s@, r@),
{
    let mut r: Vec<Bits> = Vec::new();
    let mut i: usize = 0;
    while i < s.len()
        invariant
            i <= s.len(),
            r@.len() == i,
            forall|j: int| #![trigger r@[j]] 0 <= j < i ==> narrow_is(ar, s@[j], r@[j]),
        decreases s.len() - i,
    {
        let e: Bits = ar.narrow(s[i]);
        assert(narrow_is(ar, s@[i as int], e));
        r.push(e);
        i += 1;
    }
    r
}

} // verus!
