//! Binary32 numbers as bit patterns: their order, their extremes and some
//! constants.
//!
//! A number is carried as the `u32` that holds its IEEE 754 encoding. The order
//! of two numbers is the order of two integers that are read off the encodings,
//! so every comparison is decided here, without floating-point hardware.

use vstd::prelude::*;

verus! {

/// The encoding of a binary32 number.
pub type Bits = u32;

/// The encoding of a binary64 number.
pub type WideBits = u64;

/// `0.0`.
pub const ZERO: Bits = 0x0000_0000;

/// `-0.0`.
pub const NEGATIVE_ZERO: Bits = 0x8000_0000;

/// `1.0`.
pub const ONE: Bits = 0x3f80_0000;

/// Positive infinity.
pub const INFINITY: Bits = 0x7f80_0000;

/// Negative infinity.
pub const NEGATIVE_INFINITY: Bits = 0xff80_0000;

/// Negative infinity in binary64.
pub const WIDE_NEGATIVE_INFINITY: WideBits = 0xfff0_0000_0000_0000;

/// The number without its sign, as an integer that grows with it.
pub open spec fn magnitude(a: Bits) -> int {
    if a < NEGATIVE_ZERO {
        a as int
    } else {
        a - NEGATIVE_ZERO
    }
}

/// The encoding stands for no number.
pub open spec fn is_nan(a: Bits) -> bool {
    magnitude(a) > INFINITY
}

/// The encoding stands for a number that is not infinite.
pub open spec fn is_finite(a: Bits) -> bool {
    magnitude(a) < INFINITY
}

/// The encoding stands for a binary64 number that is not infinite.
pub open spec fn is_wide_finite(a: WideBits) -> bool {
    a < 0x7ff0_0000_0000_0000 || 0x8000_0000_0000_0000 <= a < WIDE_NEGATIVE_INFINITY
}

/// The place of a number among the numbers: both zeros stand at 0.
pub open spec fn rank(a: Bits) -> int {
    if a < NEGATIVE_ZERO {
        magnitude(a)
    } else {
        -magnitude(a)
    }
}

/// The place of an encoding in the total order, which also separates the two
/// zeros and puts the encodings that stand for no number at both ends.
pub open spec fn total_rank(a: Bits) -> int {
    if a < NEGATIVE_ZERO {
        magnitude(a)
    } else {
        -magnitude(a) - 1
    }
}

/// `a < b`: false as soon as one of them is not a number.
pub open spec fn below(a: Bits, b: Bits) -> bool {
    !is_nan(a) && !is_nan(b) && rank(a) < rank(b)
}

/// `a <= b`: false as soon as one of them is not a number.
pub open spec fn at_most(a: Bits, b: Bits) -> bool {
    !is_nan(a) && !is_nan(b) && rank(a) <= rank(b)
}

/// The larger of two numbers. One that is not a number gives way to the other,
/// and of two that compare equal the second is taken.
pub open spec fn larger(a: Bits, b: Bits) -> Bits {
    if is_nan(b) || below(b, a) {
        a
    } else {
        b
    }
}

/// The smaller of two numbers. One that is not a number gives way to the other,
/// and of two that compare equal the second is taken.
pub open spec fn smaller(a: Bits, b: Bits) -> Bits {
    if is_nan(b) || below(a, b) {
        a
    } else {
        b
    }
}

/// A number moved to the nearest end of `[0, 1]` if it lies outside. What is
/// not a number stays as it is.
pub open spec fn in_unit(a: Bits) -> Bits {
    if below(a, ZERO) {
        ZERO
    } else if below(ONE, a) {
        ONE
    } else {
        a
    }
}

/// The largest of some numbers, starting from negative infinity.
pub open spec fn largest(s: Seq<Bits>) -> Bits
    decreases s.len(),
{
    if s.len() == 0 {
        NEGATIVE_INFINITY
    } else {
        larger(largest(s.drop_last()), s.last())
    }
}

/// Whether `a` stands for no number.
pub fn test_nan(a: Bits) -> (r: bool)
    ensures
        r == is_nan(a),
{
    if a < NEGATIVE_ZERO {
        a > INFINITY
    } else {
        a - NEGATIVE_ZERO > INFINITY
    }
}

/// Whether `a < b`.
pub fn less(a: Bits, b: Bits) -> (r: bool)
    ensures
        r == below(a, b),
{
    if test_nan(a) || test_nan(b) {
        false
    } else if a < NEGATIVE_ZERO {
        b < NEGATIVE_ZERO && a < b
    } else if b < NEGATIVE_ZERO {
        a > NEGATIVE_ZERO || b > ZERO
    } else {
        a > b
    }
}

/// Whether `a >= b`.
pub fn reaches(a: Bits, b: Bits) -> (r: bool)
    ensures
        r == at_most(b, a),
{
    !test_nan(a) && !test_nan(b) && !less(a, b)
}

/// Whether `a` stands before `b` in the total order of encodings.
pub fn precedes(a: Bits, b: Bits) -> (r: bool)
    ensures
        r == (total_rank(a) < total_rank(b)),
{
    if a < NEGATIVE_ZERO {
        b < NEGATIVE_ZERO && a < b
    } else {
        b < NEGATIVE_ZERO || a > b
    }
}

/// The larger of two numbers.
pub fn max(a: Bits, b: Bits) -> (r: Bits)
    ensures
        r == larger(a, b),
{
    if test_nan(b) || less(b, a) {
        a
    } else {
        b
    }
}

/// The smaller of two numbers.
pub fn min(a: Bits, b: Bits) -> (r: Bits)
    ensures
        r == smaller(a, b),
{
    if test_nan(b) || less(a, b) {
        a
    } else {
        b
    }
}

/// A number clamped to `[0, 1]`.
pub fn clamp_unit(a: Bits) -> (r: Bits)
    ensures
        r == in_unit(a),
{
    if less(a, ZERO) {
        ZERO
    } else if less(ONE, a) {
        ONE
    } else {
        a
    }
}

/// The largest of some numbers, starting from negative infinity.
pub fn max_of(s: &[Bits]) -> (r: Bits)
    ensures
        r == largest(s@),
{
    let mut best: Bits = NEGATIVE_INFINITY;
    let mut i: usize = 0;
    while i < s.len()
        invariant
            i <= s.len(),
            best == largest(s@.take(i as int)),
        decreases s.len() - i,
    {
        best = max(best, s[i]);
        assert(s@.take(i + 1).drop_last() =~= s@.take(i as int));
        i += 1;
    }
    assert(s@.take(s@.len() as int) =~= s@);
    best
}

/// The total order never ranks two different encodings alike.
pub proof fn law_total_order_separates(a: Bits, b: Bits)
    ensures
        total_rank(a) == total_rank(b) <==> a == b,
{
}

/// A clamped number lies in `[0, 1]`, unless it was not a number.
pub proof fn law_clamped_lies_in_unit(a: Bits)
    ensures
        !is_nan(a) ==> at_most(ZERO, in_unit(a)) && at_most(in_unit(a), ONE),
        is_nan(a) ==> in_unit(a) == a,
{
}

/// The larger of anything and zero is a number, and is not negative.
pub proof fn law_larger_than_zero_is_not_negative(a: Bits)
    ensures
        at_most(ZERO, larger(a, ZERO)),
{
}

/// The largest is one of the numbers, or negative infinity, and nothing among
/// them that is a number exceeds it.
pub proof fn law_largest_bounds_all(s: Seq<Bits>)
    ensures
        largest(s) == NEGATIVE_INFINITY || s.contains(largest(s)),
        !is_nan(largest(s)),
        forall|i: int| #![trigger s[i]]
            0 <= i < s.len() && !is_nan(s[i]) ==> at_most(s[i], largest(s)),
    decreases s.len(),
{
    if s.len() > 0 {
        let rest = s.drop_last();
        law_largest_bounds_all(rest);
        assert(s[s.len() - 1] == s.last());
        if rest.contains(largest(rest)) {
            let k = choose|k: int| 0 <= k < rest.len() && rest[k] == largest(rest);
            assert(s[k] == largest(rest));
        }
        assert forall|i: int| 0 <= i < s.len() && !is_nan(#[trigger] s[i]) implies at_most(
            s[i],
            largest(s),
        ) by {
            if i < s.len() - 1 {
                assert(rest[i] == s[i]);
            }
        }
    }
}

} // verus!
