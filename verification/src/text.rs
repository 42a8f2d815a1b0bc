//! Operations of the standard library on text.

use vstd::prelude::*;

verus! {

/// `str == str` of the standard library: two texts are equal when they hold
/// the same characters.
#[verifier::external_body]
pub(crate) fn same_text(a: &str, b: &str) -> (r: bool)
    ensures
        r == (a@ == b@),
{
    a == b
}

/// A text without the characters `c` at its end.
pub open spec fn trimmed(s: Seq<char>, c: char) -> Seq<char>
    decreases s.len(),
{
    if s.len() > 0 && s.last() == c {
        trimmed(s.drop_last(), c)
    } else {
        s
    }
}

/// Decimal digits, and at least one.
pub open spec fn is_decimal(s: Seq<char>) -> bool {
    s.len() > 0 && forall|i: int| #![trigger s[i]] 0 <= i < s.len() ==> '0' <= s[i] <= '9'
}

/// The number that decimal digits spell.
pub open spec fn decimal_value(s: Seq<char>) -> nat
    decreases s.len(),
{
    if s.len() == 0 {
        0
    } else {
        decimal_value(s.drop_last()) * 10 + (s.last() as nat - '0' as nat) as nat
    }
}

/// The number that a text spells, up to `max`: decimal digits, with or without a
/// plus sign before them.
pub open spec fn number_in(s: Seq<char>, max: nat) -> Option<nat> {
    let digits = if s.len() > 0 && s[0] == '+' {
        s.skip(1)
    } else {
        s
    };
    if is_decimal(digits) && decimal_value(digits) <= max {
        Some(decimal_value(digits))
    } else {
        None
    }
}

/// `str::trim_end_matches` of the standard library, with a character: the text
/// without the occurrences of it at the end.
#[verifier::external_body]
pub(crate) fn trim_end(s: &str, c: char) -> (r: &str)
    ensures
        r@ == trimmed(s@, c),
{
    s.trim_end_matches(c)
}

/// `str::parse` of the standard library to a `u16`: an optional plus sign and
/// decimal digits, if the number fits.
#[verifier::external_body]
pub(crate) fn parse_u16(s: &str) -> (r: Option<u16>)
    ensures
        match r {
            Some(n) => number_in(s@, u16::MAX as nat) == Some(n as nat),
            None => number_in(s@, u16::MAX as nat) is None,
        },
{
    s.parse().ok()
}

/// `str::parse` of the standard library to a `u32`: an optional plus sign and
/// decimal digits, if the number fits.
#[verifier::external_body]
pub(crate) fn parse_u32(s: &str) -> (r: Option<u32>)
    ensures
        match r {
            Some(n) => number_in(s@, u32::MAX as nat) == Some(n as nat),
            None => number_in(s@, u32::MAX as nat) is None,
        },
{
    s.parse().ok()
}

} // verus!
