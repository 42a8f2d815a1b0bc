//! The settings of the proxy, and where its requests go.

use crate::text::{decimal_value, is_decimal, number_in, parse_u16, parse_u32, trim_end, trimmed};
use vstd::prelude::*;
use vstd::string::*;

verus! {

/// The settings of the proxy.
pub struct Settings {
    /// The base URL of the server behind the proxy, without a slash at its end.
    pub upstream: String,
    /// The port to listen on.
    pub port: u16,
    /// How many of the largest log-probabilities are asked for.
    pub top_logprobs: u32,
    /// Whether a report lists its tokens.
    pub per_token: bool,
}

/// The port to listen on, unless another is given.
pub const DEFAULT_PORT: u16 = 8099;

/// How many log-probabilities are asked for, unless another number is given.
pub const DEFAULT_TOP_LOGPROBS: u32 = 10;

/// The largest body, in bytes, of a request that is passed through.
pub const MAX_BODY: usize = 67_108_864;

/// The base URL of the server behind the proxy, unless another is given.
pub open spec fn default_upstream() -> Seq<char> {
    "http://127.0.0.1:8080"@
}

/// The number in a variable, up to `max`. Where there is no variable or no such
/// number in it, `default` applies.
pub open spec fn number_or(variable: Option<&str>, max: nat, default: nat) -> nat {
    match variable {
        Some(text) => match number_in(text@, max) {
            Some(n) => n,
            None => default,
        },
        None => default,
    }
}

impl Settings {
    /// The settings that the variables `PROBE_UPSTREAM`, `PROBE_PORT`,
    /// `PROBE_TOP_LOGPROBS` and `PROBE_PER_TOKEN` give. Of the last it matters
    /// only whether it is there.
    pub fn from_variables(
        upstream: Option<&str>,
        port: Option<&str>,
        top_logprobs: Option<&str>,
        per_token: bool,
    ) -> (r: Settings)
        ensures
            r.upstream@ == trimmed(
                match upstream {
                    Some(url) => url@,
                    None => default_upstream(),
                },
                '/',
            ),
            r.port == number_or(port, u16::MAX as nat, DEFAULT_PORT as nat),
            r.top_logprobs == number_or(
                top_logprobs,
                u32::MAX as nat,
                DEFAULT_TOP_LOGPROBS as nat,
            ),
            r.per_token == per_token,
            upstream is None ==> r.upstream@ == trimmed("http://127.0.0.1:8080"@, '/'),
            port is None ==> r.port == 8099,
            top_logprobs is None ==> r.top_logprobs == 10,
    {
        let base: &str = match upstream {
            Some(url) => url,
            None => "http://127.0.0.1:8080",
        };
        let port: u16 = match port {
            Some(text) => match parse_u16(text) {
                Some(n) => n,
                None => DEFAULT_PORT,
            },
            None => DEFAULT_PORT,
        };
        let top_logprobs: u32 = match top_logprobs {
            Some(text) => match parse_u32(text) {
                Some(n) => n,
                None => DEFAULT_TOP_LOGPROBS,
            },
            None => DEFAULT_TOP_LOGPROBS,
        };
        Settings { upstream: trim_end(base, '/').to_owned(), port, top_logprobs, per_token }
    }

    /// The URL of a path on the server behind the proxy.
    pub fn url(&self, path: &str) -> (r: String)
        ensures
            r@ == self.upstream@ + path@,
    {
        self.upstream.clone().concat(path)
    }
}

/// A trimmed text does not end in the character that was trimmed, and only such
/// characters were trimmed.
pub proof fn law_trimmed_ends_otherwise(s: Seq<char>, c: char)
    ensures
        trimmed(s, c).len() > 0 ==> trimmed(s, c).last() != c,
        trimmed(s, c).len() <= s.len(),
        trimmed(s, c) == s.take(trimmed(s, c).len() as int),
        forall|i: int| #![trigger s[i]] trimmed(s, c).len() <= i < s.len() ==> s[i] == c,
    decreases s.len(),
{
    if s.len() > 0 && s.last() == c {
        law_trimmed_ends_otherwise(s.drop_last(), c);
        assert(s.drop_last().take(trimmed(s, c).len() as int) =~= s.take(
            trimmed(s, c).len() as int,
        ));
        assert(forall|i: int| 0 <= i < s.len() - 1 ==> #[trigger] s[i] == s.drop_last()[i]);
    } else {
        assert(s.take(s.len() as int) =~= s);
    }
}

/// A variable that spells a number up to the limit gives that number, and
/// anything else gives the default.
pub proof fn law_variables_give_numbers_or_default(
    text: &str,
    digits: Seq<char>,
    max: nat,
    default: nat,
)
    requires
        is_decimal(digits),
    ensures
        (text@ == digits || text@ == seq!['+'] + digits) && decimal_value(digits) <= max
            ==> number_or(Some(text), max, default) == decimal_value(digits),
        (text@ == digits || text@ == seq!['+'] + digits) && decimal_value(digits) > max
            ==> number_or(Some(text), max, default) == default,
        !is_decimal(text@) && !(text@.len() > 0 && text@[0] == '+' && is_decimal(text@.skip(1)))
            ==> number_or(Some(text), max, default) == default,
        number_or(None, max, default) == default,
{
    assert('0' <= digits[0] <= '9');
    assert((seq!['+'] + digits).skip(1) =~= digits);
}

} // verus!
