//! From an upstream response to a report on it.
//!
//! Two shapes of response carry log-probabilities. In the chat shape,
//! `choices[0].logprobs.content[i]` is `{logprob, top_logprobs: [{logprob}]}`.
//! In the legacy shape, `choices[0].logprobs` is
//! `{token_logprobs: [number], top_logprobs: [{token: number}]}`.

use crate::arithmetic::{narrow_all, narrow_is, narrows_are, Arithmetic};
use crate::bounds::{
    faithful, figures_in_unit, holds_numbers, is_number, law_largest_probability_lies_in_unit,
    law_report_figures_lie_in_unit, lemma_narrows_are_numbers,
};
use crate::detector::{default_config, report_is, Detector, DetectorConfig, Report};
use crate::encode::{report_encoded, report_value, Numerals};
use crate::float::{is_nan, Bits, WideBits, WIDE_NEGATIVE_INFINITY};
use crate::json::{
    as_array, as_wide_bits, bits_of, element, field, is_null, item, json_of, jsons_of, lists_keys,
    member, object_values, Json,
};
use crate::uncertainty::{from_top_logprobs_is, TokenUncertainty};
use serde_json::Value;
use vstd::prelude::*;

verus! {

/// The log-probabilities that a response gives for one token, as binary64
/// encodings.
pub struct TokenLogprobs {
    /// That of the token itself.
    pub chosen: WideBits,
    /// The largest of its distribution.
    pub tops: Vec<WideBits>,
}

impl View for TokenLogprobs {
    type V = (WideBits, Seq<WideBits>);

    open spec fn view(&self) -> (WideBits, Seq<WideBits>) {
        (self.chosen, self.tops@)
    }
}

/// The views of some tokens.
pub open spec fn views(tokens: Seq<TokenLogprobs>) -> Seq<(WideBits, Seq<WideBits>)> {
    tokens.map_values(|t: TokenLogprobs| t@)
}

/// The response has no first choice.
pub open spec fn no_choices() -> Seq<char> {
    "no choices in upstream response"@
}

/// The first choice has no log-probabilities.
pub open spec fn no_logprobs() -> Seq<char> {
    "upstream returned no logprobs (server too old, or logprobs unsupported on this endpoint)"@
}

/// The log-probabilities have neither shape.
pub open spec fn unknown_shape() -> Seq<char> {
    "unrecognized logprobs shape"@
}

/// There is no token among the log-probabilities.
pub open spec fn no_tokens() -> Seq<char> {
    "no tokens with logprobs in upstream response"@
}

/// The first choice of a response.
pub open spec fn first_choice(response: Json) -> Option<Json> {
    match field(response, "choices"@) {
        Some(choices) => element(choices, 0),
        None => None,
    }
}

/// The log-probabilities of a choice: its member `logprobs`, unless that is
/// null.
pub open spec fn logprobs_of(choice: Json) -> Option<Json> {
    match field(choice, "logprobs"@) {
        Some(Json::Null) => None,
        found => found,
    }
}

/// The items of an array under a key.
pub open spec fn array_under(j: Json, key: Seq<char>) -> Option<Seq<Json>> {
    match field(j, key) {
        Some(Json::Array(items)) => Some(items),
        _ => None,
    }
}

/// The number that stands under a key.
pub open spec fn number_under(j: Json, key: Seq<char>) -> Option<WideBits> {
    match field(j, key) {
        Some(n) => bits_of(n),
        None => None,
    }
}

/// A log-probability, or negative infinity where there is none.
pub open spec fn or_impossible(logprob: Option<WideBits>) -> WideBits {
    match logprob {
        Some(bits) => bits,
        None => WIDE_NEGATIVE_INFINITY,
    }
}

/// What is there, in order, without what is not.
pub open spec fn present(s: Seq<Option<WideBits>>) -> Seq<WideBits>
    decreases s.len(),
{
    if s.len() == 0 {
        Seq::empty()
    } else {
        match s.last() {
            Some(bits) => present(s.drop_last()).push(bits),
            None => present(s.drop_last()),
        }
    }
}

/// The log-probabilities of a token in the chat shape.
pub open spec fn chat_token(token: Json) -> (WideBits, Seq<WideBits>) {
    (
        or_impossible(number_under(token, "logprob"@)),
        match array_under(token, "top_logprobs"@) {
            Some(tops) => present(tops.map_values(|t: Json| number_under(t, "logprob"@))),
            None => Seq::empty(),
        },
    )
}

/// `tops` are the numbers among the members of the object at a place of an
/// array, in the order of their keys. Where there is no array, no such place or
/// no object at it, there are none.
pub open spec fn legacy_tops(array: Option<Seq<Json>>, place: int, tops: Seq<WideBits>) -> bool {
    match array {
        Some(items) => if 0 <= place < items.len() && items[place] is Object {
            exists|keys: Seq<Seq<char>>|
                #![trigger lists_keys(items[place]->Object_0, keys)]
                lists_keys(items[place]->Object_0, keys) && tops == present(
                    keys.map_values(|k: Seq<char>| bits_of(items[place]->Object_0[k])),
                )
        } else {
            tops.len() == 0
        },
        None => tops.len() == 0,
    }
}

/// `tokens` are the tokens in the legacy shape.
pub open spec fn legacy_tokens(
    logprobs: Json,
    chosen: Seq<Json>,
    tokens: Seq<(WideBits, Seq<WideBits>)>,
) -> bool {
    tokens.len() == chosen.len() && forall|i: int|
        #![trigger tokens[i]]
        0 <= i < chosen.len() ==> tokens[i].0 == or_impossible(bits_of(chosen[i])) && legacy_tops(
            array_under(logprobs, "top_logprobs"@),
            i,
            tokens[i].1,
        )
}

/// The response is refused for this reason before any token is read.
pub open spec fn refusal(response: Json) -> Option<Seq<char>> {
    match first_choice(response) {
        None => Some(no_choices()),
        Some(choice) => match logprobs_of(choice) {
            None => Some(no_logprobs()),
            Some(logprobs) => if array_under(logprobs, "content"@) is None && array_under(
                logprobs,
                "token_logprobs"@,
            ) is None {
                Some(unknown_shape())
            } else {
                None
            },
        },
    }
}

/// `tokens` are the tokens of a response that is not refused. The chat shape
/// comes first.
pub open spec fn tokens_are(response: Json, tokens: Seq<(WideBits, Seq<WideBits>)>) -> bool {
    let logprobs = logprobs_of(first_choice(response)->0)->0;
    match array_under(logprobs, "content"@) {
        Some(content) => tokens == content.map_values(|t: Json| chat_token(t)),
        None => legacy_tokens(logprobs, array_under(logprobs, "token_logprobs"@)->0, tokens),
    }
}

/// The numbers that stand under a key in some JSON values.
fn numbers_under(items: &Vec<Value>, key: &str) -> (r: Vec<WideBits>)
    ensures
        r@ == present(jsons_of(items@).map_values(|t: Json| number_under(t, key@))),
        forall|i: int| #![trigger r@[i]] 0 <= i < r@.len() ==> is_number(r@[i]),
{
    let ghost found = jsons_of(items@).map_values(|t: Json| number_under(t, key@));
    let mut r: Vec<WideBits> = Vec::new();
    let mut i: usize = 0;
    while i < items.len()
        invariant
            i <= items.len(),
            found == jsons_of(items@).map_values(|t: Json| number_under(t, key@)),
            r@ == present(found.take(i as int)),
            forall|k: int| #![trigger r@[k]] 0 <= k < r@.len() ==> is_number(r@[k]),
        decreases items.len() - i,
    {
        let number: Option<WideBits> = match member(&items[i], key) {
            Some(v) => as_wide_bits(v),
            None => None,
        };
        assert(number == found[i as int]);
        assert(found.take(i + 1).drop_last() =~= found.take(i as int));
        match number {
            Some(bits) => {
                r.push(bits);
            },
            None => {},
        }
        i += 1;
    }
    assert(found.take(found.len() as int) =~= found);
    r
}

/// The numbers among some JSON values.
fn numbers_among(items: &Vec<&Value>) -> (r: Vec<WideBits>)
    ensures
        r@ == present(items@.map_values(|v: &Value| bits_of(json_of(*v)))),
        forall|i: int| #![trigger r@[i]] 0 <= i < r@.len() ==> is_number(r@[i]),
{
    let ghost found = items@.map_values(|v: &Value| bits_of(json_of(*v)));
    let mut r: Vec<WideBits> = Vec::new();
    let mut i: usize = 0;
    while i < items.len()
        invariant
            i <= items.len(),
            found == items@.map_values(|v: &Value| bits_of(json_of(*v))),
            r@ == present(found.take(i as int)),
            forall|k: int| #![trigger r@[k]] 0 <= k < r@.len() ==> is_number(r@[k]),
        decreases items.len() - i,
    {
        let number: Option<WideBits> = as_wide_bits(items[i]);
        assert(number == found[i as int]);
        assert(found.take(i + 1).drop_last() =~= found.take(i as int));
        match number {
            Some(bits) => {
                r.push(bits);
            },
            None => {},
        }
        i += 1;
    }
    assert(found.take(found.len() as int) =~= found);
    r
}

/// A log-probability, or negative infinity where there is none.
fn logprob_or_impossible(logprob: Option<WideBits>) -> (r: WideBits)
    ensures
        r == or_impossible(logprob),
{
    match logprob {
        Some(bits) => bits,
        None => WIDE_NEGATIVE_INFINITY,
    }
}

/// The array under a key.
fn array_member<'a>(value: &'a Value, key: &str) -> (r: Option<&'a Vec<Value>>)
    ensures
        match r {
            Some(items) => array_under(json_of(*value), key@) == Some(jsons_of(items@)),
            None => array_under(json_of(*value), key@) is None,
        },
{
    match member(value, key) {
        Some(v) => as_array(v),
        None => None,
    }
}

/// Reads a token in the chat shape.
fn read_chat_token(token: &Value) -> (r: TokenLogprobs)
    ensures
        r@ == chat_token(json_of(*token)),
        holds_numbers(r@),
{
    let logprob: Option<WideBits> = match member(token, "logprob") {
        Some(v) => as_wide_bits(v),
        None => None,
    };
    let tops: Vec<WideBits> = match array_member(token, "top_logprobs") {
        Some(items) => numbers_under(items, "logprob"),
        None => Vec::new(),
    };
    assert(tops@ =~= chat_token(json_of(*token)).1);
    TokenLogprobs { chosen: logprob_or_impossible(logprob), tops }
}

/// Reads the largest log-probabilities of a token in the legacy shape.
fn read_legacy_tops(array: Option<&Vec<Value>>, place: usize) -> (r: Vec<WideBits>)
    ensures
        legacy_tops(
            match array {
                Some(items) => Some(jsons_of(items@)),
                None => None,
            },
            place as int,
            r@,
        ),
        forall|i: int| #![trigger r@[i]] 0 <= i < r@.len() ==> is_number(r@[i]),
{
    match array {
        Some(items) => {
            if place < items.len() {
                let ghost at = jsons_of(items@)[place as int];
                match object_values(&items[place]) {
                    Some(members) => {
                        let r: Vec<WideBits> = numbers_among(&members);
                        proof {
                            let (m, keys) = choose|m: Map<Seq<char>, Json>, keys: Seq<Seq<char>>|
                                #![trigger lists_keys(m, keys)]
                                {
                                    &&& at == Json::Object(m)
                                    &&& lists_keys(m, keys)
                                    &&& members@.len() == keys.len()
                                    &&& forall|i: int|
                                        #![trigger members@[i]]
                                        0 <= i < keys.len() ==> json_of(*members@[i]) == m[keys[i]]
                                };
                            assert(members@.map_values(|v: &Value| bits_of(json_of(*v)))
                                =~= keys.map_values(|k: Seq<char>| bits_of(at->Object_0[k])));
                            assert(lists_keys(at->Object_0, keys));
                        }
                        r
                    },
                    None => Vec::new(),
                }
            } else {
                Vec::new()
            }
        },
        None => Vec::new(),
    }
}

/// Everything that is given for some tokens is a number.
pub open spec fn all_hold_numbers(tokens: Seq<(WideBits, Seq<WideBits>)>) -> bool {
    forall|i: int| #![trigger tokens[i]] 0 <= i < tokens.len() ==> holds_numbers(tokens[i])
}

/// Reads the log-probabilities of every token of a response, or says why there
/// are none.
pub fn token_logprobs(response: &Value) -> (r: Result<Vec<TokenLogprobs>, &'static str>)
    ensures
        match r {
            Ok(tokens) => refusal(json_of(*response)) is None && tokens_are(
                json_of(*response),
                views(tokens@),
            ) && all_hold_numbers(views(tokens@)),
            Err(reason) => refusal(json_of(*response)) == Some(reason@),
        },
{
    let choice: Option<&Value> = match member(response, "choices") {
        Some(choices) => item(choices, 0),
        None => None,
    };
    let choice: &Value = match choice {
        Some(c) => c,
        None => {
            return Err("no choices in upstream response");
        },
    };
    let logprobs: &Value = match member(choice, "logprobs") {
        Some(lp) => {
            if is_null(lp) {
                return Err(
                    "upstream returned no logprobs (server too old, or logprobs unsupported on this endpoint)",
                );
            }
            lp
        },
        None => {
            return Err(
                "upstream returned no logprobs (server too old, or logprobs unsupported on this endpoint)",
            );
        },
    };
    let mut tokens: Vec<TokenLogprobs> = Vec::new();
    if let Some(content) = array_member(logprobs, "content") {
        let ghost wanted = jsons_of(content@).map_values(|t: Json| chat_token(t));
        let mut i: usize = 0;
        while i < content.len()
            invariant
                i <= content.len(),
                wanted == jsons_of(content@).map_values(|t: Json| chat_token(t)),
                tokens@.len() == i,
                forall|j: int|
                    #![trigger tokens@[j]]
                    0 <= j < i ==> tokens@[j]@ == wanted[j] && holds_numbers(tokens@[j]@),
            decreases content.len() - i,
        {
            let token = read_chat_token(&content[i]);
            assert(token@ == wanted[i as int]);
            tokens.push(token);
            i += 1;
        }
        assert(views(tokens@) =~= wanted);
        return Ok(tokens);
    }
    if let Some(chosen) = array_member(logprobs, "token_logprobs") {
        let array: Option<&Vec<Value>> = array_member(logprobs, "top_logprobs");
        let ghost tops = array_under(json_of(*logprobs), "top_logprobs"@);
        let mut i: usize = 0;
        while i < chosen.len()
            invariant
                i <= chosen.len(),
                tops == match array {
                    Some(items) => Some(jsons_of(items@)),
                    None => None,
                },
                tokens@.len() == i,
                forall|j: int|
                    #![trigger tokens@[j]]
                    0 <= j < i ==> tokens@[j].chosen == or_impossible(
                        bits_of(jsons_of(chosen@)[j]),
                    ) && legacy_tops(tops, j, tokens@[j].tops@) && holds_numbers(tokens@[j]@),
            decreases chosen.len() - i,
        {
            let token = TokenLogprobs {
                chosen: logprob_or_impossible(as_wide_bits(&chosen[i])),
                tops: read_legacy_tops(array, i),
            };
            tokens.push(token);
            i += 1;
        }
        assert(legacy_tokens(json_of(*logprobs), jsons_of(chosen@), views(tokens@)));
        return Ok(tokens);
    }
    Err("unrecognized logprobs shape")
}

/// `u` can be the uncertainty of a token with these log-probabilities.
pub open spec fn token_observed<A: Arithmetic>(
    ar: &A,
    token: (WideBits, Seq<WideBits>),
    u: TokenUncertainty,
) -> bool {
    exists|chosen: Bits, tops: Seq<Bits>| #[trigger]
        narrow_is(ar, token.0, chosen) && #[trigger] narrows_are(ar, token.1, tops)
            && from_top_logprobs_is(ar, chosen, tops, u)
}

/// `us` can be the uncertainties of these tokens.
pub open spec fn tokens_observed<A: Arithmetic>(
    ar: &A,
    tokens: Seq<(WideBits, Seq<WideBits>)>,
    us: Seq<TokenUncertainty>,
) -> bool {
    us.len() == tokens.len() && forall|i: int|
        #![trigger us[i]]
        0 <= i < tokens.len() ==> token_observed(ar, tokens[i], us[i])
}

/// How many tokens a response that is not refused has.
pub open spec fn token_count(response: Json) -> nat {
    let logprobs = logprobs_of(first_choice(response)->0)->0;
    match array_under(logprobs, "content"@) {
        Some(content) => content.len(),
        None => array_under(logprobs, "token_logprobs"@)->0.len(),
    }
}

/// The reason for which there is no report on a response.
pub open spec fn shortcoming(response: Json) -> Option<Seq<char>> {
    match refusal(response) {
        Some(reason) => Some(reason),
        None => if token_count(response) == 0 {
            Some(no_tokens())
        } else {
            None
        },
    }
}

/// `report` can be the report on a response: on the uncertainty of each of its
/// tokens, against the usual bars. What the response gives for them are numbers.
pub open spec fn assessed<A: Arithmetic>(
    ar: &A,
    response: Json,
    per_token: bool,
    report: Report,
) -> bool {
    exists|tokens: Seq<(WideBits, Seq<WideBits>)>, us: Seq<TokenUncertainty>| #[trigger]
        tokens_are(response, tokens) && #[trigger] tokens_observed(ar, tokens, us)
            && all_hold_numbers(tokens) && report_is(
            ar,
            default_config(),
            us,
            true,
            per_token,
            report,
        )
}

/// Runs the detector over the tokens of a response.
pub fn assess<A: Arithmetic>(ar: &A, response: &Value, per_token: bool) -> (r: Result<
    Report,
    &'static str,
>)
    ensures
        match r {
            Ok(report) => shortcoming(json_of(*response)) is None && assessed(
                ar,
                json_of(*response),
                per_token,
                report,
            ),
            Err(reason) => shortcoming(json_of(*response)) == Some(reason@),
        },
{
    let tokens: Vec<TokenLogprobs> = match token_logprobs(response) {
        Ok(tokens) => tokens,
        Err(reason) => {
            return Err(reason);
        },
    };
    let mut detector = Detector::new(DetectorConfig::default());
    let mut i: usize = 0;
    while i < tokens.len()
        invariant
            i <= tokens.len(),
            detector.config() == default_config(),
            detector.approximate() == (i > 0),
            detector.observed().len() == i,
            forall|j: int|
                #![trigger detector.observed()[j]]
                0 <= j < i ==> token_observed(ar, tokens@[j]@, detector.observed()[j]),
        decreases tokens.len() - i,
    {
        let ghost before = detector.observed();
        let chosen: Bits = ar.narrow(tokens[i].chosen);
        let tops: Vec<Bits> = narrow_all(ar, tokens[i].tops.as_slice());
        detector.observe_top_logprobs(ar, chosen, tops.as_slice());
        proof {
            let u = choose|u: TokenUncertainty| #[trigger]
                from_top_logprobs_is(ar, chosen, tops@, u) && detector.observed() == before.push(u);
            assert(narrow_is(ar, tokens@[i as int]@.0, chosen));
            assert(narrows_are(ar, tokens@[i as int]@.1, tops@));
            assert(token_observed(ar, tokens@[i as int]@, u));
        }
        i += 1;
    }
    assert(views(tokens@).len() == token_count(json_of(*response)));
    if detector.is_empty() {
        return Err("no tokens with logprobs in upstream response");
    }
    let ghost us = detector.observed();
    let report = detector.report(ar, per_token);
    proof {
        assert(tokens_observed(ar, views(tokens@), us));
        assert(tokens_are(json_of(*response), views(tokens@)));
    }
    Ok(report)
}

/// `j` can be the JSON value for the report on a response.
pub open spec fn analyzed<A: Arithmetic + Numerals>(
    ar: &A,
    response: Json,
    per_token: bool,
    j: Json,
) -> bool {
    exists|report: Report| #[trigger]
        assessed(ar, response, per_token, report) && report_encoded(ar, report, j)
}

/// Pulls the log-probabilities of every token out of a response, in either
/// shape, and runs the detector: the report as JSON, or the reason why there is
/// none.
pub fn analyze<A: Arithmetic + Numerals>(ar: &A, response: &Value, per_token: bool) -> (r: Result<
    Value,
    &'static str,
>)
    ensures
        match r {
            Ok(v) => shortcoming(json_of(*response)) is None && analyzed(
                ar,
                json_of(*response),
                per_token,
                json_of(v),
            ),
            Err(reason) => shortcoming(json_of(*response)) == Some(reason@),
        },
{
    match assess(ar, response, per_token) {
        Ok(report) => Ok(report_value(ar, &report)),
        Err(reason) => Err(reason),
    }
}

/// A report on a response counts its tokens, and says that they were observed
/// through top log-probabilities.
pub proof fn law_report_counts_tokens<A: Arithmetic>(
    ar: &A,
    response: Json,
    per_token: bool,
    report: Report,
)
    requires
        shortcoming(response) is None,
        assessed(ar, response, per_token, report),
    ensures
        report.n_tokens == token_count(response),
        report.n_tokens > 0,
        report.mode@ == "top_logprobs"@,
        report.peak_token is Some,
        report.per_token is Some <==> per_token,
{
}

/// Of a response, only the log-probabilities of its first choice matter.
pub proof fn law_only_first_choice_matters<A: Arithmetic>(
    ar: &A,
    response: Json,
    other: Json,
    per_token: bool,
    report: Report,
)
    requires
        first_choice(response) is Some,
        first_choice(other) is Some,
        field(first_choice(response)->0, "logprobs"@) == field(
            first_choice(other)->0,
            "logprobs"@,
        ),
    ensures
        shortcoming(response) == shortcoming(other),
        assessed(ar, response, per_token, report) <==> assessed(ar, other, per_token, report),
{
    assert(forall|tokens: Seq<(WideBits, Seq<WideBits>)>| #[trigger]
        tokens_are(response, tokens) <==> tokens_are(other, tokens));
    assert(forall|tokens: Seq<(WideBits, Seq<WideBits>)>| #[trigger]
        tokens_are(other, tokens) <==> tokens_are(response, tokens));
}

/// With faithful rounding, the largest probability of an observed token is a
/// number.
proof fn lemma_observed_probability_is_number<A: Arithmetic>(
    ar: &A,
    token: (WideBits, Seq<WideBits>),
    u: TokenUncertainty,
)
    requires
        faithful(ar),
        holds_numbers(token),
        token_observed(ar, token, u),
    ensures
        !is_nan(u.max_prob),
{
    let (chosen, tops) = choose|chosen: Bits, tops: Seq<Bits>| #[trigger]
        narrow_is(ar, token.0, chosen) && #[trigger] narrows_are(ar, token.1, tops)
            && from_top_logprobs_is(ar, chosen, tops, u);
    lemma_narrows_are_numbers(ar, token.1, tops);
    law_largest_probability_lies_in_unit(ar, chosen, tops, u);
}

/// With faithful rounding, the risk score and the fraction of risky tokens of
/// the report on a response lie in `[0, 1]`.
pub proof fn law_assessed_figures_lie_in_unit<A: Arithmetic>(
    ar: &A,
    response: Json,
    per_token: bool,
    report: Report,
)
    requires
        faithful(ar),
        assessed(ar, response, per_token, report),
    ensures
        figures_in_unit(report),
{
    let (tokens, us) = choose|
        tokens: Seq<(WideBits, Seq<WideBits>)>,
        us: Seq<TokenUncertainty>,
    | #[trigger]
        tokens_are(response, tokens) && #[trigger] tokens_observed(ar, tokens, us)
            && all_hold_numbers(tokens) && report_is(
            ar,
            default_config(),
            us,
            true,
            per_token,
            report,
        );
    assert forall|i: int| #![trigger us[i]] 0 <= i < us.len() implies !is_nan(us[i].max_prob) by {
        assert(holds_numbers(tokens[i]));
        lemma_observed_probability_is_number(ar, tokens[i], us[i]);
    }
    law_report_figures_lie_in_unit(ar, default_config(), us, true, per_token, report);
}

} // verus!
