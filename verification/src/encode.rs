//! Reports as JSON.

use crate::detector::Report;
use crate::float::Bits;
use crate::json::{
    array_value, bool_value, count_value, empty_object, field, insert_member, json_of, jsons_of,
    null_value, text_value, Json, JsonNumber,
};
use crate::uncertainty::TokenUncertainty;
use serde_json::Value;
use vstd::prelude::*;

verus! {

/// How binary32 numbers are written in JSON.
pub trait Numerals {
    /// The JSON value for a number: the number itself, or null where it is not
    /// finite.
    fn numeral(&self, a: Bits) -> Value;
}

/// `j` can be the JSON value for `a`.
pub open spec fn numeral_is<N: Numerals>(nu: &N, a: Bits, j: Json) -> bool {
    exists|v: Value| #[trigger] call_ensures(N::numeral, (nu, a), v) && json_of(v) == j
}

/// The keys of a token in JSON.
pub open spec fn token_keys() -> Set<Seq<char>> {
    set!["entropy"@, "max_prob"@, "margin"@, "chosen_logprob"@]
}

/// `j` can be the JSON value for a token: an object with its four signals.
pub open spec fn token_encoded<N: Numerals>(nu: &N, u: TokenUncertainty, j: Json) -> bool {
    &&& j is Object
    &&& j->Object_0.dom() == token_keys()
    &&& numeral_is(nu, u.entropy, j->Object_0["entropy"@])
    &&& numeral_is(nu, u.max_prob, j->Object_0["max_prob"@])
    &&& numeral_is(nu, u.margin, j->Object_0["margin"@])
    &&& numeral_is(nu, u.chosen_logprob, j->Object_0["chosen_logprob"@])
}

/// `j` can be the JSON value for some tokens: an array with each in turn.
pub open spec fn tokens_encoded<N: Numerals>(nu: &N, us: Seq<TokenUncertainty>, j: Json) -> bool {
    &&& j is Array
    &&& j->Array_0.len() == us.len()
    &&& forall|i: int|
        #![trigger j->Array_0[i]]
        0 <= i < us.len() ==> token_encoded(nu, us[i], j->Array_0[i])
}

/// The keys of a report in JSON. The tokens are left out where there are none
/// to list.
pub open spec fn report_keys(listed: bool) -> Set<Seq<char>> {
    let always = set![
        "risk_score"@,
        "mean_entropy"@,
        "risky_fraction"@,
        "peak_token"@,
        "n_tokens"@,
        "flagged"@,
        "mode"@,
    ];
    if listed {
        always.insert("per_token"@)
    } else {
        always
    }
}

/// The JSON value for a count.
pub open spec fn count_json(n: usize) -> Json {
    Json::Number(JsonNumber::Unsigned(n as u64))
}

/// `j` can be the JSON value for a report: an object with its fields.
pub open spec fn report_encoded<N: Numerals>(nu: &N, r: Report, j: Json) -> bool {
    &&& j is Object
    &&& j->Object_0.dom() == report_keys(r.per_token is Some)
    &&& numeral_is(nu, r.risk_score, j->Object_0["risk_score"@])
    &&& numeral_is(nu, r.mean_entropy, j->Object_0["mean_entropy"@])
    &&& numeral_is(nu, r.risky_fraction, j->Object_0["risky_fraction"@])
    &&& j->Object_0["peak_token"@] == match r.peak_token {
        Some(i) => count_json(i),
        None => Json::Null,
    }
    &&& j->Object_0["n_tokens"@] == count_json(r.n_tokens)
    &&& j->Object_0["flagged"@] == Json::Bool(r.flagged)
    &&& j->Object_0["mode"@] == Json::Text(r.mode@)
    &&& r.per_token matches Some(us) ==> tokens_encoded(nu, us@, j->Object_0["per_token"@])
}

/// Writes a number.
fn numeral_value<N: Numerals>(nu: &N, a: Bits) -> (r: Value)
    ensures
        numeral_is(nu, a, json_of(r)),
{
    let v: Value = nu.numeral(a);
    assert(call_ensures(N::numeral, (nu, a), v));
    v
}

/// The keys of a token differ in length.
proof fn lemma_token_keys_differ()
    ensures
        "entropy"@.len() == 7,
        "max_prob"@.len() == 8,
        "margin"@.len() == 6,
        "chosen_logprob"@.len() == 14,
{
    reveal_strlit("entropy");
    reveal_strlit("max_prob");
    reveal_strlit("margin");
    reveal_strlit("chosen_logprob");
}

/// The keys of a report differ, all but two of them in length.
proof fn lemma_report_keys_differ()
    ensures
        "risk_score"@.len() == 10,
        "mean_entropy"@.len() == 12,
        "risky_fraction"@.len() == 14,
        "peak_token"@.len() == 10,
        "risk_score"@ != "peak_token"@,
        "n_tokens"@.len() == 8,
        "flagged"@.len() == 7,
        "mode"@.len() == 4,
        "per_token"@.len() == 9,
{
    reveal_strlit("risk_score");
    reveal_strlit("mean_entropy");
    reveal_strlit("risky_fraction");
    reveal_strlit("peak_token");
    reveal_strlit("n_tokens");
    reveal_strlit("flagged");
    reveal_strlit("mode");
    reveal_strlit("per_token");
    assert("risk_score"@[0] != "peak_token"@[0]);
}

/// A token as JSON.
fn token_value<N: Numerals>(nu: &N, u: &TokenUncertainty) -> (r: Value)
    ensures
        token_encoded(nu, *u, json_of(r)),
{
    let mut r: Value = empty_object();
    insert_member(&mut r, "entropy", numeral_value(nu, u.entropy));
    insert_member(&mut r, "max_prob", numeral_value(nu, u.max_prob));
    insert_member(&mut r, "margin", numeral_value(nu, u.margin));
    insert_member(&mut r, "chosen_logprob", numeral_value(nu, u.chosen_logprob));
    proof {
        lemma_token_keys_differ();
        assert(json_of(r)->Object_0.dom() =~= token_keys());
    }
    r
}

/// Some tokens as JSON.
fn tokens_value<N: Numerals>(nu: &N, us: &Vec<TokenUncertainty>) -> (r: Value)
    ensures
        tokens_encoded(nu, us@, json_of(r)),
{
    let mut items: Vec<Value> = Vec::new();
    let mut i: usize = 0;
    while i < us.len()
        invariant
            i <= us.len(),
            items@.len() == i,
            forall|k: int|
                #![trigger items@[k]]
                0 <= k < i ==> token_encoded(nu, us@[k], json_of(items@[k])),
        decreases us.len() - i,
    {
        items.push(token_value(nu, &us[i]));
        i += 1;
    }
    let ghost listed = items@;
    let r: Value = array_value(items);
    assert forall|k: int| 0 <= k < us@.len() implies token_encoded(
        nu,
        us@[k],
        #[trigger] json_of(r)->Array_0[k],
    ) by {
        assert(jsons_of(listed)[k] == json_of(listed[k]));
    }
    r
}

/// A report as JSON.
pub fn report_value<N: Numerals>(nu: &N, report: &Report) -> (r: Value)
    ensures
        report_encoded(nu, *report, json_of(r)),
{
    let mut r: Value = empty_object();
    insert_member(&mut r, "risk_score", numeral_value(nu, report.risk_score));
    insert_member(&mut r, "mean_entropy", numeral_value(nu, report.mean_entropy));
    insert_member(&mut r, "risky_fraction", numeral_value(nu, report.risky_fraction));
    let peak: Value = match report.peak_token {
        Some(i) => count_value(i as u64),
        None => null_value(),
    };
    insert_member(&mut r, "peak_token", peak);
    insert_member(&mut r, "n_tokens", count_value(report.n_tokens as u64));
    insert_member(&mut r, "flagged", bool_value(report.flagged));
    insert_member(&mut r, "mode", text_value(report.mode));
    if let Some(us) = &report.per_token {
        insert_member(&mut r, "per_token", tokens_value(nu, us));
    }
    proof {
        lemma_report_keys_differ();
        assert(json_of(r)->Object_0.dom() =~= report_keys(report.per_token is Some));
    }
    r
}

/// The JSON value for a report has a member for each of its figures, and no
/// other: numbers for the scores, counts for the tokens, null where there is no
/// peak, and the tokens where they are listed.
pub proof fn law_report_members_are_its_figures<N: Numerals>(nu: &N, r: Report, j: Json)
    requires
        report_encoded(nu, r, j),
    ensures
        field(j, "risk_score"@) matches Some(v) && numeral_is(nu, r.risk_score, v),
        field(j, "mean_entropy"@) matches Some(v) && numeral_is(nu, r.mean_entropy, v),
        field(j, "risky_fraction"@) matches Some(v) && numeral_is(nu, r.risky_fraction, v),
        r.peak_token matches Some(i) ==> field(j, "peak_token"@) == Some(
            Json::Number(JsonNumber::Unsigned(i as u64)),
        ),
        r.peak_token is None ==> field(j, "peak_token"@) == Some(Json::Null),
        field(j, "n_tokens"@) == Some(Json::Number(JsonNumber::Unsigned(r.n_tokens as u64))),
        field(j, "flagged"@) == Some(Json::Bool(r.flagged)),
        field(j, "mode"@) == Some(Json::Text(r.mode@)),
        r.per_token is None ==> field(j, "per_token"@) is None,
        r.per_token matches Some(us) ==> (field(j, "per_token"@) matches Some(Json::Array(items))
            && items.len() == us@.len() && forall|i: int|
            #![trigger items[i]]
            0 <= i < us@.len() ==> token_encoded(nu, us@[i], items[i])),
        forall|key: Seq<char>| #[trigger]
            field(j, key) is Some ==> key == "risk_score"@ || key == "mean_entropy"@ || key
                == "risky_fraction"@ || key == "peak_token"@ || key == "n_tokens"@ || key
                == "flagged"@ || key == "mode"@ || key == "per_token"@,
{
    lemma_report_keys_differ();
    let m = j->Object_0;
    assert(m.dom() == report_keys(r.per_token is Some));
    assert(m.contains_key("risk_score"@) && m.contains_key("mean_entropy"@) && m.contains_key(
        "risky_fraction"@,
    ) && m.contains_key("peak_token"@) && m.contains_key("n_tokens"@) && m.contains_key(
        "flagged"@,
    ) && m.contains_key("mode"@));
    assert(m.contains_key("per_token"@) <==> r.per_token is Some);
}

/// The JSON value for a token has a member for each of its four signals, and no
/// other.
pub proof fn law_token_members_are_its_signals<N: Numerals>(nu: &N, u: TokenUncertainty, j: Json)
    requires
        token_encoded(nu, u, j),
    ensures
        field(j, "entropy"@) matches Some(v) && numeral_is(nu, u.entropy, v),
        field(j, "max_prob"@) matches Some(v) && numeral_is(nu, u.max_prob, v),
        field(j, "margin"@) matches Some(v) && numeral_is(nu, u.margin, v),
        field(j, "chosen_logprob"@) matches Some(v) && numeral_is(nu, u.chosen_logprob, v),
        forall|key: Seq<char>| #[trigger]
            field(j, key) is Some ==> key == "entropy"@ || key == "max_prob"@ || key == "margin"@
                || key == "chosen_logprob"@,
{
    let m = j->Object_0;
    assert(m.contains_key("entropy"@) && m.contains_key("max_prob"@) && m.contains_key("margin"@)
        && m.contains_key("chosen_logprob"@));
}

} // verus!
