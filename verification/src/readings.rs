//! What is read of a response: every log-probability in it, and nothing else.

use crate::analysis::{
    all_hold_numbers, array_under, assessed, chat_token, legacy_tops, number_under, present,
    shortcoming, token_observed, tokens_are, tokens_observed,
};
use crate::arithmetic::{narrow_is, narrows_are, Arithmetic};
use crate::detector::{default_config, report_is, Report};
use crate::encode::{law_report_members_are_its_figures, report_encoded, Numerals};
use crate::float::{Bits, WideBits, WIDE_NEGATIVE_INFINITY};
use crate::json::{
    bits_of, field, json_of, key_before, lists_keys, number_bits, Json, JsonNumber,
};
use crate::proxy::{concluded, law_successful_answer_gains_report_or_reason, Reply};
use crate::uncertainty::{from_top_logprobs_is, TokenUncertainty};
use vstd::prelude::*;

verus! {

/// `read` holds what stands at `places`, which are all places, in order, where
/// something stands.
pub open spec fn reads_all(
    found: Seq<Option<WideBits>>,
    places: Seq<int>,
    read: Seq<WideBits>,
) -> bool {
    &&& places.len() == read.len()
    &&& forall|k: int|
        #![trigger places[k]]
        0 <= k < places.len() ==> 0 <= places[k] < found.len() && found[places[k]] == Some(read[k])
    &&& forall|j: int, k: int|
        #![trigger places[j], places[k]]
        0 <= j < k < places.len() ==> places[j] < places[k]
    &&& forall|i: int|
        #![trigger found[i]]
        0 <= i < found.len() && found[i] is Some ==> places.contains(i)
}

/// The places at which something stands.
proof fn lemma_places_present(found: Seq<Option<WideBits>>) -> (places: Seq<int>)
    ensures
        reads_all(found, places, present(found)),
    decreases found.len(),
{
    if found.len() == 0 {
        let places = Seq::<int>::empty();
        assert(reads_all(found, places, present(found)));
        places
    } else {
        let shorter = found.drop_last();
        let before = lemma_places_present(shorter);
        let last = found.len() - 1;
        let places = if found.last() is Some {
            before.push(last)
        } else {
            before
        };
        assert forall|k: int| #![trigger places[k]] 0 <= k < places.len() implies 0 <= places[k]
            < found.len() && found[places[k]] == Some(present(found)[k]) by {
            if k < before.len() {
                assert(places[k] == before[k]);
                assert(shorter[before[k]] == found[before[k]]);
            }
        }
        assert forall|j: int, k: int|
            #![trigger places[j], places[k]]
            0 <= j < k < places.len() implies places[j] < places[k] by {
            assert(places[j] == before[j]);
            if k < before.len() {
                assert(places[k] == before[k]);
            }
        }
        assert forall|i: int|
            #![trigger found[i]]
            0 <= i < found.len() && found[i] is Some implies places.contains(i) by {
            if i < last {
                assert(shorter[i] == found[i]);
                assert(before.contains(i));
                let k = choose|k: int| 0 <= k < before.len() && before[k] == i;
                assert(places[k] == i);
            } else {
                assert(places[places.len() - 1] == i);
            }
        }
        places
    }
}

/// Where something stands at every place, all of it is read, in order.
proof fn lemma_all_present(found: Seq<Option<WideBits>>)
    requires
        forall|i: int| #![trigger found[i]] 0 <= i < found.len() ==> found[i] is Some,
    ensures
        present(found).len() == found.len(),
        forall|i: int|
            #![trigger present(found)[i]]
            0 <= i < found.len() ==> found[i] == Some(present(found)[i]),
    decreases found.len(),
{
    if found.len() > 0 {
        let shorter = found.drop_last();
        assert forall|i: int| #![trigger shorter[i]] 0 <= i < shorter.len() implies shorter[
            i
        ] is Some by {
            assert(shorter[i] == found[i]);
        }
        lemma_all_present(shorter);
        assert(found[found.len() - 1] is Some);
        assert forall|i: int| #![trigger present(found)[i]] 0 <= i < found.len() implies found[i]
            == Some(present(found)[i]) by {
            if i < shorter.len() {
                assert(present(found)[i] == present(shorter)[i]);
                assert(shorter[i] == found[i]);
            }
        }
    }
}

/// The first choice of a response has these log-probabilities.
pub open spec fn carries(response: Json, logprobs: Json) -> bool {
    field(response, "choices"@) matches Some(Json::Array(choices)) && choices.len() > 0 && field(
        choices[0],
        "logprobs"@,
    ) == Some(logprobs)
}

/// The number under `logprob` in each item, where there is one.
pub open spec fn listed_numbers(items: Seq<Json>) -> Seq<Option<WideBits>> {
    Seq::new(
        items.len(),
        |k: int|
            match field(items[k], "logprob"@) {
                Some(Json::Number(n)) => Some(number_bits(n)),
                _ => None,
            },
    )
}

/// In the chat shape, a token is read for each item of `content`: its number
/// under `logprob`, or negative infinity where there is none, and every number
/// that stands under `logprob` in an item of its `top_logprobs`, in order.
pub proof fn law_chat_tokens_are_read_whole(
    response: Json,
    logprobs: Json,
    content: Seq<Json>,
    tokens: Seq<(WideBits, Seq<WideBits>)>,
    i: int,
)
    requires
        carries(response, logprobs),
        field(logprobs, "content"@) == Some(Json::Array(content)),
        tokens_are(response, tokens),
    ensures
        tokens.len() == content.len(),
        0 <= i < content.len() ==> tokens[i].0 == match field(content[i], "logprob"@) {
            Some(Json::Number(n)) => number_bits(n),
            _ => WIDE_NEGATIVE_INFINITY,
        },
        0 <= i < content.len() ==> match field(content[i], "top_logprobs"@) {
            Some(Json::Array(tops)) => exists|places: Seq<int>| #[trigger]
                reads_all(listed_numbers(tops), places, tokens[i].1),
            _ => tokens[i].1.len() == 0,
        },
{
    assert(array_under(logprobs, "content"@) == Some(content));
    if 0 <= i < content.len() {
        if let Some(Json::Array(tops)) = field(content[i], "top_logprobs"@) {
            let found = listed_numbers(tops);
            assert(found =~= tops.map_values(|t: Json| number_under(t, "logprob"@)));
            let places = lemma_places_present(found);
            assert(tokens[i] == chat_token(content[i]));
            assert(tokens[i].1 == present(found));
        }
    }
}

/// In the chat shape, where every item of `top_logprobs` has a number under
/// `logprob`, there are as many log-probabilities as items, each the number of
/// the item at its place.
pub proof fn law_every_top_logprob_is_read(
    response: Json,
    logprobs: Json,
    content: Seq<Json>,
    tokens: Seq<(WideBits, Seq<WideBits>)>,
    i: int,
    tops: Seq<Json>,
    numbers: Seq<JsonNumber>,
)
    requires
        carries(response, logprobs),
        field(logprobs, "content"@) == Some(Json::Array(content)),
        tokens_are(response, tokens),
        0 <= i < content.len(),
        field(content[i], "top_logprobs"@) == Some(Json::Array(tops)),
        numbers.len() == tops.len(),
        forall|k: int|
            #![trigger tops[k]]
            0 <= k < tops.len() ==> field(tops[k], "logprob"@) == Some(Json::Number(numbers[k])),
    ensures
        tokens[i].1.len() == tops.len(),
        forall|k: int|
            #![trigger tokens[i].1[k]]
            0 <= k < tops.len() ==> tokens[i].1[k] == number_bits(numbers[k]),
{
    let found = tops.map_values(|t: Json| number_under(t, "logprob"@));
    assert forall|k: int| #![trigger found[k]] 0 <= k < found.len() implies found[k] == Some(
        number_bits(numbers[k]),
    ) by {
        assert(field(tops[k], "logprob"@) == Some(Json::Number(numbers[k])));
    }
    lemma_all_present(found);
    assert(tokens[i].1 == present(found));
}

/// In the legacy shape, a token is read for each item of `token_logprobs`: the
/// number that it is, or negative infinity, and every number among the members
/// of the object at its place of `top_logprobs`, in the order of their keys.
pub proof fn law_legacy_tokens_are_read_whole(
    response: Json,
    logprobs: Json,
    chosen: Seq<Json>,
    tokens: Seq<(WideBits, Seq<WideBits>)>,
    i: int,
)
    requires
        carries(response, logprobs),
        !(field(logprobs, "content"@) matches Some(Json::Array(content))),
        field(logprobs, "token_logprobs"@) == Some(Json::Array(chosen)),
        tokens_are(response, tokens),
    ensures
        tokens.len() == chosen.len(),
        0 <= i < chosen.len() ==> tokens[i].0 == match chosen[i] {
            Json::Number(n) => number_bits(n),
            _ => WIDE_NEGATIVE_INFINITY,
        },
        0 <= i < chosen.len() ==> match field(logprobs, "top_logprobs"@) {
            Some(Json::Array(tops)) => if i < tops.len() {
                match tops[i] {
                    Json::Object(members) => exists|keys: Seq<Seq<char>>| #[trigger]
                        reads_members(members, keys, tokens[i].1),
                    _ => tokens[i].1.len() == 0,
                }
            } else {
                tokens[i].1.len() == 0
            },
            _ => tokens[i].1.len() == 0,
        },
{
    if 0 <= i < chosen.len() {
        assert(legacy_tops(array_under(logprobs, "top_logprobs"@), i, tokens[i].1));
        if let Some(Json::Array(tops)) = field(logprobs, "top_logprobs"@) {
            if i < tops.len() && tops[i] is Object {
                let members = tops[i]->Object_0;
                let all = choose|keys: Seq<Seq<char>>|
                    #![trigger lists_keys(tops[i]->Object_0, keys)]
                    lists_keys(tops[i]->Object_0, keys) && tokens[i].1 == present(
                        keys.map_values(|k: Seq<char>| bits_of(tops[i]->Object_0[k])),
                    );
                lemma_members_read(members, all, tokens[i].1);
            }
        }
    }
}

/// `read` holds the numbers under `keys`, which are all keys, in order, under
/// which a number stands.
pub open spec fn reads_members(
    members: Map<Seq<char>, Json>,
    keys: Seq<Seq<char>>,
    read: Seq<WideBits>,
) -> bool {
    &&& keys.len() == read.len()
    &&& forall|k: int|
        #![trigger keys[k]]
        0 <= k < keys.len() ==> members.contains_key(keys[k]) && (members[keys[k]] matches
            Json::Number(n) && read[k] == number_bits(n))
    &&& forall|j: int, k: int|
        #![trigger keys[j], keys[k]]
        0 <= j < k < keys.len() ==> key_before(keys[j], keys[k])
    &&& forall|key: Seq<char>|
        #![trigger members[key]]
        members.contains_key(key) && members[key] is Number ==> keys.contains(key)
}

/// The keys under which a number stands.
proof fn lemma_members_read(
    members: Map<Seq<char>, Json>,
    all: Seq<Seq<char>>,
    read: Seq<WideBits>,
)
    requires
        lists_keys(members, all),
        read == present(all.map_values(|k: Seq<char>| bits_of(members[k]))),
    ensures
        exists|keys: Seq<Seq<char>>| #[trigger] reads_members(members, keys, read),
{
    let found = all.map_values(|k: Seq<char>| bits_of(members[k]));
    let places = lemma_places_present(found);
    let keys = Seq::new(places.len(), |k: int| all[places[k]]);
    assert forall|k: int| #![trigger keys[k]] 0 <= k < keys.len() implies members.contains_key(
        keys[k],
    ) && (members[keys[k]] matches Json::Number(n) && read[k] == number_bits(n)) by {
        assert(found[places[k]] == Some(read[k]));
        assert(all.contains(all[places[k]]));
    }
    assert forall|j: int, k: int| #![trigger keys[j], keys[k]] 0 <= j < k < keys.len() implies
        key_before(keys[j], keys[k]) by {
        assert(places[j] < places[k]);
    }
    assert forall|key: Seq<char>|
        #![trigger members[key]]
        members.contains_key(key) && members[key] is Number implies keys.contains(key) by {
        assert(all.contains(key));
        let i = choose|i: int| 0 <= i < all.len() && all[i] == key;
        assert(found[i] is Some);
        assert(places.contains(i));
        let k = choose|k: int| 0 <= k < places.len() && places[k] == i;
        assert(keys[k] == key);
    }
    assert(reads_members(members, keys, read));
}

/// `u` can be the uncertainty of a token: that of its own log-probability and of
/// every other that is given, each rounded, in place.
pub open spec fn observed_whole<A: Arithmetic>(
    ar: &A,
    token: (WideBits, Seq<WideBits>),
    u: TokenUncertainty,
) -> bool {
    exists|chosen: Bits, tops: Seq<Bits>|
        {
            &&& narrow_is(ar, token.0, chosen)
            &&& tops.len() == token.1.len()
            &&& forall|k: int|
                #![trigger tops[k]]
                0 <= k < tops.len() ==> narrow_is(ar, token.1[k], tops[k])
            &&& #[trigger] from_top_logprobs_is(ar, chosen, tops, u)
        }
}

/// A report on a response is one on the tokens that are read of it, each with
/// every log-probability that is given for it.
pub proof fn law_report_is_on_what_is_read<A: Arithmetic>(
    ar: &A,
    response: Json,
    per_token: bool,
    report: Report,
)
    requires
        assessed(ar, response, per_token, report),
    ensures
        exists|tokens: Seq<(WideBits, Seq<WideBits>)>, us: Seq<TokenUncertainty>|
            {
                &&& #[trigger] tokens_are(response, tokens)
                &&& #[trigger] report_is(ar, default_config(), us, true, per_token, report)
                &&& us.len() == tokens.len()
                &&& forall|i: int|
                    #![trigger us[i]]
                    0 <= i < tokens.len() ==> observed_whole(ar, tokens[i], us[i])
            },
{
    let (tokens, us) = choose|
        tokens: Seq<(WideBits, Seq<WideBits>)>,
        us: Seq<TokenUncertainty>,
    | #[trigger]
        tokens_are(response, tokens) && #[trigger] tokens_observed(ar, tokens, us)
            && all_hold_numbers(tokens) && report_is(
            ar,
            default_config(),
            us,
            true,
            per_token,
            report,
        );
    assert forall|i: int| #![trigger us[i]] 0 <= i < tokens.len() implies observed_whole(
        ar,
        tokens[i],
        us[i],
    ) by {
        assert(token_observed(ar, tokens[i], us[i]));
        let (chosen, tops) = choose|chosen: Bits, tops: Seq<Bits>| #[trigger]
            narrow_is(ar, tokens[i].0, chosen) && #[trigger] narrows_are(ar, tokens[i].1, tops)
                && from_top_logprobs_is(ar, chosen, tops, us[i]);
        assert(from_top_logprobs_is(ar, chosen, tops, us[i]));
    }
}

/// A report on a response counts the tokens that the response lists.
pub proof fn law_report_counts_what_is_listed<A: Arithmetic>(
    ar: &A,
    response: Json,
    logprobs: Json,
    per_token: bool,
    report: Report,
)
    requires
        carries(response, logprobs),
        assessed(ar, response, per_token, report),
    ensures
        field(logprobs, "content"@) matches Some(Json::Array(content)) ==> report.n_tokens
            == content.len(),
        !(field(logprobs, "content"@) matches Some(Json::Array(content))) ==> (field(
            logprobs,
            "token_logprobs"@,
        ) matches Some(Json::Array(chosen)) ==> report.n_tokens == chosen.len()),
        report.mode@ == "top_logprobs"@,
        per_token <==> report.per_token is Some,
{
}

/// The answer to an analyzed request carries, where upstream succeeded and lists
/// tokens, a report that counts them and says how they were observed.
pub proof fn law_answer_reports_on_listed_tokens<A: Arithmetic + Numerals>(
    ar: &A,
    status: u16,
    answer: Json,
    logprobs: Json,
    content: Seq<Json>,
    per_token: bool,
    reply: Reply,
)
    requires
        concluded(ar, status, answer, per_token, reply),
        status / 100 == 2,
        carries(answer, logprobs),
        field(logprobs, "content"@) == Some(Json::Array(content)),
        content.len() > 0,
    ensures
        reply.status == status,
        field(json_of(reply.body), "hallucination"@) matches Some(report) && {
            &&& field(report, "n_tokens"@) == Some(
                Json::Number(JsonNumber::Unsigned(content.len() as u64)),
            )
            &&& field(report, "mode"@) == Some(Json::Text("top_logprobs"@))
            &&& field(report, "error"@) is None
            &&& field(report, "per_token"@) is Some <==> per_token
        },
{
    law_reasons_name_what_is_missing(answer);
    law_successful_answer_gains_report_or_reason(ar, status, answer, per_token, reply);
    let report = choose|report: Report|
        #![trigger assessed(ar, answer, per_token, report)]
        {
            &&& assessed(ar, answer, per_token, report)
            &&& field(json_of(reply.body), "hallucination"@) is Some
            &&& report_encoded(ar, report, field(json_of(reply.body), "hallucination"@)->0)
        };
    law_report_counts_what_is_listed(ar, answer, logprobs, per_token, report);
    let j = field(json_of(reply.body), "hallucination"@)->0;
    law_report_members_are_its_figures(ar, report, j);
    reveal_strlit("error");
    reveal_strlit("mode");
    reveal_strlit("n_tokens");
    reveal_strlit("flagged");
    reveal_strlit("per_token");
    reveal_strlit("risk_score");
    reveal_strlit("peak_token");
    reveal_strlit("mean_entropy");
    reveal_strlit("risky_fraction");
    assert("error"@.len() == 5);
    assert("mode"@.len() == 4);
    assert("n_tokens"@.len() == 8);
    assert("flagged"@.len() == 7);
    assert("per_token"@.len() == 9);
    assert("risk_score"@.len() == 10);
    assert("peak_token"@.len() == 10);
    assert("mean_entropy"@.len() == 12);
    assert("risky_fraction"@.len() == 14);
}

/// There is no report on a response exactly where its first choice, its
/// log-probabilities or their tokens are missing, and the reason names which.
pub proof fn law_reasons_name_what_is_missing(response: Json)
    ensures
        shortcoming(response) == match field(response, "choices"@) {
            Some(Json::Array(choices)) => if choices.len() == 0 {
                Some("no choices in upstream response"@)
            } else {
                match field(choices[0], "logprobs"@) {
                    None | Some(Json::Null) => Some(
                        "upstream returned no logprobs (server too old, or logprobs unsupported on this endpoint)"@,
                    ),
                    Some(logprobs) => match field(logprobs, "content"@) {
                        Some(Json::Array(content)) => if content.len() == 0 {
                            Some("no tokens with logprobs in upstream response"@)
                        } else {
                            None
                        },
                        _ => match field(logprobs, "token_logprobs"@) {
                            Some(Json::Array(chosen)) => if chosen.len() == 0 {
                                Some("no tokens with logprobs in upstream response"@)
                            } else {
                                None
                            },
                            _ => Some("unrecognized logprobs shape"@),
                        },
                    },
                }
            },
            _ => Some("no choices in upstream response"@),
        },
{
}

} // verus!
