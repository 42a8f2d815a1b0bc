//! The decisions of the proxy: what becomes of a request, what goes upstream,
//! and what the client is answered.

use crate::analysis::{analyze, analyzed, assessed, shortcoming};
use crate::arithmetic::Arithmetic;
use crate::detector::Report;
use crate::encode::{report_encoded, Numerals};
use crate::json::{
    as_bool, bool_value, count_value, empty_object, field, insert_member, json_bytes, json_of,
    member, parse_json, parsed_json, remove_member, text_value, truth, with, without, write_json,
    Json, JsonNumber,
};
use crate::status::{is_success, relay_status, relayed_status, successful, BAD_GATEWAY};
use serde_json::Value;
use vstd::prelude::*;
use vstd::slice::slice_to_vec;
use vstd::string::*;

verus! {

/// The two shapes of request that can be instrumented.
#[derive(Debug, Clone, Copy, PartialEq, Eq, Structural)]
pub enum Mode {
    /// `/v1/chat/completions`.
    Chat,
    /// `/v1/completions`.
    Legacy,
}

/// An answer to the client: a status and a JSON body.
pub struct Reply {
    pub status: u16,
    pub body: Value,
}

/// What becomes of a request.
pub enum Plan {
    /// The client is answered at once, and nothing goes upstream.
    Reject(Reply),
    /// These bytes go upstream, and the answer is relayed as it arrives.
    Forward(Vec<u8>),
    /// The request goes upstream, and the answer is analyzed.
    Detect(Value),
}

/// The status of a refused request.
pub const BAD_REQUEST: u16 = 400;

/// The path of an endpoint.
pub open spec fn endpoint_path(mode: Mode) -> Seq<char> {
    match mode {
        Mode::Chat => "/v1/chat/completions"@,
        Mode::Legacy => "/v1/completions"@,
    }
}

impl Mode {
    /// The path of the endpoint that takes requests of this shape.
    pub fn path(&self) -> (r: &'static str)
        ensures
            r@ == endpoint_path(*self),
            self is Chat ==> r@ == "/v1/chat/completions"@,
            self is Legacy ==> r@ == "/v1/completions"@,
    {
        match self {
            Mode::Chat => "/v1/chat/completions",
            Mode::Legacy => "/v1/completions",
        }
    }
}

/// The JSON body that reports an error.
pub open spec fn error_json(message: Seq<char>) -> Json {
    Json::Object(map!["error"@ => Json::Text(message)])
}

/// The answer is an error.
pub open spec fn is_error(reply: Reply, status: u16, message: Seq<char>) -> bool {
    reply.status == status && json_of(reply.body) == error_json(message)
}

/// The JSON body that reports an error.
fn error_value(message: &str) -> (r: Value)
    ensures
        json_of(r) == error_json(message@),
{
    let mut r: Value = empty_object();
    insert_member(&mut r, "error", text_value(message));
    r
}

/// An answer that reports an error.
pub fn err(status: u16, message: &str) -> (r: Reply)
    ensures
        is_error(r, status, message@),
        r.status == status,
        field(json_of(r.body), "error"@) == Some(Json::Text(message@)),
{
    Reply { status, body: error_value(message) }
}

/// A truth value stands under a key, and it is true.
pub open spec fn flag(j: Json, key: Seq<char>) -> bool {
    match field(j, key) {
        Some(v) => truth(v) == Some(true),
        None => false,
    }
}

/// Whether a truth value stands under a key, and is true.
fn has_flag(value: &Value, key: &str) -> (r: bool)
    ensures
        r == flag(json_of(*value), key@),
{
    match member(value, key) {
        Some(v) => match as_bool(v) {
            Some(b) => b,
            None => false,
        },
        None => false,
    }
}

/// The request without the flag that asks for the analysis.
pub open spec fn stripped(request: Json) -> Json {
    without(request, "detect_hallucination"@)
}

/// The request with the log-probabilities asked for, as its endpoint expects it.
pub open spec fn with_logprobs(request: Json, mode: Mode, top_logprobs: u32) -> Json {
    let n = Json::Number(JsonNumber::Unsigned(top_logprobs as u64));
    match mode {
        Mode::Chat => with(with(request, "logprobs"@, Json::Bool(true)), "top_logprobs"@, n),
        Mode::Legacy => with(request, "logprobs"@, n),
    }
}

/// The reason for refusing an analysis of a streamed answer.
pub open spec fn no_streaming() -> Seq<char> {
    "detect_hallucination is not supported with stream=true yet"@
}

/// The body that is forwarded for a request with this body: the body itself,
/// unless the flag has to be taken out of it.
pub open spec fn forwarded_body(body: Seq<u8>, request: Json) -> Seq<u8> {
    if field(request, "detect_hallucination"@) is None {
        body
    } else {
        json_bytes(stripped(request))
    }
}

/// `plan` is what becomes of a request, which `body` spells.
pub open spec fn planned(
    body: Seq<u8>,
    request: Json,
    mode: Mode,
    top_logprobs: u32,
    plan: Plan,
) -> bool {
    match plan {
        Plan::Forward(sent) => {
            &&& !flag(request, "detect_hallucination"@)
            &&& sent@ == forwarded_body(body, request)
        },
        Plan::Reject(reply) => {
            &&& flag(request, "detect_hallucination"@)
            &&& flag(stripped(request), "stream"@)
            &&& is_error(reply, BAD_REQUEST, no_streaming())
        },
        Plan::Detect(v) => {
            &&& flag(request, "detect_hallucination"@)
            &&& !flag(stripped(request), "stream"@)
            &&& json_of(v) == with_logprobs(stripped(request), mode, top_logprobs)
        },
    }
}

/// Decides what becomes of a request, which `body` spells. The flag that asks for
/// the analysis never goes upstream.
pub fn plan_request(body: &[u8], request: Value, mode: Mode, top_logprobs: u32) -> (plan: Plan)
    ensures
        planned(body@, json_of(request), mode, top_logprobs, plan),
{
    let mut upstream: Value = request;
    let detect: bool = has_flag(&upstream, "detect_hallucination");
    if member(&upstream, "detect_hallucination").is_none() {
        return Plan::Forward(slice_to_vec(body));
    }
    remove_member(&mut upstream, "detect_hallucination");
    if !detect {
        return Plan::Forward(write_json(&upstream));
    }
    if has_flag(&upstream, "stream") {
        return Plan::Reject(
            err(BAD_REQUEST, "detect_hallucination is not supported with stream=true yet"),
        );
    }
    match mode {
        Mode::Chat => {
            insert_member(&mut upstream, "logprobs", bool_value(true));
            insert_member(&mut upstream, "top_logprobs", count_value(top_logprobs as u64));
        },
        Mode::Legacy => {
            insert_member(&mut upstream, "logprobs", count_value(top_logprobs as u64));
        },
    }
    Plan::Detect(upstream)
}

/// Decides what becomes of the body of a request. A body that is not JSON is
/// refused, with the reason.
pub fn plan_body(body: &[u8], mode: Mode, top_logprobs: u32) -> (plan: Plan)
    ensures
        match parsed_json(body@) {
            Ok(request) => planned(body@, request, mode, top_logprobs, plan),
            Err(reason) => plan matches Plan::Reject(reply) && is_error(
                reply,
                BAD_REQUEST,
                "invalid JSON body: "@ + reason,
            ),
        },
{
    match parse_json(body) {
        Ok(request) => plan_request(body, request, mode, top_logprobs),
        Err(reason) => {
            let message: String = "invalid JSON body: ".to_owned().concat(reason.as_str());
            Plan::Reject(err(BAD_REQUEST, message.as_str()))
        },
    }
}

/// `reply` can be the answer to a request that asked for an analysis, where
/// upstream answered `answer`. The body of a successful answer gains a report,
/// or the reason why there is none; any other body stays as it is.
pub open spec fn concluded<A: Arithmetic + Numerals>(
    ar: &A,
    status: u16,
    answer: Json,
    per_token: bool,
    reply: Reply,
) -> bool {
    &&& reply.status == relayed_status(status)
    &&& if successful(status) {
        match shortcoming(answer) {
            Some(reason) => json_of(reply.body) == with(
                answer,
                "hallucination"@,
                error_json(reason),
            ),
            None => exists|report: Json| #[trigger]
                analyzed(ar, answer, per_token, report) && json_of(reply.body) == with(
                    answer,
                    "hallucination"@,
                    report,
                ),
        }
    } else {
        json_of(reply.body) == answer
    }
}

/// Answers a request that asked for an analysis.
pub fn conclude<A: Arithmetic + Numerals>(
    ar: &A,
    status: u16,
    answer: Value,
    per_token: bool,
) -> (reply: Reply)
    ensures
        concluded(ar, status, json_of(answer), per_token, reply),
{
    let mut body: Value = answer;
    if is_success(status) {
        match analyze(ar, &body, per_token) {
            Ok(report) => {
                assert(analyzed(ar, json_of(answer), per_token, json_of(report)));
                insert_member(&mut body, "hallucination", report);
            },
            Err(reason) => {
                insert_member(&mut body, "hallucination", error_value(reason));
            },
        }
    }
    Reply { status: relay_status(status), body }
}

/// What came of a request that was sent upstream for analysis.
pub enum Outcome {
    /// It could not be sent, or was not answered, for this reason.
    Unanswered(String),
    /// The body of the answer could not be read as JSON, for this reason.
    Unreadable(String),
    /// It was answered with this status and this body.
    Answered(u16, Value),
}

/// `reply` can be the answer to a request that asked for an analysis, whatever
/// came of it upstream.
pub open spec fn finished<A: Arithmetic + Numerals>(
    ar: &A,
    outcome: Outcome,
    per_token: bool,
    reply: Reply,
) -> bool {
    match outcome {
        Outcome::Unanswered(reason) => is_error(reply, BAD_GATEWAY, "upstream: "@ + reason@),
        Outcome::Unreadable(reason) => is_error(reply, BAD_GATEWAY, "upstream body: "@ + reason@),
        Outcome::Answered(status, body) => concluded(ar, status, json_of(body), per_token, reply),
    }
}

/// Answers a request that asked for an analysis, whatever came of it upstream.
pub fn finish<A: Arithmetic + Numerals>(ar: &A, outcome: Outcome, per_token: bool) -> (reply: Reply)
    ensures
        finished(ar, outcome, per_token, reply),
{
    match outcome {
        Outcome::Unanswered(reason) => upstream_failed(reason.as_str()),
        Outcome::Unreadable(reason) => upstream_body_failed(reason.as_str()),
        Outcome::Answered(status, body) => conclude(ar, status, body, per_token),
    }
}

/// Answers a request that could not be sent upstream, or was not answered.
pub fn upstream_failed(reason: &str) -> (r: Reply)
    ensures
        is_error(r, BAD_GATEWAY, "upstream: "@ + reason@),
{
    let message: String = "upstream: ".to_owned().concat(reason);
    err(BAD_GATEWAY, message.as_str())
}

/// Answers a request whose upstream answer is not JSON, where an analysis was
/// asked for.
pub fn upstream_body_failed(reason: &str) -> (r: Reply)
    ensures
        is_error(r, BAD_GATEWAY, "upstream body: "@ + reason@),
{
    let message: String = "upstream body: ".to_owned().concat(reason);
    err(BAD_GATEWAY, message.as_str())
}

/// Answers a request whose own body could not be read.
pub fn body_failed(reason: &str) -> (r: Reply)
    ensures
        is_error(r, BAD_REQUEST, "body: "@ + reason@),
{
    let message: String = "body: ".to_owned().concat(reason);
    err(BAD_REQUEST, message.as_str())
}

/// The flag that asks for the analysis never goes upstream: it is in neither the
/// JSON value that is forwarded, as it came or written anew, nor the one that is
/// sent for analysis.
pub proof fn law_flag_never_goes_upstream(
    body: Seq<u8>,
    request: Json,
    mode: Mode,
    top_logprobs: u32,
    plan: Plan,
)
    requires
        parsed_json(body) == Ok::<Json, Seq<char>>(request),
        planned(body, request, mode, top_logprobs, plan),
    ensures
        plan matches Plan::Forward(sent) ==> {
            ||| parsed_json(sent@) matches Ok(j) && field(j, "detect_hallucination"@) is None
            ||| sent@ == json_bytes(stripped(request)) && field(
                stripped(request),
                "detect_hallucination"@,
            ) is None
        },
        plan matches Plan::Detect(v) ==> field(json_of(v), "detect_hallucination"@) is None,
{
    lemma_keys_differ();
}

/// A request that does not ask for the analysis goes upstream: byte for byte if
/// the flag is not in it, else as a JSON value in which nothing but the flag is
/// missing.
pub proof fn law_plain_requests_are_untouched(
    body: Seq<u8>,
    request: Json,
    mode: Mode,
    top_logprobs: u32,
    plan: Plan,
    key: Seq<char>,
)
    requires
        planned(body, request, mode, top_logprobs, plan),
        !flag(request, "detect_hallucination"@),
    ensures
        plan is Forward,
        field(request, "detect_hallucination"@) is None ==> plan->Forward_0@ == body,
        field(request, "detect_hallucination"@) is Some ==> plan->Forward_0@ == json_bytes(
            stripped(request),
        ),
        key != "detect_hallucination"@ ==> field(stripped(request), key) == field(request, key),
{
}

/// A request that asks for the analysis goes upstream with the log-probabilities
/// asked for, and otherwise as it is.
pub proof fn law_analysis_asks_for_logprobs(
    body: Seq<u8>,
    request: Json,
    mode: Mode,
    top_logprobs: u32,
    plan: Plan,
    key: Seq<char>,
)
    requires
        planned(body, request, mode, top_logprobs, plan),
        flag(request, "detect_hallucination"@),
        !flag(request, "stream"@),
    ensures
        plan is Detect,
        mode is Chat ==> field(json_of(plan->Detect_0), "logprobs"@) == Some(Json::Bool(true))
            && field(json_of(plan->Detect_0), "top_logprobs"@) == Some(
            Json::Number(JsonNumber::Unsigned(top_logprobs as u64)),
        ),
        mode is Legacy ==> field(json_of(plan->Detect_0), "logprobs"@) == Some(
            Json::Number(JsonNumber::Unsigned(top_logprobs as u64)),
        ),
        key != "detect_hallucination"@ && key != "logprobs"@ && (mode is Chat ==> key
            != "top_logprobs"@) ==> field(json_of(plan->Detect_0), key) == field(request, key),
{
    lemma_keys_differ();
}

/// A request that asks for the analysis of a streamed answer is refused, and
/// nothing of it goes upstream.
pub proof fn law_streamed_analysis_is_refused(
    body: Seq<u8>,
    request: Json,
    mode: Mode,
    top_logprobs: u32,
    plan: Plan,
)
    requires
        planned(body, request, mode, top_logprobs, plan),
        flag(request, "detect_hallucination"@),
        flag(request, "stream"@),
    ensures
        plan matches Plan::Reject(reply) && is_error(reply, BAD_REQUEST, no_streaming()),
{
    lemma_keys_differ();
}

/// The answer to an analyzed request has the upstream status and every upstream
/// member. It differs at most in the member that the analysis adds.
pub proof fn law_answer_keeps_status_and_members<A: Arithmetic + Numerals>(
    ar: &A,
    status: u16,
    answer: Json,
    per_token: bool,
    reply: Reply,
    key: Seq<char>,
)
    requires
        concluded(ar, status, answer, per_token, reply),
    ensures
        100 <= status <= 999 ==> reply.status == status,
        key != "hallucination"@ ==> field(json_of(reply.body), key) == field(answer, key),
        !successful(status) ==> json_of(reply.body) == answer,
        !(answer is Object) ==> json_of(reply.body) == answer,
{
}

/// A successful answer that is an object always gains a member: the report on
/// its tokens, or the reason why there is none.
pub proof fn law_successful_answer_gains_report_or_reason<A: Arithmetic + Numerals>(
    ar: &A,
    status: u16,
    answer: Json,
    per_token: bool,
    reply: Reply,
)
    requires
        concluded(ar, status, answer, per_token, reply),
        successful(status),
        answer is Object,
    ensures
        shortcoming(answer) matches Some(reason) ==> field(json_of(reply.body), "hallucination"@)
            == Some(error_json(reason)),
        shortcoming(answer) is None ==> exists|report: Report|
            #![trigger assessed(ar, answer, per_token, report)]
            {
                &&& assessed(ar, answer, per_token, report)
                &&& field(json_of(reply.body), "hallucination"@) is Some
                &&& report_encoded(ar, report, field(json_of(reply.body), "hallucination"@)->0)
            },
{
}

/// A flag is set exactly where the truth value that is true stands under its key.
pub proof fn law_flag_is_the_value_true(j: Json, key: Seq<char>)
    ensures
        flag(j, key) <==> field(j, key) == Some(Json::Bool(true)),
{
}

/// An answer that reports an error has its status, and says nothing but the
/// message, under one key.
pub proof fn law_errors_say_why(reply: Reply, status: u16, message: Seq<char>, key: Seq<char>)
    requires
        is_error(reply, status, message),
    ensures
        reply.status == status,
        json_of(reply.body) is Object,
        field(json_of(reply.body), "error"@) == Some(Json::Text(message)),
        key != "error"@ ==> field(json_of(reply.body), key) is None,
{
}

/// A request is refused exactly where it asks for the analysis of a streamed
/// answer, is forwarded exactly where it does not ask for an analysis, and
/// loses nothing but the flag on its way.
pub proof fn law_request_alone_decides(
    body: Seq<u8>,
    request: Json,
    mode: Mode,
    top_logprobs: u32,
    plan: Plan,
)
    requires
        planned(body, request, mode, top_logprobs, plan),
    ensures
        plan is Forward <==> field(request, "detect_hallucination"@) != Some(Json::Bool(true)),
        plan is Reject <==> field(request, "detect_hallucination"@) == Some(Json::Bool(true))
            && field(request, "stream"@) == Some(Json::Bool(true)),
        plan matches Plan::Forward(sent) ==> match request {
            Json::Object(m) => if m.contains_key("detect_hallucination"@) {
                sent@ == json_bytes(Json::Object(m.remove("detect_hallucination"@)))
            } else {
                sent@ == body
            },
            _ => sent@ == body,
        },
        plan matches Plan::Reject(reply) ==> reply.status == 400 && field(
            json_of(reply.body),
            "error"@,
        ) == Some(Json::Text("detect_hallucination is not supported with stream=true yet"@)),
        plan matches Plan::Detect(v) ==> match request {
            Json::Object(m) => json_of(v) == Json::Object(
                match mode {
                    Mode::Chat => m.remove("detect_hallucination"@).insert(
                        "logprobs"@,
                        Json::Bool(true),
                    ).insert(
                        "top_logprobs"@,
                        Json::Number(JsonNumber::Unsigned(top_logprobs as u64)),
                    ),
                    Mode::Legacy => m.remove("detect_hallucination"@).insert(
                        "logprobs"@,
                        Json::Number(JsonNumber::Unsigned(top_logprobs as u64)),
                    ),
                },
            ),
            _ => false,
        },
{
    lemma_keys_differ();
}

/// Where upstream could not be reached or read, the answer blames it and says
/// why. Where it answered, the answer has its status.
pub proof fn law_failures_blame_upstream<A: Arithmetic + Numerals>(
    ar: &A,
    outcome: Outcome,
    per_token: bool,
    reply: Reply,
)
    requires
        finished(ar, outcome, per_token, reply),
    ensures
        outcome matches Outcome::Unanswered(reason) ==> reply.status == 502 && field(
            json_of(reply.body),
            "error"@,
        ) == Some(Json::Text("upstream: "@ + reason@)),
        outcome matches Outcome::Unreadable(reason) ==> reply.status == 502 && field(
            json_of(reply.body),
            "error"@,
        ) == Some(Json::Text("upstream body: "@ + reason@)),
        outcome matches Outcome::Answered(status, body) ==> (100 <= status <= 999 ==> reply.status
            == status) && (status / 100 != 2 ==> json_of(reply.body) == json_of(body)),
{
}

/// The keys that the proxy deals in differ in length.
proof fn lemma_keys_differ()
    ensures
        "detect_hallucination"@.len() == 20,
        "stream"@.len() == 6,
        "logprobs"@.len() == 8,
        "top_logprobs"@.len() == 12,
{
    reveal_strlit("detect_hallucination");
    reveal_strlit("stream");
    reveal_strlit("logprobs");
    reveal_strlit("top_logprobs");
}

} // verus!
