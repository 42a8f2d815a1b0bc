//! The proxy's decisions, on JSON that `serde_json` reads.

use llm_probe::analysis::{analyze, assess, token_logprobs};
use llm_probe::arithmetic::Arithmetic;
use llm_probe::encode::{report_value, Numerals};
use llm_probe::proxy::{
    body_failed, conclude, err, finish, plan_body, plan_request, upstream_body_failed, upstream_failed,
    Mode, Outcome, Plan, Reply,
};
use serde_json::Value;

struct Machine;

impl Arithmetic for Machine {
    fn plus(&self, a: u32, b: u32) -> u32 {
        (f32::from_bits(a) + f32::from_bits(b)).to_bits()
    }
    fn minus(&self, a: u32, b: u32) -> u32 {
        (f32::from_bits(a) - f32::from_bits(b)).to_bits()
    }
    fn times(&self, a: u32, b: u32) -> u32 {
        (f32::from_bits(a) * f32::from_bits(b)).to_bits()
    }
    fn over(&self, a: u32, b: u32) -> u32 {
        (f32::from_bits(a) / f32::from_bits(b)).to_bits()
    }
    fn exp(&self, a: u32) -> u32 {
        f32::from_bits(a).exp().to_bits()
    }
    fn ln(&self, a: u32) -> u32 {
        f32::from_bits(a).ln().to_bits()
    }
    fn count(&self, n: usize) -> u32 {
        (n as f32).to_bits()
    }
    fn narrow(&self, wide: u64) -> u32 {
        (f64::from_bits(wide) as f32).to_bits()
    }
}

impl Numerals for Machine {
    fn numeral(&self, a: u32) -> Value {
        Value::from(f32::from_bits(a))
    }
}

fn json(text: &str) -> Value {
    serde_json::from_str(text).unwrap()
}

fn forwarded(plan: Plan) -> Vec<u8> {
    match plan {
        Plan::Forward(sent) => sent,
        _ => panic!("not forwarded"),
    }
}

fn detected(plan: Plan) -> Value {
    match plan {
        Plan::Detect(v) => v,
        _ => panic!("not detected"),
    }
}

fn rejected(plan: Plan) -> Reply {
    match plan {
        Plan::Reject(r) => r,
        _ => panic!("not rejected"),
    }
}

const NO_LOGPROBS: &str =
    "upstream returned no logprobs (server too old, or logprobs unsupported on this endpoint)";

const CHAT: &str = r#"{"choices":[{"index":0,"message":{"role":"assistant","content":"hi"},"logprobs":{"content":[{"token":"hi","logprob":-0.05,"top_logprobs":[{"token":"hi","logprob":-0.05},{"token":"yo","logprob":-3.2}]}]}}]}"#;

#[test]
fn plain_requests_are_forwarded_untouched() {
    for body in [
        r#"{"messages":[{"role":"user","content":"hi"}],"stream":true}"#,
        r#"{ "stream": true, "n": 1 }"#,
        " {\"b\": 1.10, \"a\": 1e2,\t\"b\": \"\\u0041\"}\n",
        r#"[1, 2.5, -3, null, "x"]"#,
        r#"{"nested":{"detect_hallucination":true}}"#,
    ] {
        assert_eq!(forwarded(plan_body(body.as_bytes(), Mode::Chat, 10)), body.as_bytes());
        assert_eq!(forwarded(plan_body(body.as_bytes(), Mode::Legacy, 10)), body.as_bytes());
    }
}

#[test]
fn false_flag_is_stripped_and_forwarded() {
    for flag in ["false", "null", "\"true\"", "1"] {
        let body = format!(r#"{{ "a": 1, "detect_hallucination": {flag}, "stream": true }}"#);
        let sent = forwarded(plan_body(body.as_bytes(), Mode::Chat, 10));
        assert_eq!(sent, br#"{"a":1,"stream":true}"#);
    }
}

#[test]
fn chat_analysis_asks_for_logprobs() {
    let body = r#"{"messages":[{"role":"user","content":"hi"}],"detect_hallucination":true}"#;
    let v = detected(plan_body(body.as_bytes(), Mode::Chat, 10));
    assert_eq!(
        v,
        json(r#"{"messages":[{"role":"user","content":"hi"}],"logprobs":true,"top_logprobs":10}"#)
    );
}

#[test]
fn legacy_analysis_asks_for_logprobs() {
    let body = r#"{"prompt":"hi","logprobs":1,"top_logprobs":"kept","detect_hallucination":true,"stream":false}"#;
    let v = detected(plan_request(body.as_bytes(), json(body), Mode::Legacy, 7));
    assert_eq!(v, json(r#"{"prompt":"hi","logprobs":7,"top_logprobs":"kept","stream":false}"#));
}

#[test]
fn streamed_analysis_is_refused() {
    let body = r#"{"detect_hallucination":true,"stream":true}"#;
    let r = rejected(plan_body(body.as_bytes(), Mode::Chat, 10));
    assert_eq!(r.status, 400);
    assert_eq!(
        r.body,
        json(r#"{"error":"detect_hallucination is not supported with stream=true yet"}"#)
    );
}

#[test]
fn body_that_is_not_json_is_refused() {
    let r = rejected(plan_body(b"{", Mode::Chat, 10));
    assert_eq!(r.status, 400);
    let reason = serde_json::from_str::<Value>("{").unwrap_err().to_string();
    assert_eq!(r.body["error"], Value::from(format!("invalid JSON body: {reason}")));
}

#[test]
fn endpoints() {
    assert_eq!(Mode::Chat.path(), "/v1/chat/completions");
    assert_eq!(Mode::Legacy.path(), "/v1/completions");
}

#[test]
fn failures_are_answered_with_their_reason() {
    let r = err(418, "teapot");
    assert_eq!(r.status, 418);
    assert_eq!(r.body, json(r#"{"error":"teapot"}"#));
    let r = upstream_failed("refused");
    assert_eq!((r.status, r.body), (502, json(r#"{"error":"upstream: refused"}"#)));
    let r = upstream_body_failed("eof");
    assert_eq!((r.status, r.body), (502, json(r#"{"error":"upstream body: eof"}"#)));
    let r = body_failed("too large");
    assert_eq!((r.status, r.body), (400, json(r#"{"error":"body: too large"}"#)));
}

#[test]
fn chat_tokens_are_read() {
    let t = token_logprobs(&json(CHAT)).unwrap();
    assert_eq!(t.len(), 1);
    assert_eq!(t[0].chosen, (-0.05f64).to_bits());
    assert_eq!(t[0].tops, vec![(-0.05f64).to_bits(), (-3.2f64).to_bits()]);
}

#[test]
fn gaps_in_chat_tokens_are_tolerated() {
    let text = r#"{"choices":[{"logprobs":{"content":[
        {"top_logprobs":[{"logprob":-1},{"token":"x"},7,{"logprob":"no"},{"logprob":-2.5}]},
        {"logprob":0,"top_logprobs":null},
        17
    ]}}]}"#;
    let t = token_logprobs(&json(text)).unwrap();
    assert_eq!(t.len(), 3);
    assert_eq!(t[0].chosen, f64::NEG_INFINITY.to_bits());
    assert_eq!(t[0].tops, vec![(-1.0f64).to_bits(), (-2.5f64).to_bits()]);
    assert_eq!(t[1].chosen, 0.0f64.to_bits());
    assert!(t[1].tops.is_empty());
    assert_eq!(t[2].chosen, f64::NEG_INFINITY.to_bits());
    assert!(t[2].tops.is_empty());
}

#[test]
fn legacy_tokens_are_read() {
    let text = r#"{"choices":[{"logprobs":{
        "token_logprobs":[null,-0.5,-1.5,-2.5],
        "top_logprobs":[null,{"b":-0.75,"a":-0.5,"c":"x"},[1]]
    }}]}"#;
    let t = token_logprobs(&json(text)).unwrap();
    assert_eq!(t.len(), 4);
    assert_eq!(t[0].chosen, f64::NEG_INFINITY.to_bits());
    assert!(t[0].tops.is_empty());
    assert_eq!(t[1].chosen, (-0.5f64).to_bits());
    assert_eq!(t[1].tops, vec![(-0.5f64).to_bits(), (-0.75f64).to_bits()]);
    assert!(t[2].tops.is_empty());
    assert!(t[3].tops.is_empty());
}

#[test]
fn chat_shape_comes_first() {
    let text = r#"{"choices":[{"logprobs":{"content":[],"token_logprobs":[-1]}}]}"#;
    assert_eq!(token_logprobs(&json(text)).unwrap().len(), 0);
}

#[test]
fn reasons_for_no_report() {
    for (text, reason) in [
        ("{}", "no choices in upstream response"),
        (r#"{"choices":[]}"#, "no choices in upstream response"),
        (r#"{"choices":{"0":1}}"#, "no choices in upstream response"),
        ("[]", "no choices in upstream response"),
        (r#"{"choices":[{}]}"#, NO_LOGPROBS),
        (r#"{"choices":[{"logprobs":null}]}"#, NO_LOGPROBS),
        (r#"{"choices":[7]}"#, NO_LOGPROBS),
        (r#"{"choices":[{"logprobs":{}}]}"#, "unrecognized logprobs shape"),
        (r#"{"choices":[{"logprobs":true}]}"#, "unrecognized logprobs shape"),
        (r#"{"choices":[{"logprobs":{"content":null}}]}"#, "unrecognized logprobs shape"),
        (
            r#"{"choices":[{"logprobs":{"content":[]}}]}"#,
            "no tokens with logprobs in upstream response",
        ),
        (
            r#"{"choices":[{"logprobs":{"token_logprobs":[]}}]}"#,
            "no tokens with logprobs in upstream response",
        ),
    ] {
        assert_eq!(analyze(&Machine, &json(text), false).unwrap_err(), reason, "{text}");
    }
}

#[test]
fn report_on_a_confident_token() {
    let r = assess(&Machine, &json(CHAT), true).unwrap();
    assert_eq!(r.n_tokens, 1);
    assert_eq!(r.mode, "top_logprobs");
    assert_eq!(r.peak_token, Some(0));
    assert!(!r.flagged);
    let p = (-0.05f64 as f32).exp();
    assert_eq!(f32::from_bits(r.risk_score), 1.0 - p);
    let listed = r.per_token.unwrap();
    assert_eq!(listed.len(), 1);
    assert_eq!(f32::from_bits(listed[0].max_prob), p);
    assert_eq!(f32::from_bits(listed[0].chosen_logprob), -0.05f32);
}

#[test]
fn report_is_written_field_by_field() {
    let text = r#"{"choices":[{"logprobs":{"token_logprobs":[0,null]}}]}"#;
    let v = analyze(&Machine, &json(text), false).unwrap();
    assert_eq!(
        v,
        json(
            r#"{"risk_score":0.5,"mean_entropy":0.0,"risky_fraction":0.5,"peak_token":1,"n_tokens":2,"flagged":true,"mode":"top_logprobs"}"#
        )
    );
    let v = analyze(&Machine, &json(text), true).unwrap();
    assert_eq!(
        v["per_token"],
        json(
            r#"[{"entropy":0.0,"max_prob":1.0,"margin":0.0,"chosen_logprob":0.0},{"entropy":0.0,"max_prob":0.0,"margin":0.0,"chosen_logprob":null}]"#
        )
    );
}

#[test]
fn report_on_nothing_has_no_peak() {
    let d = llm_probe::detector::Detector::new(llm_probe::detector::DetectorConfig::default());
    let v = report_value(&Machine, &d.report(&Machine, true));
    assert_eq!(v["peak_token"], Value::Null);
    assert_eq!(v["mode"], Value::from("logits"));
    assert_eq!(v["per_token"], json("[]"));
}

#[test]
fn successful_answer_gains_the_report() {
    let r = conclude(&Machine, 200, json(CHAT), false);
    assert_eq!(r.status, 200);
    assert_eq!(r.body["choices"], json(CHAT)["choices"]);
    let report = r.body["hallucination"].as_object().unwrap();
    assert_eq!(report.len(), 7);
    assert!(report["risk_score"].as_f64().unwrap() < 0.15);
    assert_eq!(report["mode"], Value::from("top_logprobs"));
    assert_eq!(report["n_tokens"], Value::from(1));
}

#[test]
fn answer_without_logprobs_stays_usable() {
    let r = conclude(&Machine, 200, json(r#"{"id":7,"choices":[{"text":"hi"}]}"#), true);
    assert_eq!(r.status, 200);
    assert_eq!(r.body["id"], Value::from(7));
    assert_eq!(r.body["hallucination"]["error"], Value::from(NO_LOGPROBS));
}

#[test]
fn failed_answers_are_relayed_untouched() {
    for status in [199, 300, 404, 500] {
        let r = conclude(&Machine, status, json(CHAT), false);
        assert_eq!(r.status, status);
        assert_eq!(r.body, json(CHAT));
    }
    let r = conclude(&Machine, 299, json("[1]"), false);
    assert_eq!((r.status, r.body), (299, json("[1]")));
    assert_eq!(conclude(&Machine, 7, json("{}"), false).status, 502);
}

#[test]
fn guesses_score_higher_than_facts() {
    let guess = CHAT.replace("-0.05", "-2.5").replace("-3.2", "-2.6");
    let low = assess(&Machine, &json(CHAT), false).unwrap();
    let high = assess(&Machine, &json(&guess), false).unwrap();
    assert!(f32::from_bits(high.risk_score) > f32::from_bits(low.risk_score));
    assert!(high.flagged);
}

#[test]
fn every_outcome_is_answered() {
    let r = finish(&Machine, Outcome::Unanswered("refused".to_string()), false);
    assert_eq!((r.status, r.body), (502, json(r#"{"error":"upstream: refused"}"#)));
    let r = finish(&Machine, Outcome::Unreadable("eof".to_string()), false);
    assert_eq!((r.status, r.body), (502, json(r#"{"error":"upstream body: eof"}"#)));
    let r = finish(&Machine, Outcome::Answered(201, json(CHAT)), false);
    assert_eq!(r.status, 201);
    assert!(r.body["hallucination"]["risk_score"].is_number());
}

const LEGACY: &str = r#"{"choices":[{"text":"hi","logprobs":{"token_logprobs":[-0.05],"top_logprobs":[{"yo":-3.2,"hi":-0.05}]}}]}"#;

#[test]
fn both_shapes_give_the_same_report() {
    let chat = analyze(&Machine, &json(CHAT), true).unwrap();
    assert_eq!(analyze(&Machine, &json(LEGACY), true).unwrap(), chat);
}

#[test]
fn only_the_first_choice_matters() {
    let mut more = json(CHAT);
    let first = more["choices"][0].clone();
    more["choices"][0]["message"] = Value::Null;
    more["choices"].as_array_mut().unwrap().push(first["logprobs"].clone());
    more["usage"] = json("{}");
    assert_eq!(analyze(&Machine, &more, true), analyze(&Machine, &json(CHAT), true));
}

#[test]
fn equal_answers_get_equal_replies() {
    let a = conclude(&Machine, 200, json(CHAT), true);
    let b = conclude(&Machine, 200, json(CHAT), true);
    assert_eq!((a.status, a.body), (b.status, b.body));
}
