use llm_probe::passage::pass_through;
use llm_probe::settings::{Settings, MAX_BODY};

#[test]
fn defaults() {
    let s = Settings::from_variables(None, None, None, false);
    assert_eq!(s.upstream, "http://127.0.0.1:8080");
    assert_eq!(s.port, 8099);
    assert_eq!(s.top_logprobs, 10);
    assert!(!s.per_token);
    assert_eq!(MAX_BODY, 64 * 1024 * 1024);
}

#[test]
fn variables_apply() {
    let s = Settings::from_variables(Some("http://up:1//"), Some("+80"), Some("20"), true);
    assert_eq!(s.upstream, "http://up:1");
    assert_eq!(s.port, 80);
    assert_eq!(s.top_logprobs, 20);
    assert!(s.per_token);
    assert_eq!(s.url("/health"), "http://up:1/health");
}

#[test]
fn unreadable_numbers_give_way_to_defaults() {
    for text in ["", "+", "-1", " 80", "80 ", "65536", "8o", "\u{0661}"] {
        assert_eq!(Settings::from_variables(None, Some(text), None, false).port, 8099, "{text}");
    }
    for text in ["", "-0", "4294967296", "1.0"] {
        let s = Settings::from_variables(None, None, Some(text), false);
        assert_eq!(s.top_logprobs, 10, "{text}");
    }
    assert_eq!(Settings::from_variables(None, Some("65535"), None, false).port, 65535);
    let s = Settings::from_variables(None, None, Some("4294967295"), false);
    assert_eq!(s.top_logprobs, u32::MAX);
}

#[test]
fn upstream_of_slashes_is_empty() {
    assert_eq!(Settings::from_variables(Some("///"), None, None, false).upstream, "");
    assert_eq!(Settings::from_variables(Some("/a/b/"), None, None, false).upstream, "/a/b");
}

#[test]
fn requests_pass_through() {
    let s = Settings::from_variables(Some("http://up:1/"), None, None, false);
    let p = pass_through(&s, "POST", Some("/v1/embeddings?x=1"), vec![1, 2, 3]);
    assert_eq!(p.method, "POST");
    assert_eq!(p.url, "http://up:1/v1/embeddings?x=1");
    assert_eq!(p.body, Some(vec![1, 2, 3]));
}

#[test]
fn every_body_passes_through() {
    let s = Settings::from_variables(None, None, None, false);
    let p = pass_through(&s, "GET", Some("/v1/models"), b"abc".to_vec());
    assert_eq!((p.method.as_str(), p.url.as_str()), ("GET", "http://127.0.0.1:8080/v1/models"));
    assert_eq!(p.body, Some(b"abc".to_vec()));
    assert_eq!(pass_through(&s, "GET", Some("/health"), vec![]).body, None);
    assert_eq!(pass_through(&s, "DELETE", Some("/x"), vec![]).body, None);
    assert_eq!(pass_through(&s, "get", Some("/x"), vec![1]).body, Some(vec![1]));
}

#[test]
fn missing_path_and_odd_method_fall_back() {
    let s = Settings::from_variables(None, None, None, false);
    assert_eq!(pass_through(&s, "HEAD", None, vec![]).url, "http://127.0.0.1:8080/");
    assert_eq!(pass_through(&s, "wOw!!", None, vec![]).method, "wOw!!");
    assert_eq!(pass_through(&s, "not a method", None, vec![]).method, "GET");
    assert_eq!(pass_through(&s, "", None, vec![]).method, "GET");
}
