use axum::http::{HeaderMap, HeaderName, HeaderValue};
use llm_probe::headers::{relay_head, skip_request_header, upstream_headers};

fn headers(pairs: &[(&str, &str)]) -> HeaderMap {
    let mut h = HeaderMap::new();
    for (name, value) in pairs {
        h.append(
            HeaderName::from_bytes(name.as_bytes()).unwrap(),
            HeaderValue::from_bytes(value.as_bytes()).unwrap(),
        );
    }
    h
}

#[test]
fn hop_by_hop_headers_stay_behind() {
    for name in [
        "host",
        "content-length",
        "connection",
        "proxy-connection",
        "keep-alive",
        "transfer-encoding",
        "upgrade",
        "proxy-authenticate",
        "proxy-authorization",
        "te",
        "trailer",
        "accept-encoding",
    ] {
        assert!(skip_request_header(name), "{name}");
    }
    for name in ["authorization", "content-type", "accept", "x-te", "Host", ""] {
        assert!(!skip_request_header(name), "{name}");
    }
}

#[test]
fn credentials_and_repeated_headers_go_upstream() {
    let h = headers(&[
        ("host", "x"),
        ("authorization", "Bearer test-token"),
        ("x-tag", "one"),
        ("te", "gzip"),
        ("x-tag", "two"),
        ("content-length", "3"),
    ]);
    let out = upstream_headers(&h).unwrap();
    assert_eq!(out.len(), 3);
    assert_eq!(out.get("authorization").unwrap(), "Bearer test-token");
    let tags: Vec<_> = out.get_all("x-tag").iter().collect();
    assert_eq!(tags, vec!["one", "two"]);
    assert!(!out.contains_key("host"));
    assert_eq!(upstream_headers(&out).unwrap(), out);
}

#[test]
fn no_headers_pass_as_none() {
    assert!(upstream_headers(&HeaderMap::new()).unwrap().is_empty());
}

#[test]
fn content_type_is_relayed() {
    let h = headers(&[("content-type", "text/event-stream"), ("content-type", "text/plain")]);
    let head = relay_head(200, &h);
    assert_eq!(head.status, 200);
    assert_eq!(head.content_type, "text/event-stream");
}

#[test]
fn missing_or_unreadable_content_type_is_binary() {
    assert_eq!(relay_head(404, &HeaderMap::new()).content_type, "application/octet-stream");
    let mut h = HeaderMap::new();
    h.insert("content-type", HeaderValue::from_bytes(b"text/\xfa").unwrap());
    assert_eq!(relay_head(404, &h).content_type, "application/octet-stream");
    assert_eq!(relay_head(404, &h).status, 404);
}

#[test]
fn impossible_status_is_a_bad_gateway() {
    assert_eq!(relay_head(99, &HeaderMap::new()).status, 502);
    assert_eq!(relay_head(1000, &HeaderMap::new()).status, 502);
    assert_eq!(relay_head(100, &HeaderMap::new()).status, 100);
    assert_eq!(relay_head(999, &HeaderMap::new()).status, 999);
}
