//! Requests that pass through the proxy unread.

use crate::settings::Settings;
use axum::http::Method;
use vstd::prelude::*;
use vstd::string::*;

verus! {

/// What is sent upstream for a request that is passed through.
pub struct Passage {
    pub method: String,
    pub url: String,
    pub body: Option<Vec<u8>>,
}

/// The characters of an HTTP method: letters, digits and some marks.
pub open spec fn is_method_char(c: char) -> bool {
    ||| 'a' <= c <= 'z'
    ||| 'A' <= c <= 'Z'
    ||| '0' <= c <= '9'
    ||| c == '!' || c == '#' || c == '$' || c == '%' || c == '&' || c == '\''
    ||| c == '*' || c == '+' || c == '-' || c == '.' || c == '^' || c == '_'
    ||| c == '`' || c == '|' || c == '~'
}

/// The text is an HTTP method: one or more method characters.
pub open spec fn is_method(s: Seq<char>) -> bool {
    s.len() > 0 && forall|i: int| #![trigger s[i]] 0 <= i < s.len() ==> is_method_char(s[i])
}

/// `http::Method::from_bytes`, on the bytes of a text: whether it is a method.
#[verifier::external_body]
fn test_method(s: &str) -> (r: bool)
    ensures
        r == is_method(s@),
{
    Method::from_bytes(s.as_bytes()).is_ok()
}

/// The method with which a request is passed on: its own, if it is one.
pub open spec fn method_passed(method: Seq<char>) -> Seq<char> {
    if is_method(method) {
        method
    } else {
        "GET"@
    }
}

/// The path to which a request is passed on: its own, if it has one.
pub open spec fn path_passed(path: Option<&str>) -> Seq<char> {
    match path {
        Some(p) => p@,
        None => "/"@,
    }
}

/// `passage` is what is sent upstream: the request as it is. An empty body is
/// none.
pub open spec fn passes(
    settings: Settings,
    method: Seq<char>,
    path: Option<&str>,
    body: Seq<u8>,
    passage: Passage,
) -> bool {
    &&& passage.method@ == method_passed(method)
    &&& passage.url@ == settings.upstream@ + path_passed(path)
    &&& match passage.body {
        Some(sent) => body.len() > 0 && sent@ == body,
        None => body.len() == 0,
    }
}

/// Passes a request through: to the same path, with the same method and body.
pub fn pass_through(settings: &Settings, method: &str, path: Option<&str>, body: Vec<u8>) -> (r:
    Passage)
    ensures
        passes(*settings, method@, path, body@, r),
        body@.len() > 0 ==> (r.body matches Some(sent) && sent@ == body@),
        body@.len() == 0 ==> r.body is None,
        r.url@ == settings.upstream@ + match path {
            Some(p) => p@,
            None => "/"@,
        },
        is_method(method@) ==> r.method@ == method@,
        !is_method(method@) ==> r.method@ == "GET"@,
{
    let target: &str = match path {
        Some(p) => p,
        None => "/",
    };
    let name: &str = if test_method(method) {
        method
    } else {
        "GET"
    };
    Passage {
        method: name.to_owned(),
        url: settings.url(target),
        body: if body.len() > 0 {
            Some(body)
        } else {
            None
        },
    }
}

/// A request is passed through whole: a body of any length is sent byte for
/// byte, the path is appended to the address of the upstream, and a method is
/// kept.
pub proof fn law_requests_pass_whole(
    settings: Settings,
    method: Seq<char>,
    path: Option<&str>,
    body: Seq<u8>,
    passage: Passage,
)
    requires
        passes(settings, method, path, body, passage),
    ensures
        body.len() > 0 ==> (passage.body matches Some(sent) && sent@.len() == body.len()
            && forall|i: int| #![trigger sent@[i]] 0 <= i < body.len() ==> sent@[i] == body[i]),
        body.len() == 0 ==> passage.body is None,
        path matches Some(p) ==> passage.url@ == settings.upstream@ + p@,
        path is None ==> passage.url@ == settings.upstream@ + "/"@,
        is_method(method) ==> passage.method@ == method,
        !is_method(method) ==> passage.method@ == "GET"@,
{
}

} // verus!
