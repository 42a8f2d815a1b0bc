//! The headers of `http`: which go upstream with a request, and what of them
//! comes back with an answer.
//!
//! A [`HeaderMap`] is opaque. [`header_values`] names what it holds: under each
//! header name, in lower case, its values in the order in which they were added.

use crate::status::{relay_status, relayed_status};
use crate::text::same_text;
use axum::http::{HeaderMap, HeaderName, HeaderValue};
use vstd::prelude::*;

verus! {

/// `http::HeaderMap`.
#[verifier::external_type_specification]
#[verifier::external_body]
#[verifier::reject_recursive_types(T)]
pub struct ExHeaderMap<T>(axum::http::HeaderMap<T>);

/// `http::HeaderName`.
#[verifier::external_type_specification]
#[verifier::external_body]
pub struct ExHeaderName(axum::http::HeaderName);

/// `http::HeaderValue`.
#[verifier::external_type_specification]
#[verifier::external_body]
pub struct ExHeaderValue(axum::http::HeaderValue);

/// The values under each name.
pub type Headers = Map<Seq<char>, Seq<Seq<u8>>>;

/// What a `http::HeaderMap` holds.
pub uninterp spec fn header_values(headers: HeaderMap) -> Headers;

/// The text of a `http::HeaderName`.
pub uninterp spec fn name_text(name: HeaderName) -> Seq<char>;

/// The bytes of a `http::HeaderValue`.
pub uninterp spec fn value_bytes(value: HeaderValue) -> Seq<u8>;

/// The headers with one more value under a name, after those that are there.
pub open spec fn appended(headers: Headers, name: Seq<char>, value: Seq<u8>) -> Headers {
    if headers.contains_key(name) {
        headers.insert(name, headers[name].push(value))
    } else {
        headers.insert(name, seq![value])
    }
}

/// The headers that come of adding some pairs of a name and a value in turn.
pub open spec fn gathered(pairs: Seq<(&HeaderName, &HeaderValue)>) -> Headers
    decreases pairs.len(),
{
    if pairs.len() == 0 {
        Map::empty()
    } else {
        appended(
            gathered(pairs.drop_last()),
            name_text(*pairs.last().0),
            value_bytes(*pairs.last().1),
        )
    }
}

/// A header value can be read as text: it holds only visible ASCII characters,
/// spaces and tabs.
pub open spec fn is_text(bytes: Seq<u8>) -> bool {
    forall|i: int| #![trigger bytes[i]]
        0 <= i < bytes.len() ==> 32 <= bytes[i] <= 126 || bytes[i] == 9
}

/// A header value as text, character by character.
pub open spec fn text_of(bytes: Seq<u8>) -> Seq<char> {
    bytes.map_values(|b: u8| b as char)
}

/// A plain header name: lower-case letters and hyphens.
pub open spec fn is_plain_name(name: Seq<char>) -> bool {
    0 < name.len() <= 64 && forall|i: int| #![trigger name[i]]
        0 <= i < name.len() ==> 'a' <= name[i] <= 'z' || name[i] == '-'
}

/// With no more names than this, a further value can always be added.
pub const ROOMY: usize = 6553;

/// `http::HeaderMap::new`: no headers.
#[verifier::external_body]
fn no_headers() -> (r: HeaderMap)
    ensures
        header_values(r) == Headers::empty(),
{
    HeaderMap::new()
}

/// `http::HeaderMap::iter`: each name once for each of its values, the values
/// under one name in their order. The order of the names is left open.
#[verifier::external_body]
fn header_pairs<'a>(headers: &'a HeaderMap) -> (r: Vec<(&'a HeaderName, &'a HeaderValue)>)
    ensures
        gathered(r@) == header_values(*headers),
{
    headers.iter().collect()
}

/// `http::HeaderMap::try_append`: adds a value under a name, or changes nothing
/// where the map has reached its largest size. That size depends on how the
/// names are spread over the table; up to a fifth of it, there is always room.
#[verifier::external_body]
fn append_header(headers: &mut HeaderMap, name: &HeaderName, value: &HeaderValue) -> (r: bool)
    ensures
        r ==> header_values(*final(headers)) == appended(
            header_values(*old(headers)),
            name_text(*name),
            value_bytes(*value),
        ),
        !r ==> header_values(*final(headers)) == header_values(*old(headers)),
        header_values(*old(headers)).dom().finite() && header_values(*old(headers)).dom().len()
            <= ROOMY ==> r,
{
    headers.try_append(name.clone(), value.clone()).is_ok()
}

/// `http::HeaderName::as_str`.
#[verifier::external_body]
fn name_str(name: &HeaderName) -> (r: &str)
    ensures
        r@ == name_text(*name),
{
    name.as_str()
}

/// `http::HeaderMap::get` with a plain name: the first value under it.
#[verifier::external_body]
fn first_value<'a>(headers: &'a HeaderMap, name: &str) -> (r: Option<&'a HeaderValue>)
    requires
        is_plain_name(name@),
    ensures
        match r {
            Some(v) => header_values(*headers).contains_key(name@) && value_bytes(*v)
                == header_values(*headers)[name@][0],
            None => !header_values(*headers).contains_key(name@),
        },
{
    headers.get(name)
}

/// `http::HeaderValue::to_str`: the value as text, where it can be read so.
#[verifier::external_body]
fn value_text(value: &HeaderValue) -> (r: Option<&str>)
    ensures
        match r {
            Some(text) => is_text(value_bytes(*value)) && text@ == text_of(value_bytes(*value)),
            None => !is_text(value_bytes(*value)),
        },
{
    value.to_str().ok()
}

/// Headers that are not copied upstream: those that belong to one hop, those
/// that frame the message and are computed anew, and `accept-encoding`, since
/// bodies are relayed without being decompressed.
pub open spec fn stays_behind(name: Seq<char>) -> bool {
    ||| name == "host"@
    ||| name == "content-length"@
    ||| name == "connection"@
    ||| name == "proxy-connection"@
    ||| name == "keep-alive"@
    ||| name == "transfer-encoding"@
    ||| name == "upgrade"@
    ||| name == "proxy-authenticate"@
    ||| name == "proxy-authorization"@
    ||| name == "te"@
    ||| name == "trailer"@
    ||| name == "accept-encoding"@
}

/// The names of the headers that are not copied upstream.
pub open spec fn hop_names() -> Set<Seq<char>> {
    set![
        "host"@,
        "content-length"@,
        "connection"@,
        "proxy-connection"@,
        "keep-alive"@,
        "transfer-encoding"@,
        "upgrade"@,
        "proxy-authenticate"@,
        "proxy-authorization"@,
        "te"@,
        "trailer"@,
        "accept-encoding"@,
    ]
}

/// Whether a request header is kept from the upstream request. Header names
/// are compared as they stand, in lower case.
pub fn skip_request_header(name: &str) -> (r: bool)
    ensures
        r == stays_behind(name@),
        r == hop_names().contains(name@),
{
    same_text(name, "host")
        || same_text(name, "content-length")
        || same_text(name, "connection")
        || same_text(name, "proxy-connection")
        || same_text(name, "keep-alive")
        || same_text(name, "transfer-encoding")
        || same_text(name, "upgrade")
        || same_text(name, "proxy-authenticate")
        || same_text(name, "proxy-authorization")
        || same_text(name, "te")
        || same_text(name, "trailer")
        || same_text(name, "accept-encoding")
}

/// The headers that go upstream.
pub open spec fn passed_on(headers: Headers) -> Headers {
    Map::new(
        |name: Seq<char>| headers.contains_key(name) && !stays_behind(name),
        |name: Seq<char>| headers[name],
    )
}

/// Adding a header and then passing the headers on, or passing them on first.
proof fn lemma_appended_is_passed_on(headers: Headers, name: Seq<char>, value: Seq<u8>)
    ensures
        passed_on(appended(headers, name, value)) == if stays_behind(name) {
            passed_on(headers)
        } else {
            appended(passed_on(headers), name, value)
        },
{
    assert(passed_on(appended(headers, name, value)) =~= if stays_behind(name) {
        passed_on(headers)
    } else {
        appended(passed_on(headers), name, value)
    });
}

/// Gathered headers have finitely many names, and at least those of a part.
proof fn lemma_gathered_names(pairs: Seq<(&HeaderName, &HeaderValue)>, n: int)
    requires
        0 <= n <= pairs.len(),
    ensures
        gathered(pairs).dom().finite(),
        gathered(pairs.take(n)).dom().finite(),
        gathered(pairs.take(n)).dom().subset_of(gathered(pairs).dom()),
    decreases pairs.len(),
{
    if pairs.len() == 0 {
        assert(pairs.take(n) =~= pairs);
    } else if n == pairs.len() {
        assert(pairs.take(n) =~= pairs);
        lemma_gathered_names(pairs.drop_last(), n - 1);
    } else {
        lemma_gathered_names(pairs.drop_last(), n);
        assert(pairs.drop_last().take(n) =~= pairs.take(n));
    }
}

/// The headers of a client's request that go upstream with it, credentials
/// among them. There are none where they do not fit into a header map, which
/// can happen only to requests with more than 6553 header names.
pub fn upstream_headers(headers: &HeaderMap) -> (r: Option<HeaderMap>)
    ensures
        r matches Some(out) ==> header_values(out) == passed_on(header_values(*headers)),
        r matches Some(out) ==> header_values(out) == header_values(*headers).remove_keys(
            hop_names(),
        ),
        header_values(*headers).dom().len() <= ROOMY ==> r is Some,
{
    let pairs: Vec<(&HeaderName, &HeaderValue)> = header_pairs(headers);
    let mut out: HeaderMap = no_headers();
    let mut i: usize = 0;
    assert(passed_on(gathered(pairs@.take(0))) =~= Headers::empty());
    while i < pairs.len()
        invariant
            i <= pairs.len(),
            gathered(pairs@) == header_values(*headers),
            header_values(out) == passed_on(gathered(pairs@.take(i as int))),
        decreases pairs.len() - i,
    {
        proof {
            lemma_gathered_names(pairs@, i as int);
            let seen = gathered(pairs@.take(i as int));
            assert(passed_on(seen).dom().subset_of(gathered(pairs@).dom()));
            vstd::set_lib::lemma_len_subset(passed_on(seen).dom(), gathered(pairs@).dom());
            assert(pairs@.take(i + 1).drop_last() =~= pairs@.take(i as int));
            lemma_appended_is_passed_on(
                seen,
                name_text(*pairs@[i as int].0),
                value_bytes(*pairs@[i as int].1),
            );
        }
        if !skip_request_header(name_str(pairs[i].0)) {
            if !append_header(&mut out, pairs[i].0, pairs[i].1) {
                return None;
            }
        }
        i += 1;
    }
    assert(pairs@.take(pairs@.len() as int) =~= pairs@);
    proof {
        law_only_hop_names_stay(header_values(*headers));
    }
    Some(out)
}

/// What the client is told of a relayed answer before its body.
pub struct RelayHead {
    pub status: u16,
    pub content_type: String,
}

/// The type of a body that does not say what it is.
pub open spec fn unknown_type() -> Seq<char> {
    "application/octet-stream"@
}

/// The content type among some headers, where it can be read as text.
pub open spec fn content_type_of(headers: Headers) -> Seq<char> {
    if headers.contains_key("content-type"@) && is_text(headers["content-type"@][0]) {
        text_of(headers["content-type"@][0])
    } else {
        unknown_type()
    }
}

/// The status and the content type with which an upstream answer is relayed.
pub fn relay_head(status: u16, headers: &HeaderMap) -> (r: RelayHead)
    ensures
        r.status == relayed_status(status),
        r.content_type@ == content_type_of(header_values(*headers)),
{
    proof {
        reveal_strlit("content-type");
    }
    let text: Option<&str> = match first_value(headers, "content-type") {
        Some(v) => value_text(v),
        None => None,
    };
    let content_type: String = match text {
        Some(t) => t.to_owned(),
        None => "application/octet-stream".to_owned(),
    };
    RelayHead { status: relay_status(status), content_type }
}

/// A header that does not stay behind, such as the client's credentials, goes
/// upstream with all its values in their order. One that stays behind does not.
pub proof fn law_headers_are_passed_on_or_stay(headers: Headers, name: Seq<char>)
    ensures
        stays_behind(name) ==> !passed_on(headers).contains_key(name),
        !stays_behind(name) && headers.contains_key(name) ==> passed_on(headers).contains_key(name)
            && passed_on(headers)[name] == headers[name],
        !headers.contains_key(name) ==> !passed_on(headers).contains_key(name),
{
}

/// The client's credentials go upstream.
pub proof fn law_credentials_go_upstream(headers: Headers)
    requires
        headers.contains_key("authorization"@),
    ensures
        passed_on(headers).contains_key("authorization"@),
        passed_on(headers)["authorization"@] == headers["authorization"@],
{
    reveal_strlit("authorization");
    reveal_strlit("host");
    reveal_strlit("content-length");
    reveal_strlit("connection");
    reveal_strlit("proxy-connection");
    reveal_strlit("keep-alive");
    reveal_strlit("transfer-encoding");
    reveal_strlit("upgrade");
    reveal_strlit("proxy-authenticate");
    reveal_strlit("proxy-authorization");
    reveal_strlit("te");
    reveal_strlit("trailer");
    reveal_strlit("accept-encoding");
    assert("authorization"@.len() == 13);
    assert("host"@.len() == 4);
    assert("content-length"@.len() == 14);
    assert("connection"@.len() == 10);
    assert("proxy-connection"@.len() == 16);
    assert("keep-alive"@.len() == 10);
    assert("transfer-encoding"@.len() == 17);
    assert("upgrade"@.len() == 7);
    assert("proxy-authenticate"@.len() == 18);
    assert("proxy-authorization"@.len() == 19);
    assert("te"@.len() == 2);
    assert("trailer"@.len() == 7);
    assert("accept-encoding"@.len() == 15);
}

/// Passing headers on a second time changes nothing.
pub proof fn law_passing_on_twice_is_passing_on_once(headers: Headers)
    ensures
        passed_on(passed_on(headers)) == passed_on(headers),
{
    assert(passed_on(passed_on(headers)) =~= passed_on(headers));
}

/// What goes upstream are the headers without those that belong to one hop,
/// frame the message or ask for an encoding: nothing else is missing, and
/// nothing is added or changed.
pub proof fn law_only_hop_names_stay(headers: Headers)
    ensures
        passed_on(headers) == headers.remove_keys(hop_names()),
{
    assert(passed_on(headers) =~= headers.remove_keys(hop_names()));
}

/// A content type that can be read as text is relayed character by character:
/// the first one, where there are several. Where there is none, the body is of
/// no known type.
pub proof fn law_content_type_is_relayed(headers: Headers)
    ensures
        headers.contains_key("content-type"@) && is_text(headers["content-type"@][0]) ==> {
            &&& content_type_of(headers).len() == headers["content-type"@][0].len()
            &&& forall|i: int|
                #![trigger content_type_of(headers)[i]]
                0 <= i < content_type_of(headers).len() ==> content_type_of(headers)[i]
                    == headers["content-type"@][0][i] as char
        },
        !headers.contains_key("content-type"@) || !is_text(headers["content-type"@][0])
            ==> content_type_of(headers) == "application/octet-stream"@,
{
}

} // verus!
