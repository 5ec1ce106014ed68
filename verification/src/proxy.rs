//! What the streaming proxy decides: which headers pass, where a request goes, and what the client
//! is told.

use vstd::prelude::*;

use crate::text::same_text;

verus! {

/// How the proxy is run.
#[derive(Debug, Clone)]
pub struct ProxyConfig {
    /// The address to listen on.
    pub listen: String,
    /// The address of the gateway behind the proxy.
    pub upstream: String,
    /// How many connections are served at once.
    pub max_concurrency: usize,
}

impl ProxyConfig {
    /// How many connections are served at once: one at least.
    pub fn permits(&self) -> (r: usize)
        ensures
            r == if self.max_concurrency == 0 {
                1
            } else {
                self.max_concurrency
            },
    {
        if self.max_concurrency == 0 {
            1
        } else {
            self.max_concurrency
        }
    }
}

/// A header: a name and the bytes of its value.
#[derive(Debug, Clone)]
pub struct Header {
    pub name: String,
    pub value: Vec<u8>,
}

impl View for Header {
    type V = (Seq<char>, Seq<u8>);

    open spec fn view(&self) -> (Seq<char>, Seq<u8>) {
        (self.name@, self.value@)
    }
}

/// Headers as mathematical values.
pub open spec fn fields(headers: Seq<Header>) -> Seq<(Seq<char>, Seq<u8>)> {
    headers.map_values(|h: Header| h@)
}

/// The header speaks of one connection only, and is passed on neither way.
pub open spec fn hop_by_hop(name: Seq<char>) -> bool {
    ||| name == "connection"@
    ||| name == "keep-alive"@
    ||| name == "proxy-authenticate"@
    ||| name == "proxy-authorization"@
    ||| name == "te"@
    ||| name == "trailer"@
    ||| name == "transfer-encoding"@
    ||| name == "upgrade"@
}

/// Whether the header speaks of one connection only. Names are in lower case.
pub fn is_hop_by_hop(name: &str) -> (r: bool)
    ensures
        r == hop_by_hop(name@),
{
    same_text(name, "connection") || same_text(name, "keep-alive") || same_text(
        name,
        "proxy-authenticate",
    ) || same_text(name, "proxy-authorization") || same_text(name, "te") || same_text(
        name,
        "trailer",
    ) || same_text(name, "transfer-encoding") || same_text(name, "upgrade")
}

/// A character that a header's name may hold.
pub open spec fn is_name_char(c: char) -> bool {
    ||| 'a' <= c && c <= 'z'
    ||| 'A' <= c && c <= 'Z'
    ||| '0' <= c && c <= '9'
    ||| c == '!' || c == '#' || c == '$' || c == '%' || c == '&' || c == '\'' || c == '*'
    ||| c == '+' || c == '-' || c == '.' || c == '^' || c == '_' || c == '`' || c == '|'
    ||| c == '~'
}

/// A name that a header may have.
pub open spec fn is_header_name(name: Seq<char>) -> bool {
    &&& 1 <= name.len() <= 65535
    &&& forall|i: int| 0 <= i < name.len() ==> is_name_char(#[trigger] name[i])
}

/// A character in lower case, as far as it is a letter of ASCII.
pub open spec fn lower_char(c: char) -> char {
    if 'A' <= c && c <= 'Z' {
        (c as u32 + 32) as char
    } else {
        c
    }
}

/// A name in lower case.
pub open spec fn lowered(name: Seq<char>) -> Seq<char> {
    name.map_values(|c: char| lower_char(c))
}

/// A value that a header may have: no control characters but the tab.
pub open spec fn is_header_value(value: Seq<u8>) -> bool {
    forall|i: int|
        0 <= i < value.len() ==> (#[trigger] value[i] >= 32 && value[i] != 127) || value[i] == 9
}

/// A character that a method may hold.
pub open spec fn is_method_char(c: char) -> bool {
    ||| 'a' <= c && c <= 'z'
    ||| 'A' <= c && c <= 'Z'
    ||| '0' <= c && c <= '9'
    ||| c == '!' || c == '*' || c == '+' || c == '-' || c == '.'
    ||| c == '^' || c == '_' || c == '`' || c == '|' || c == '~'
}

/// A method that a request may have.
pub open spec fn is_method(method: Seq<char>) -> bool {
    &&& method.len() > 0
    &&& forall|i: int| 0 <= i < method.len() ==> is_method_char(#[trigger] method[i])
}

/// Calls `hyper::header::HeaderName::from_bytes` on the bytes of the text. Claimed: it accepts
/// exactly the names of at most 65535 of the characters above, and gives them back in lower case.
#[verifier::external_body]
fn client_header_name(name: &str) -> (r: Option<String>)
    ensures
        r is Some <==> is_header_name(name@),
        r is Some ==> r->Some_0@ == lowered(name@),
{
    match hyper::header::HeaderName::from_bytes(name.as_bytes()) {
        Ok(n) => Some(n.as_str().to_string()),
        Err(_) => None,
    }
}

/// Calls `hyper::header::HeaderValue::from_bytes`. Claimed: it accepts exactly the values without
/// control characters but the tab, and keeps their bytes.
#[verifier::external_body]
fn client_header_value(value: &[u8]) -> (r: Option<Vec<u8>>)
    ensures
        r is Some <==> is_header_value(value@),
        r is Some ==> r->Some_0@ == value@,
{
    match hyper::header::HeaderValue::from_bytes(value) {
        Ok(v) => Some(v.as_bytes().to_vec()),
        Err(_) => None,
    }
}

/// Calls `reqwest::header::HeaderValue::from_bytes`. Claimed: it accepts exactly the values without
/// control characters but the tab, and keeps their bytes.
#[verifier::external_body]
fn upstream_header_value(value: &[u8]) -> (r: Option<Vec<u8>>)
    ensures
        r is Some <==> is_header_value(value@),
        r is Some ==> r->Some_0@ == value@,
{
    match reqwest::header::HeaderValue::from_bytes(value) {
        Ok(v) => Some(v.as_bytes().to_vec()),
        Err(_) => None,
    }
}

/// Calls `reqwest::Method::from_bytes` on the bytes of the text. Claimed: it accepts exactly the
/// methods of the characters above, at least one, and keeps them as they are.
#[verifier::external_body]
fn upstream_method(method: &str) -> (r: Option<String>)
    ensures
        r is Some <==> is_method(method@),
        r is Some ==> r->Some_0@ == method@,
{
    match reqwest::Method::from_bytes(method.as_bytes()) {
        Ok(m) => Some(m.as_str().to_string()),
        Err(_) => None,
    }
}

/// Calls `hyper::StatusCode::from_u16`. Claimed: it accepts exactly the codes of three digits, and
/// keeps them.
#[verifier::external_body]
fn client_status(code: u16) -> (r: Option<u16>)
    ensures
        r is Some <==> 100 <= code < 1000,
        r is Some ==> r->Some_0 == code,
{
    match hyper::StatusCode::from_u16(code) {
        Ok(s) => Some(s.as_u16()),
        Err(_) => None,
    }
}

/// The header is passed on to the gateway. The host and the length of the body are written anew
/// there.
pub open spec fn passes_upstream(h: (Seq<char>, Seq<u8>)) -> bool {
    !hop_by_hop(h.0) && h.0 != "host"@ && h.0 != "content-length"@ && is_header_value(h.1)
}

/// The headers that the gateway gets.
pub open spec fn sent_upstream(headers: Seq<(Seq<char>, Seq<u8>)>) -> Seq<(Seq<char>, Seq<u8>)> {
    headers.filter(|h: (Seq<char>, Seq<u8>)| passes_upstream(h))
}

/// The header is passed back to the client.
pub open spec fn passes_back(h: (Seq<char>, Seq<u8>)) -> bool {
    !hop_by_hop(h.0) && is_header_name(h.0) && is_header_value(h.1)
}

/// The headers that the client gets.
pub open spec fn sent_back(headers: Seq<(Seq<char>, Seq<u8>)>) -> Seq<(Seq<char>, Seq<u8>)> {
    headers.filter(|h: (Seq<char>, Seq<u8>)| passes_back(h)).map_values(
        |h: (Seq<char>, Seq<u8>)| (lowered(h.0), h.1),
    )
}

/// The header as the gateway gets it, if it does.
fn header_upstream(h: &Header) -> (r: Option<Header>)
    ensures
        r is Some <==> passes_upstream(h@),
        r is Some ==> r->Some_0@ == h@,
{
    if is_hop_by_hop(h.name.as_str()) || same_text(h.name.as_str(), "host") || same_text(
        h.name.as_str(),
        "content-length",
    ) {
        return None;
    }
    match upstream_header_value(h.value.as_slice()) {
        Some(value) => Some(Header { name: h.name.clone(), value }),
        None => None,
    }
}

/// The header as the client gets it, if it does.
fn header_back(h: &Header) -> (r: Option<Header>)
    ensures
        r is Some <==> passes_back(h@),
        r is Some ==> r->Some_0@ == (lowered(h@.0), h@.1),
{
    if is_hop_by_hop(h.name.as_str()) {
        return None;
    }
    match (client_header_name(h.name.as_str()), client_header_value(h.value.as_slice())) {
        (Some(name), Some(value)) => Some(Header { name, value }),
        _ => None,
    }
}

/// The headers of a request that the gateway gets, in their order.
pub fn forward_request_headers(headers: &[Header]) -> (r: Vec<Header>)
    ensures
        fields(r@) == sent_upstream(fields(headers@)),
{
    let mut out: Vec<Header> = Vec::new();
    let ghost all = fields(headers@);
    let mut i: usize = 0;
    proof {
        reveal(Seq::filter);
    }
    while i < headers.len()
        invariant
            i <= headers@.len(),
            all == fields(headers@),
            fields(out@) == sent_upstream(all.take(i as int)),
        decreases headers.len() - i,
    {
        proof {
            reveal(Seq::filter);
            assert(all.take(i + 1).drop_last() =~= all.take(i as int));
        }
        let ghost before = out@;
        if let Some(h) = header_upstream(&headers[i]) {
            out.push(h);
            assert(fields(out@) =~= fields(before).push(h@));
        }
        i += 1;
    }
    assert(all.take(i as int) =~= all);
    out
}

/// The headers of the gateway's answer that the client gets, in their order.
pub fn forward_response_headers(headers: &[Header]) -> (r: Vec<Header>)
    ensures
        fields(r@) == sent_back(fields(headers@)),
{
    let mut out: Vec<Header> = Vec::new();
    let ghost all = fields(headers@);
    let mut i: usize = 0;
    proof {
        reveal(Seq::filter);
    }
    while i < headers.len()
        invariant
            i <= headers@.len(),
            all == fields(headers@),
            fields(out@) == sent_back(all.take(i as int)),
        decreases headers.len() - i,
    {
        proof {
            reveal(Seq::filter);
            assert(all.take(i + 1).drop_last() =~= all.take(i as int));
        }
        let ghost before = out@;
        if let Some(h) = header_back(&headers[i]) {
            out.push(h);
            assert(fields(out@) =~= fields(before).push(h@));
        }
        i += 1;
        assert(fields(out@) =~= sent_back(all.take(i as int)));
    }
    assert(all.take(i as int) =~= all);
    out
}

/// A request as the gateway gets it; its body is streamed behind it.
#[derive(Debug, Clone)]
pub struct UpstreamRequest {
    pub method: String,
    pub url: String,
    pub headers: Vec<Header>,
}

/// The request that is sent to the gateway: the same method, or `GET` where the gateway's client
/// cannot send it; the same path and query below the gateway's address; and the headers that pass.
pub fn upstream_request(
    upstream: &str,
    method: &str,
    path_and_query: Option<&str>,
    headers: &[Header],
) -> (r: UpstreamRequest)
    ensures
        r.method@ == if is_method(method@) {
            method@
        } else {
            "GET"@
        },
        r.url@ == upstream@ + match path_and_query {
            Some(p) => p@,
            None => "/"@,
        },
        fields(r.headers@) == sent_upstream(fields(headers@)),
{
    let method = match upstream_method(method) {
        Some(m) => m,
        None => "GET".to_string(),
    };
    let mut url = upstream.to_string();
    match path_and_query {
        Some(p) => url.append(p),
        None => url.append("/"),
    }
    UpstreamRequest { method, url, headers: forward_request_headers(headers) }
}

/// The code for an answer that the gateway failed to give.
pub const BAD_GATEWAY: u16 = 502;

/// The head of an answer; its body is streamed behind it.
#[derive(Debug, Clone)]
pub struct ResponseHead {
    pub status: u16,
    pub headers: Vec<Header>,
}

/// The head of an answer as the client gets it: the same status, or 502 where it is none, and the
/// headers that pass.
pub fn client_head(head: &ResponseHead) -> (r: ResponseHead)
    ensures
        r.status == if 100 <= head.status < 1000 {
            head.status
        } else {
            BAD_GATEWAY
        },
        fields(r.headers@) == sent_back(fields(head.headers@)),
{
    let status: u16 = match client_status(head.status) {
        Some(s) => s,
        None => BAD_GATEWAY,
    };
    ResponseHead { status, headers: forward_response_headers(head.headers.as_slice()) }
}

/// An answer that the proxy gives by itself.
#[derive(Debug, Clone)]
pub struct ErrorReply {
    pub status: u16,
    pub content_type: String,
    pub body: String,
}

/// The body of an answer that the proxy gives by itself. The message stands in it as it is.
pub open spec fn error_body(msg: Seq<char>) -> Seq<char> {
    "{\"error\":\""@ + msg + "\"}"@
}

/// An answer that the proxy gives by itself.
pub fn error_response(status: u16, msg: &str) -> (r: ErrorReply)
    ensures
        r.status == status,
        r.content_type@ == "application/json; charset=utf-8"@,
        r.body@ == error_body(msg@),
{
    let mut body = "{\"error\":\"".to_string();
    body.append(msg);
    body.append("\"}");
    ErrorReply { status, content_type: "application/json; charset=utf-8".to_string(), body }
}

/// Why there is no answer to pass back.
#[derive(Debug, Clone, Copy, PartialEq, Eq, Structural)]
pub enum Failure {
    /// The gateway could not be reached.
    Unreachable,
    /// The gateway's answer could not be put together for the client.
    NotBuilt,
}

/// What the client is told of a failure.
pub open spec fn failure_message(failure: Failure) -> Seq<char> {
    match failure {
        Failure::Unreachable => "上游 new-api 不可达"@,
        Failure::NotBuilt => "构造上游响应失败"@,
    }
}

/// The answer to a request that failed: 502, and why.
pub fn failure_response(failure: Failure) -> (r: ErrorReply)
    ensures
        r.status == BAD_GATEWAY,
        r.content_type@ == "application/json; charset=utf-8"@,
        r.body@ == error_body(failure_message(failure)),
{
    match failure {
        Failure::Unreachable => error_response(BAD_GATEWAY, "上游 new-api 不可达"),
        Failure::NotBuilt => error_response(BAD_GATEWAY, "构造上游响应失败"),
    }
}

} // verus!
