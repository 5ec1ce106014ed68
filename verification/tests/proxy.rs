//! What the proxy passes on and answers.

use quota_throttle::proxy::{
    client_head, error_response, failure_response, forward_request_headers,
    forward_response_headers, is_hop_by_hop, upstream_request, Failure, Header, ProxyConfig,
    ResponseHead, BAD_GATEWAY,
};

fn header(name: &str, value: &[u8]) -> Header {
    Header { name: name.to_string(), value: value.to_vec() }
}

fn pairs(headers: &[Header]) -> Vec<(&str, &[u8])> {
    headers.iter().map(|h| (h.name.as_str(), h.value.as_slice())).collect()
}

const HOP_BY_HOP: [&str; 8] = [
    "connection",
    "keep-alive",
    "proxy-authenticate",
    "proxy-authorization",
    "te",
    "trailer",
    "transfer-encoding",
    "upgrade",
];

#[test]
fn hop_by_hop_headers_are_known() {
    for name in HOP_BY_HOP {
        assert!(is_hop_by_hop(name));
    }
    for name in ["", "host", "content-length", "Connection", "te ", "x-upgrade", "authorization"] {
        assert!(!is_hop_by_hop(name));
    }
}

#[test]
fn the_gateway_gets_what_may_pass() {
    let mut headers = vec![
        header("host", b"a"),
        header("x-test-header", b"42"),
        header("content-length", b"5"),
        header("authorization", b"k"),
        header("x-bytes", b"\x80\xff\t"),
        header("x-test-header", b"43"),
        header("x-bad", b"a\nb"),
        header("x-del", b"\x7f"),
        header("x-empty", b""),
    ];
    for name in HOP_BY_HOP {
        headers.push(header(name, b"x"));
    }
    let out = forward_request_headers(&headers);
    assert_eq!(
        pairs(&out),
        vec![
            ("x-test-header", &b"42"[..]),
            ("authorization", b"k"),
            ("x-bytes", b"\x80\xff\t"),
            ("x-test-header", b"43"),
            ("x-empty", b""),
        ]
    );
    // Once more changes nothing.
    assert_eq!(pairs(&forward_request_headers(&out)), pairs(&out));
}

#[test]
fn the_client_gets_what_may_pass() {
    let mut headers = vec![
        header("content-type", b"text/plain"),
        header("content-length", b"5"),
        header("X-Mixed_Case~", b"v"),
        header("bad name", b"v"),
        header("", b"v"),
        header("n\u{e4}me", b"v"),
        header("x-bad", b"\0"),
        header("set-cookie", b"a=\xe9"),
    ];
    for name in HOP_BY_HOP {
        headers.push(header(name, b"x"));
    }
    let out = forward_response_headers(&headers);
    assert_eq!(
        pairs(&out),
        vec![
            ("content-type", &b"text/plain"[..]),
            ("content-length", b"5"),
            ("x-mixed_case~", b"v"),
            ("set-cookie", b"a=\xe9"),
        ]
    );
}

#[test]
fn long_names_pass_up_to_a_limit() {
    let ok = "A".repeat(65535);
    let out = forward_response_headers(&[header(&ok, b"v"), header(&"a".repeat(65536), b"v")]);
    assert_eq!(out.len(), 1);
    assert_eq!(out[0].name, "a".repeat(65535));
}

#[test]
fn every_name_character_is_judged_alike() {
    for b in 0u8..128 {
        let name = (b as char).to_string();
        let token = b.is_ascii_alphanumeric() || b"!#$%&'*+-.^_`|~".contains(&b);
        let out = forward_response_headers(&[header(&name, b"v")]);
        assert_eq!(out.len() == 1, token, "{b}");
        if token {
            assert_eq!(out[0].name, name.to_ascii_lowercase());
        }
    }
}

#[test]
fn every_value_byte_is_judged_alike() {
    for b in 0u8..=255 {
        let ok = (b >= 32 && b != 127) || b == 9;
        assert_eq!(forward_request_headers(&[header("x", &[b])]).len() == 1, ok, "{b}");
        assert_eq!(forward_response_headers(&[header("x", &[b])]).len() == 1, ok, "{b}");
    }
}

#[test]
fn every_method_character_is_judged_alike() {
    for b in 0u8..128 {
        let name = (b as char).to_string();
        let ok = b.is_ascii_alphanumeric() || b"!*+-.^_`|~".contains(&b);
        let r = upstream_request("u", &name, None, &[]);
        assert_eq!(r.method, if ok { name.as_str() } else { "GET" }, "{b}");
    }
}

#[test]
fn a_request_goes_below_the_gateway() {
    let headers = [header("host", b"a"), header("x", b"1")];
    let r = upstream_request("http://gw:13000", "POST", Some("/v1/messages?x=1"), &headers);
    assert_eq!(r.method, "POST");
    assert_eq!(r.url, "http://gw:13000/v1/messages?x=1");
    assert_eq!(pairs(&r.headers), vec![("x", &b"1"[..])]);
    let r = upstream_request("http://gw:13000", "a_very_long_method_of_its_own", None, &[]);
    assert_eq!(r.method, "a_very_long_method_of_its_own");
    assert_eq!(r.url, "http://gw:13000/");
    for bad in ["", "a b", "G\u{c9}T", "a/b", "a#b"] {
        assert_eq!(upstream_request("", bad, Some("/"), &[]).method, "GET");
    }
}

#[test]
fn an_answer_keeps_its_status() {
    let head = |status| ResponseHead { status, headers: vec![header("te", b"x"), header("A", b"1")] };
    for status in [100u16, 200, 429, 502, 999] {
        let out = client_head(&head(status));
        assert_eq!(out.status, status);
        assert_eq!(pairs(&out.headers), vec![("a", &b"1"[..])]);
    }
    for status in [0u16, 99, 1000, u16::MAX] {
        assert_eq!(client_head(&head(status)).status, 502);
    }
}

#[test]
fn errors_are_told_as_json() {
    let r = error_response(418, "why");
    assert_eq!(r.status, 418);
    assert_eq!(r.content_type, "application/json; charset=utf-8");
    assert_eq!(r.body, "{\"error\":\"why\"}");
    // The message stands in the body as it is.
    assert_eq!(error_response(500, "a\"b").body, "{\"error\":\"a\"b\"}");
}

#[test]
fn failures_are_bad_gateways() {
    let r = failure_response(Failure::Unreachable);
    assert_eq!(r.status, BAD_GATEWAY);
    assert_eq!(r.content_type, "application/json; charset=utf-8");
    assert_eq!(r.body, "{\"error\":\"上游 new-api 不可达\"}");
    let r = failure_response(Failure::NotBuilt);
    assert_eq!(r.status, 502);
    assert_eq!(r.body, "{\"error\":\"构造上游响应失败\"}");
}

#[test]
fn at_least_one_connection_is_served() {
    let config = |max_concurrency| ProxyConfig {
        listen: "127.0.0.1:3000".to_string(),
        upstream: "http://127.0.0.1:13000".to_string(),
        max_concurrency,
    };
    assert_eq!(config(0).permits(), 1);
    assert_eq!(config(1).permits(), 1);
    assert_eq!(config(64).permits(), 64);
}
