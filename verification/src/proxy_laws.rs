//! What holds of everything that the proxy passes on.

use vstd::prelude::*;

use crate::proxy;
use crate::proxy::{ErrorReply, Failure, Header, ProxyConfig, ResponseHead, UpstreamRequest};
use crate::seqs;

verus! {

/// A header as a mathematical value.
type Field = (Seq<char>, Seq<u8>);

/// A name in lower case stays as it is when it is lowered again.
proof fn lemma_lowered_twice(name: Seq<char>)
    ensures
        proxy::lowered(proxy::lowered(name)) == proxy::lowered(name),
{
    assert(proxy::lowered(proxy::lowered(name)) =~= proxy::lowered(name));
}

/// The gateway gets exactly those of the client's headers that may pass, each with its value:
/// none that speaks of the client's connection, and neither host nor length.
pub proof fn law_gateway_gets_what_may_pass(headers: Seq<Field>, h: Field)
    ensures
        proxy::sent_upstream(headers).contains(h) <==> headers.contains(h)
            && proxy::passes_upstream(h),
        proxy::sent_upstream(headers).contains(h) ==> !proxy::hop_by_hop(h.0) && h.0 != "host"@
            && h.0 != "content-length"@,
{
    seqs::lemma_filter_contains(headers, |x: Field| proxy::passes_upstream(x), h);
}

/// Headers that were passed on pass again, all of them: two proxies in a row pass what one does.
pub proof fn law_passing_on_twice_is_once(headers: Seq<Field>)
    ensures
        proxy::sent_upstream(proxy::sent_upstream(headers)) == proxy::sent_upstream(headers),
{
    let once = proxy::sent_upstream(headers);
    let keep = |x: Field| proxy::passes_upstream(x);
    assert forall|i: int| 0 <= i < once.len() implies keep(#[trigger] once[i]) by {
        assert(once.contains(once[i]));
        seqs::lemma_filter_contains(headers, keep, once[i]);
    }
    seqs::lemma_filter_all(once, keep);
}

/// The client gets exactly those of the gateway's headers that may pass, each with its value, under
/// a name in lower case.
pub proof fn law_client_gets_what_may_pass(headers: Seq<Field>, h: Field)
    ensures
        proxy::sent_back(headers).contains(h) <==> exists|x: Field| #[trigger]
            headers.contains(x) && proxy::passes_back(x) && h == (proxy::lowered(x.0), x.1),
{
    let keep = |x: Field| proxy::passes_back(x);
    let kept = headers.filter(keep);
    let out = proxy::sent_back(headers);
    if out.contains(h) {
        let i = choose|i: int| 0 <= i < out.len() && out[i] == h;
        assert(kept.contains(kept[i]));
        seqs::lemma_filter_contains(headers, keep, kept[i]);
        assert(headers.contains(kept[i]));
    }
    if exists|x: Field| #[trigger]
        headers.contains(x) && proxy::passes_back(x) && h == (proxy::lowered(x.0), x.1) {
        let x = choose|x: Field| #[trigger]
            headers.contains(x) && proxy::passes_back(x) && h == (proxy::lowered(x.0), x.1);
        seqs::lemma_filter_contains(headers, keep, x);
        let i = choose|i: int| 0 <= i < kept.len() && kept[i] == x;
        assert(out[i] == h);
    }
}

/// Where the gateway's names are in lower case, as they are in a parsed answer, the client gets no
/// header that speaks of the gateway's connection.
pub proof fn law_client_gets_no_hop_by_hop(headers: Seq<Field>, h: Field)
    requires
        forall|i: int|
            0 <= i < headers.len() ==> proxy::lowered((#[trigger] headers[i]).0) == headers[i].0,
        proxy::sent_back(headers).contains(h),
    ensures
        !proxy::hop_by_hop(h.0),
        headers.contains(h),
{
    law_client_gets_what_may_pass(headers, h);
    let x = choose|x: Field| #[trigger]
        headers.contains(x) && proxy::passes_back(x) && h == (proxy::lowered(x.0), x.1);
    let i = choose|i: int| 0 <= i < headers.len() && headers[i] == x;
    assert(proxy::lowered(headers[i].0) == headers[i].0);
}

/// The names that the client gets are in lower case.
pub proof fn law_client_gets_lower_case(headers: Seq<Field>, h: Field)
    requires
        proxy::sent_back(headers).contains(h),
    ensures
        proxy::lowered(h.0) == h.0,
{
    law_client_gets_what_may_pass(headers, h);
    let x = choose|x: Field| #[trigger]
        headers.contains(x) && proxy::passes_back(x) && h == (proxy::lowered(x.0), x.1);
    lemma_lowered_twice(x.0);
}

/// A header of one of the eight names that speak of one connection only.
pub open spec fn names_the_connection(name: Seq<char>) -> bool {
    ||| name == "connection"@
    ||| name == "keep-alive"@
    ||| name == "te"@
    ||| name == "trailer"@
    ||| name == "transfer-encoding"@
    ||| name == "upgrade"@
    ||| name == "proxy-authenticate"@
    ||| name == "proxy-authorization"@
}

/// A byte that may stand in a value: a tab, or no control character.
pub open spec fn may_stand_in_a_value(b: u8) -> bool {
    b == 9 || 32 <= b <= 126 || 128 <= b
}

/// A character that may stand in a header's name, by its code: letters, digits, and
/// `! # $ % & ' * + - . ^ _ | ~` and the backquote.
pub open spec fn may_stand_in_a_name(c: char) -> bool {
    let n = c as int;
    n == 33 || 35 <= n <= 39 || n == 42 || n == 43 || n == 45 || n == 46 || 48 <= n <= 57 || 65
        <= n <= 90 || 94 <= n <= 122 || n == 124 || n == 126
}

/// A character that may stand in a method, by its code: letters, digits, and `! * + - . ^ _ | ~`
/// and the backquote.
pub open spec fn may_stand_in_a_method(c: char) -> bool {
    let n = c as int;
    n == 33 || n == 42 || n == 43 || n == 45 || n == 46 || 48 <= n <= 57 || 65 <= n <= 90 || 94
        <= n <= 122 || n == 124 || n == 126
}

/// Nothing else is held back from the gateway: of a request's headers, every one arrives whose name
/// neither speaks of the connection nor is `host` or `content-length`, and whose value holds no
/// control character but the tab. And those arrive as they are, and no others do.
pub proof fn law_gateway_is_held_back_nothing_else(
    headers: Seq<Field>,
    name: Seq<char>,
    value: Seq<u8>,
)
    ensures
        proxy::sent_upstream(headers).contains((name, value)) <==> {
            &&& headers.contains((name, value))
            &&& !names_the_connection(name)
            &&& name != "host"@
            &&& name != "content-length"@
            &&& forall|i: int|
                0 <= i < value.len() ==> may_stand_in_a_value(#[trigger] value[i])
        },
{
    law_gateway_gets_what_may_pass(headers, (name, value));
    lemma_value(value);
}

/// A value may be sent where each of its bytes may.
proof fn lemma_value(value: Seq<u8>)
    ensures
        proxy::is_header_value(value) <==> forall|i: int|
            0 <= i < value.len() ==> may_stand_in_a_value(#[trigger] value[i]),
{
    if proxy::is_header_value(value) {
        assert forall|i: int| 0 <= i < value.len() implies may_stand_in_a_value(
            #[trigger] value[i],
        ) by {
            assert((value[i] >= 32 && value[i] != 127) || value[i] == 9);
        }
    }
    if forall|i: int| 0 <= i < value.len() ==> may_stand_in_a_value(#[trigger] value[i]) {
        assert forall|i: int| 0 <= i < value.len() implies (#[trigger] value[i] >= 32 && value[i]
            != 127) || value[i] == 9 by {
            assert(may_stand_in_a_value(value[i]));
        }
    }
}

/// A name may be sent back where it has at most 65535 characters, at least one, and each may stand
/// in a name.
proof fn lemma_name(name: Seq<char>)
    ensures
        proxy::is_header_name(name) <==> 0 < name.len() < 65536 && forall|i: int|
            0 <= i < name.len() ==> may_stand_in_a_name(#[trigger] name[i]),
{
    if proxy::is_header_name(name) {
        assert forall|i: int| 0 <= i < name.len() implies may_stand_in_a_name(
            #[trigger] name[i],
        ) by {
            assert(proxy::is_name_char(name[i]));
        }
    }
    if 0 < name.len() < 65536 && forall|i: int|
        0 <= i < name.len() ==> may_stand_in_a_name(#[trigger] name[i]) {
        assert forall|i: int| 0 <= i < name.len() implies proxy::is_name_char(
            #[trigger] name[i],
        ) by {
            assert(may_stand_in_a_name(name[i]));
        }
    }
}

/// Headers pass on in their order: two runs of headers together give what each gives, and a header
/// alone gives itself or nothing.
pub proof fn law_headers_pass_on_in_order(a: Seq<Field>, b: Seq<Field>, h: Field)
    ensures
        proxy::sent_upstream(a + b) == proxy::sent_upstream(a) + proxy::sent_upstream(b),
        proxy::sent_upstream(seq![h]) == seq![h] || proxy::sent_upstream(seq![h]) == Seq::<
            Field,
        >::empty(),
{
    let keep = |x: Field| proxy::passes_upstream(x);
    Seq::filter_distributes_over_add(a, b, keep);
    reveal_with_fuel(Seq::filter, 2);
    assert(seq![h].drop_last() =~= Seq::empty());
    assert(proxy::sent_upstream(seq![h]) =~= if keep(h) {
        seq![h]
    } else {
        Seq::empty()
    });
}

/// What the client gets of one header of an answer: the same value under the name in lower case,
/// where the name does not speak of the connection, holds only characters that may stand in it and
/// is not too long, and the value holds no control character but the tab; else nothing.
pub proof fn law_client_is_held_back_nothing_else(name: Seq<char>, value: Seq<u8>)
    ensures
        ({
            let ok = !names_the_connection(name) && 0 < name.len() < 65536 && (forall|i: int|
                0 <= i < name.len() ==> may_stand_in_a_name(#[trigger] name[i])) && (forall|i: int|
                0 <= i < value.len() ==> may_stand_in_a_value(#[trigger] value[i]));
            let out = proxy::sent_back(seq![(name, value)]);
            &&& ok ==> out.len() == 1 && out[0].1 == value && out[0].0 == proxy::lowered(name)
            &&& !ok ==> out.len() == 0
        }),
{
    let h = (name, value);
    let keep = |x: Field| proxy::passes_back(x);
    lemma_value(value);
    lemma_name(name);
    reveal_with_fuel(Seq::filter, 2);
    assert(seq![h].drop_last() =~= Seq::empty());
    assert(seq![h].filter(keep) =~= if keep(h) {
        seq![h]
    } else {
        Seq::empty()
    });
}

/// The headers of an answer pass back in their order: two runs together give what each gives.
pub proof fn law_headers_pass_back_in_order(a: Seq<Field>, b: Seq<Field>)
    ensures
        proxy::sent_back(a + b) == proxy::sent_back(a) + proxy::sent_back(b),
        proxy::sent_back(Seq::empty()) == Seq::<Field>::empty(),
{
    let keep = |x: Field| proxy::passes_back(x);
    Seq::filter_distributes_over_add(a, b, keep);
    assert(proxy::sent_back(a + b) =~= proxy::sent_back(a) + proxy::sent_back(b));
    reveal(Seq::filter);
    assert(proxy::sent_back(Seq::empty()) =~= Seq::<Field>::empty());
}

/// Lowering turns each capital letter of ASCII into its small letter, which is 32 codes on, and
/// leaves every other character.
pub proof fn law_lowering_is_letter_by_letter(name: Seq<char>, i: int)
    requires
        0 <= i < name.len(),
    ensures
        proxy::lowered(name).len() == name.len(),
        65 <= name[i] as int <= 90 ==> proxy::lowered(name)[i] as int == name[i] as int + 32,
        !(65 <= name[i] as int <= 90) ==> proxy::lowered(name)[i] == name[i],
{
}

/// The method of a request is sent as it is where it has a character and each may stand in a method;
/// else `GET` is.
pub proof fn law_method_is_kept_where_it_can_be(
    upstream: &str,
    method: &str,
    path_and_query: Option<&str>,
    headers: &[Header],
    r: UpstreamRequest,
)
    requires
        call_ensures(proxy::upstream_request, (upstream, method, path_and_query, headers), r),
    ensures
        method@.len() > 0 && (forall|i: int|
            0 <= i < method@.len() ==> may_stand_in_a_method(#[trigger] method@[i]))
            ==> r.method@ == method@,
        method@.len() == 0 ==> r.method@ == "GET"@,
        (exists|i: int|
            0 <= i < method@.len() && !may_stand_in_a_method(#[trigger] method@[i]))
            ==> r.method@ == "GET"@,
{
    let m = method@;
    if m.len() > 0 && (forall|i: int|
        0 <= i < m.len() ==> may_stand_in_a_method(#[trigger] m[i])) {
        assert forall|i: int| 0 <= i < m.len() implies proxy::is_method_char(#[trigger] m[i]) by {
            assert(may_stand_in_a_method(m[i]));
        }
    }
    if exists|i: int| 0 <= i < m.len() && !may_stand_in_a_method(#[trigger] m[i]) {
        let i = choose|i: int| 0 <= i < m.len() && !may_stand_in_a_method(#[trigger] m[i]);
        assert(!proxy::is_method_char(m[i]));
    }
}

/// The address asked for begins with the gateway's own and goes on with the path and query, to the
/// end and unchanged; where there is none, with a slash.
pub proof fn law_path_stands_below_the_gateway(
    upstream: &str,
    method: &str,
    path_and_query: Option<&str>,
    headers: &[Header],
    r: UpstreamRequest,
)
    requires
        call_ensures(proxy::upstream_request, (upstream, method, path_and_query, headers), r),
    ensures
        r.url@.take(upstream@.len() as int) == upstream@,
        path_and_query matches Some(p) ==> r.url@.skip(upstream@.len() as int) == p@,
        path_and_query is None ==> r.url@.skip(upstream@.len() as int) == "/"@,
{
    assert(r.url@.take(upstream@.len() as int) =~= upstream@);
    match path_and_query {
        Some(p) => assert(r.url@.skip(upstream@.len() as int) =~= p@),
        None => assert(r.url@.skip(upstream@.len() as int) =~= "/"@),
    }
}

/// Every header of a request reaches the gateway, with its value, but for those that speak of the
/// connection, the host, the length, and values that cannot be sent.
pub proof fn law_request_headers_arrive(
    upstream: &str,
    method: &str,
    path_and_query: Option<&str>,
    headers: &[Header],
    r: UpstreamRequest,
    name: Seq<char>,
    value: Seq<u8>,
)
    requires
        call_ensures(proxy::upstream_request, (upstream, method, path_and_query, headers), r),
    ensures
        proxy::fields(r.headers@).contains((name, value)) <==> {
            &&& proxy::fields(headers@).contains((name, value))
            &&& !names_the_connection(name)
            &&& name != "host"@
            &&& name != "content-length"@
            &&& forall|i: int|
                0 <= i < value.len() ==> may_stand_in_a_value(#[trigger] value[i])
        },
{
    law_gateway_is_held_back_nothing_else(proxy::fields(headers@), name, value);
}

/// A status of three digits passes as it is, and anything else becomes 502; the headers that pass
/// are those of this answer.
pub proof fn law_status_passes(head: &ResponseHead, r: ResponseHead)
    requires
        call_ensures(proxy::client_head, (head,), r),
    ensures
        100 <= head.status <= 999 ==> r.status == head.status,
        head.status < 100 || head.status > 999 ==> r.status == 502,
        proxy::fields(r.headers@) == proxy::sent_back(proxy::fields(head.headers@)),
{
}

/// At least one connection is served at once, and as many as the configuration says where it says
/// any.
pub proof fn law_some_connection_is_served(config: &ProxyConfig, r: usize)
    requires
        call_ensures(ProxyConfig::permits, (config,), r),
    ensures
        r >= 1,
        config.max_concurrency >= 1 ==> r == config.max_concurrency,
        config.max_concurrency == 0 ==> r == 1,
{
}

/// Exactly the eight names speak of the connection.
pub proof fn law_eight_names_speak_of_the_connection(name: &str, r: bool)
    requires
        call_ensures(proxy::is_hop_by_hop, (name,), r),
    ensures
        r <==> names_the_connection(name@),
{
}

/// An error is answered with the status and the message that were given, as JSON; a failure of the
/// gateway with 502.
pub proof fn law_errors_say_what_was_given(
    status: u16,
    msg: &str,
    r: ErrorReply,
    failure: Failure,
    f: ErrorReply,
)
    requires
        call_ensures(proxy::error_response, (status, msg), r),
        call_ensures(proxy::failure_response, (failure,), f),
    ensures
        r.status == status,
        r.body@.subrange(10, 10 + msg@.len() as int) == msg@,
        r.content_type@ == "application/json; charset=utf-8"@,
        f.status == 502,
        f.content_type@ == r.content_type@,
        failure is Unreachable ==> f.body@.subrange(
            10,
            10 + "上游 new-api 不可达"@.len() as int,
        ) == "上游 new-api 不可达"@,
        failure is NotBuilt ==> f.body@.subrange(
            10,
            10 + "构造上游响应失败"@.len() as int,
        ) == "构造上游响应失败"@,
{
    law_error_body_holds_the_message(msg@, msg@);
    law_error_body_holds_the_message("上游 new-api 不可达"@, msg@);
    law_error_body_holds_the_message("构造上游响应失败"@, msg@);
}

/// The body of an error holds the message, whole and unchanged, between fixed ends: different
/// messages are different bodies.
pub proof fn law_error_body_holds_the_message(a: Seq<char>, b: Seq<char>)
    ensures
        proxy::error_body(a).len() == a.len() + 12,
        proxy::error_body(a).take(10) == "{\"error\":\""@,
        proxy::error_body(a).subrange(10, 10 + a.len() as int) == a,
        proxy::error_body(a).skip(10 + a.len() as int) == "\"}"@,
        proxy::error_body(a) == proxy::error_body(b) ==> a == b,
{
    reveal_strlit("{\"error\":\"");
    reveal_strlit("\"}");
    assert("{\"error\":\""@.len() == 10);
    assert("\"}"@.len() == 2);
    assert(proxy::error_body(a).take(10) =~= "{\"error\":\""@);
    assert(proxy::error_body(a).subrange(10, 10 + a.len() as int) =~= a);
    assert(proxy::error_body(a).skip(10 + a.len() as int) =~= "\"}"@);
    if proxy::error_body(a) == proxy::error_body(b) {
        assert(proxy::error_body(b).len() == b.len() + 12);
        assert(proxy::error_body(b).subrange(10, 10 + b.len() as int) =~= b);
    }
}

/// Headers are read as they are: each name and the bytes of each value, in order.
pub proof fn law_fields_are_the_headers(headers: Seq<Header>, i: int)
    requires
        0 <= i < headers.len(),
    ensures
        proxy::fields(headers).len() == headers.len(),
        proxy::fields(headers)[i] == (headers[i].name@, headers[i].value@),
{
}

} // verus!
