//! What tells conversations apart, and what does not.

use vstd::prelude::*;
use vstd::utf8::*;

use crate::fingerprint;
use crate::fingerprint::{Head, HeadValue, SystemValue};
use crate::json;
use crate::json::{Json, JsonValue};
use crate::text;

verus! {

/// A message has the role that stands as a text under `role`.
pub proof fn law_role_stands_under_its_name(
    message: JsonValue,
    m: Map<Seq<char>, JsonValue>,
    role: Seq<char>,
)
    ensures
        fingerprint::has_role(JsonValue::Object(m), role) <==> m.contains_key("role"@)
            && m["role"@] == JsonValue::Text(role),
        !(message is Object) ==> !fingerprint::has_role(message, role),
{
}

/// The first message with a role is the one that has it and has none before it with that role;
/// there is none exactly where no message has it.
pub proof fn law_first_message_is_the_first(messages: Seq<JsonValue>, role: Seq<char>, i: int)
    ensures
        0 <= i < messages.len() && fingerprint::has_role(messages[i], role) && (forall|k: int|
            0 <= k < i ==> !fingerprint::has_role(#[trigger] messages[k], role))
            ==> fingerprint::first_with_role(messages, role) == Some(messages[i]),
        (forall|k: int|
            0 <= k < messages.len() ==> !fingerprint::has_role(#[trigger] messages[k], role))
            ==> fingerprint::first_with_role(messages, role) is None,
    decreases messages.len(),
{
    if messages.len() > 0 {
        let rest = messages.drop_first();
        law_first_message_is_the_first(rest, role, i - 1);
        if 0 <= i < messages.len() && fingerprint::has_role(messages[i], role) && (forall|k: int|
            0 <= k < i ==> !fingerprint::has_role(#[trigger] messages[k], role)) && i > 0 {
            assert(!fingerprint::has_role(messages[0], role));
            assert forall|k: int| 0 <= k < i - 1 implies !fingerprint::has_role(
                #[trigger] rest[k],
                role,
            ) by {
                assert(rest[k] == messages[k + 1]);
            }
            assert(rest[i - 1] == messages[i]);
        }
        if forall|k: int|
            0 <= k < messages.len() ==> !fingerprint::has_role(#[trigger] messages[k], role) {
            assert(!fingerprint::has_role(messages[0], role));
            assert forall|k: int| 0 <= k < rest.len() implies !fingerprint::has_role(
                #[trigger] rest[k],
                role,
            ) by {
                assert(rest[k] == messages[k + 1]);
            }
        }
    }
}

/// The messages with a role are taken in order, each without its breakpoints, and no others are:
/// of a message alone, that message or nothing; of two runs of messages, what each gives.
pub proof fn law_messages_of_a_role_in_order(
    a: Seq<JsonValue>,
    b: Seq<JsonValue>,
    m: JsonValue,
    role: Seq<char>,
)
    ensures
        fingerprint::has_role(m, role) ==> fingerprint::stripped_with_role(seq![m], role) == seq![
            m.without("cache_control"@),
        ],
        !fingerprint::has_role(m, role) ==> fingerprint::stripped_with_role(seq![m], role)
            == Seq::<JsonValue>::empty(),
        fingerprint::stripped_with_role(a + b, role) == fingerprint::stripped_with_role(a, role)
            + fingerprint::stripped_with_role(b, role),
{
    let keep = |x: JsonValue| fingerprint::has_role(x, role);
    Seq::filter_distributes_over_add(a, b, keep);
    assert(fingerprint::stripped_with_role(a + b, role) =~= fingerprint::stripped_with_role(a, role)
        + fingerprint::stripped_with_role(b, role));
    reveal_with_fuel(Seq::filter, 2);
    assert(seq![m].drop_last() =~= Seq::empty());
    assert(seq![m].filter(keep) =~= if keep(m) {
        seq![m]
    } else {
        Seq::empty()
    });
    if fingerprint::has_role(m, role) {
        assert(fingerprint::stripped_with_role(seq![m], role) =~= seq![
            m.without("cache_control"@),
        ]);
    } else {
        assert(fingerprint::stripped_with_role(seq![m], role) =~= Seq::empty());
    }
}

/// A top-level system prompt is a text, or the texts that stand under `text` in its blocks, in
/// order with nothing between; anything else is no prompt.
pub proof fn law_system_prompt_is_its_texts(
    t: Seq<char>,
    a: Seq<JsonValue>,
    b: Seq<JsonValue>,
    block: JsonValue,
    other: JsonValue,
)
    ensures
        fingerprint::system_prompt(Some(JsonValue::Text(t))) == t,
        fingerprint::system_prompt(None) == Seq::<char>::empty(),
        !(other is Text) && !(other is List) ==> fingerprint::system_prompt(Some(other)) == Seq::<
            char,
        >::empty(),
        block.get("text"@) == Some(JsonValue::Text(t)) ==> fingerprint::system_prompt(
            Some(JsonValue::List(seq![block])),
        ) == t,
        !(block.get("text"@) is Some && block.get("text"@)->0 is Text)
            ==> fingerprint::system_prompt(Some(JsonValue::List(seq![block]))) == Seq::<
            char,
        >::empty(),
        fingerprint::system_prompt(Some(JsonValue::List(a + b))) == fingerprint::system_prompt(
            Some(JsonValue::List(a)),
        ) + fingerprint::system_prompt(Some(JsonValue::List(b))),
    decreases b.len(),
{
    reveal_with_fuel(fingerprint::block_texts, 2);
    assert(seq![block].drop_last() =~= Seq::empty());
    assert(fingerprint::block_texts(seq![block]) =~= fingerprint::block_text(block));
    if b.len() > 0 {
        law_system_prompt_is_its_texts(t, a, b.drop_last(), block, other);
        assert((a + b).drop_last() =~= a + b.drop_last());
        assert((a + b).last() == b.last());
        assert(fingerprint::block_texts(a + b) =~= fingerprint::block_texts(a)
            + fingerprint::block_texts(b));
    } else {
        assert(a + b =~= a);
        assert(fingerprint::block_texts(a) + fingerprint::block_texts(b)
            =~= fingerprint::block_texts(a));
    }
}

/// The tool declarations of a request without breakpoints; none declared is null.
pub open spec fn declared_tools(doc: JsonValue) -> JsonValue {
    match doc.get("tools"@) {
        Some(tools) => tools.without("cache_control"@),
        None => JsonValue::Null,
    }
}

/// The message at `i` is the first user message.
pub open spec fn is_first_user_message(messages: Seq<JsonValue>, i: int) -> bool {
    &&& 0 <= i < messages.len()
    &&& messages[i].get("role"@) == Some(JsonValue::Text("user"@))
    &&& forall|k: int|
        0 <= k < i ==> (#[trigger] messages[k]).get("role"@) != Some(JsonValue::Text("user"@))
}

/// A head holds the model, the tools, the first user message and the system prompt of its protocol,
/// on either protocol: the tools and the message without breakpoints and otherwise as they are.
pub proof fn law_head_holds_the_four_parts(
    native: bool,
    doc: JsonValue,
    model: Seq<char>,
    messages: Seq<JsonValue>,
    i: int,
)
    requires
        doc.get("model"@) == Some(JsonValue::Text(model)),
        doc.get("messages"@) == Some(JsonValue::List(messages)),
        is_first_user_message(messages, i),
    ensures
        fingerprint::head(native, doc) is Some,
        (fingerprint::head(native, doc)->0).model == model,
        (fingerprint::head(native, doc)->0).tools == declared_tools(doc),
        (fingerprint::head(native, doc)->0).message == messages[i].without("cache_control"@),
        native ==> (fingerprint::head(native, doc)->0).system == SystemValue::Text(
            fingerprint::system_prompt(doc.get("system"@)),
        ),
        !native ==> (fingerprint::head(native, doc)->0).system == SystemValue::Messages(
            fingerprint::stripped_with_role(messages, "system"@),
        ),
{
    law_first_message_is_the_first(messages, "user"@, i);
}

/// What has no head names no model, holds no list of messages, or has no user message in it.
pub proof fn law_without_a_head_something_is_missing(native: bool, doc: JsonValue)
    requires
        fingerprint::head(native, doc) is None,
    ensures
        !(doc.get("model"@) is Some && doc.get("model"@)->0 is Text) || !(doc.get(
            "messages"@,
        ) is Some && doc.get("messages"@)->0 is List) || forall|k: int|
            0 <= k < (doc.get("messages"@)->0->List_0).len() ==> (
            #[trigger] (doc.get("messages"@)->0->List_0)[k]).get("role"@) != Some(
                JsonValue::Text("user"@),
            ),
{
    if doc.get("messages"@) is Some && doc.get("messages"@)->0 is List {
        let messages = doc.get("messages"@)->0->List_0;
        if exists|k: int|
            0 <= k < messages.len() && (#[trigger] messages[k]).get("role"@) == Some(
                JsonValue::Text("user"@),
            ) {
            let k = choose|k: int|
                0 <= k < messages.len() && (#[trigger] messages[k]).get("role"@) == Some(
                    JsonValue::Text("user"@),
                );
            lemma_some_is_first(messages, k);
        }
    }
}

/// Where a message has the role, one is the first.
proof fn lemma_some_is_first(messages: Seq<JsonValue>, k: int)
    requires
        0 <= k < messages.len(),
        messages[k].get("role"@) == Some(JsonValue::Text("user"@)),
    ensures
        fingerprint::first_with_role(messages, "user"@) is Some,
    decreases messages.len(),
{
    if k > 0 {
        assert(messages.drop_first()[k - 1] == messages[k]);
        lemma_some_is_first(messages.drop_first(), k - 1);
    } else {
        assert(fingerprint::has_role(messages[0], "user"@));
    }
}

/// Conversations are told apart: two heads are the same exactly where the models, the tools, the
/// first user messages and the system prompts of their protocol are, breakpoints aside. A
/// difference in any of them, on either protocol, is a different head.
pub proof fn law_different_conversations_have_different_heads(
    native: bool,
    a: JsonValue,
    b: JsonValue,
    a_messages: Seq<JsonValue>,
    b_messages: Seq<JsonValue>,
    i: int,
    k: int,
)
    requires
        a.get("model"@) is Some,
        a.get("model"@)->0 is Text,
        b.get("model"@) is Some,
        b.get("model"@)->0 is Text,
        a.get("messages"@) == Some(JsonValue::List(a_messages)),
        b.get("messages"@) == Some(JsonValue::List(b_messages)),
        is_first_user_message(a_messages, i),
        is_first_user_message(b_messages, k),
    ensures
        fingerprint::head(native, a) == fingerprint::head(native, b) <==> {
            &&& a.get("model"@) == b.get("model"@)
            &&& declared_tools(a) == declared_tools(b)
            &&& a_messages[i].without("cache_control"@) == b_messages[k].without("cache_control"@)
            &&& native ==> fingerprint::system_prompt(a.get("system"@))
                == fingerprint::system_prompt(b.get("system"@))
            &&& !native ==> fingerprint::stripped_with_role(a_messages, "system"@)
                == fingerprint::stripped_with_role(b_messages, "system"@)
        },
{
    law_head_holds_the_four_parts(native, a, a.get("model"@)->0->Text_0, a_messages, i);
    law_head_holds_the_four_parts(native, b, b.get("model"@)->0->Text_0, b_messages, k);
}

/// Different tools are different heads on either protocol.
pub proof fn law_different_tools_have_different_heads(native: bool, a: JsonValue, b: JsonValue)
    requires
        fingerprint::head(native, a) is Some,
        fingerprint::head(native, b) is Some,
        fingerprint::stripped(a).get("tools"@) is Some,
        fingerprint::stripped(b).get("tools"@) is Some,
        fingerprint::stripped(a).get("tools"@) != fingerprint::stripped(b).get("tools"@),
    ensures
        (fingerprint::head(native, a)->0).tools != (fingerprint::head(native, b)->0).tools,
{
    reveal_strlit("cache_control");
    reveal_strlit("tools");
    assert("cache_control"@.len() == 13);
    assert("tools"@.len() == 5);
    json::law_dropping_drops_only_that_name(a, "cache_control"@, "tools"@, 0);
    json::law_dropping_drops_only_that_name(b, "cache_control"@, "tools"@, 0);
}

/// Breakpoints, and nothing else, are stripped.
pub proof fn law_stripping_is_dropping_breakpoints(v: JsonValue)
    ensures
        fingerprint::stripped(v) == v.without("cache_control"@),
{
}

/// Of a message at most 32768 bytes count, and they are its first.
pub proof fn law_the_first_bytes_count(bytes: Seq<u8>, more: Seq<u8>)
    ensures
        bytes.len() <= 32768 ==> fingerprint::capped(bytes) == bytes,
        bytes.len() == 32768 ==> fingerprint::capped(bytes + more) == bytes,
{
    if bytes.len() == 32768 {
        assert((bytes + more).take(32768) =~= bytes);
        if more.len() == 0 {
            assert(bytes + more =~= bytes);
        }
    }
}

/// The system prompt as one text: a text as it is, or the messages as compact JSON, with a newline
/// between every two.
pub proof fn law_system_text_joins_messages(
    t: Seq<char>,
    m: JsonValue,
    a: Seq<JsonValue>,
    b: Seq<JsonValue>,
)
    ensures
        fingerprint::system_text(SystemValue::Text(t)) == t,
        fingerprint::system_text(SystemValue::Messages(Seq::empty())) == Seq::<char>::empty(),
        fingerprint::system_text(SystemValue::Messages(seq![m])) == json::compact_text(m),
        a.len() > 0 && b.len() > 0 ==> fingerprint::system_text(SystemValue::Messages(a + b))
            == fingerprint::system_text(SystemValue::Messages(a)) + "\n"@
            + fingerprint::system_text(SystemValue::Messages(b)),
{
    let f = |x: JsonValue| json::compact_text(x);
    text::law_joined_puts_separators_between(
        a.map_values(f),
        b.map_values(f),
        json::compact_text(m),
        "\n"@,
    );
    assert((a + b).map_values(f) =~= a.map_values(f) + b.map_values(f));
    assert(seq![m].map_values(f) =~= seq![json::compact_text(m)]);
    assert(Seq::<JsonValue>::empty().map_values(f) =~= Seq::empty());
}

/// What is hashed of a head, part by part: the model, the system prompt, the tools and the message
/// stand one after the other, each of the first three with a zero byte behind it.
pub proof fn law_what_is_hashed(h: HeadValue)
    ensures
        ({
            let all = fingerprint::head_bytes(h);
            let model = encode_utf8(h.model);
            let system = encode_utf8(fingerprint::system_text(h.system));
            let tools = json::compact_bytes(h.tools);
            let message = fingerprint::capped(json::compact_bytes(h.message));
            let s = model.len() as int + 1;
            let t = s + system.len() + 1;
            let m = t + tools.len() + 1;
            &&& all.len() == m + message.len()
            &&& all.take(model.len() as int) == model
            &&& all[model.len() as int] == 0
            &&& all.subrange(s, s + system.len()) == system
            &&& all[s + system.len()] == 0
            &&& all.subrange(t, t + tools.len()) == tools
            &&& all[t + tools.len()] == 0
            &&& all.skip(m) == message
        }),
{
    let all = fingerprint::head_bytes(h);
    let model = encode_utf8(h.model);
    let system = encode_utf8(fingerprint::system_text(h.system));
    let tools = json::compact_bytes(h.tools);
    let message = fingerprint::capped(json::compact_bytes(h.message));
    let s = model.len() as int + 1;
    let t = s + system.len() + 1;
    let m = t + tools.len() + 1;
    assert(all.take(model.len() as int) =~= model);
    assert(all.subrange(s, s + system.len()) =~= system);
    assert(all.subrange(t, t + tools.len()) =~= tools);
    assert(all.skip(m) =~= message);
}

/// The number that eight bytes spell has each of them as a digit to the base 256, the first one
/// highest: it is below 2^64, and different bytes spell different numbers.
pub proof fn law_eight_bytes_spell_one_number(a: Seq<u8>, b: Seq<u8>)
    requires
        a.len() >= 8,
        b.len() >= 8,
    ensures
        0 <= fingerprint::leading_number(a) <= u64::MAX,
        fingerprint::leading_number(a) == 256 * (256 * (256 * (256 * (256 * (256 * (256 * a[0]
            + a[1]) + a[2]) + a[3]) + a[4]) + a[5]) + a[6]) + a[7],
        fingerprint::leading_number(a) == fingerprint::leading_number(b) <==> a.take(8) == b.take(
            8,
        ),
        a[0] < b[0] ==> fingerprint::leading_number(a) < fingerprint::leading_number(b),
{
    if fingerprint::leading_number(a) == fingerprint::leading_number(b) {
        assert(a[0] == b[0]);
        assert(a[1] == b[1]);
        assert(a[2] == b[2]);
        assert(a[3] == b[3]);
        assert(a[4] == b[4]);
        assert(a[5] == b[5]);
        assert(a[6] == b[6]);
        assert(a[7] == b[7]);
        assert(a.take(8) =~= b.take(8));
    }
    if a.take(8) == b.take(8) {
        assert(a[0] == a.take(8)[0] && b[0] == b.take(8)[0]);
        assert(a[1] == a.take(8)[1] && b[1] == b.take(8)[1]);
        assert(a[2] == a.take(8)[2] && b[2] == b.take(8)[2]);
        assert(a[3] == a.take(8)[3] && b[3] == b.take(8)[3]);
        assert(a[4] == a.take(8)[4] && b[4] == b.take(8)[4]);
        assert(a[5] == a.take(8)[5] && b[5] == b.take(8)[5]);
        assert(a[6] == a.take(8)[6] && b[6] == b.take(8)[6]);
        assert(a[7] == a.take(8)[7] && b[7] == b.take(8)[7]);
    }
}

/// A conversation has a fingerprint exactly where it has a head, and it is the number that the
/// digest of what is hashed begins with: two heads have one fingerprint only where their digests
/// begin alike.
pub proof fn law_fingerprint_is_the_start_of_the_digest(
    a_native: bool,
    b_native: bool,
    a: JsonValue,
    b: JsonValue,
)
    requires
        fingerprint::head(a_native, a) is Some,
        fingerprint::head(b_native, b) is Some,
    ensures
        ({
            let p = fingerprint::sha256(
                fingerprint::head_bytes(fingerprint::head(a_native, a)->0),
            );
            let q = fingerprint::sha256(
                fingerprint::head_bytes(fingerprint::head(b_native, b)->0),
            );
            let x = fingerprint::fingerprint(a_native, a);
            let y = fingerprint::fingerprint(b_native, b);
            p.len() >= 8 && q.len() >= 8 ==> {
                &&& x is Some
                &&& x->0 == fingerprint::leading_number(p)
                &&& x == y <==> p.take(8) == q.take(8)
            }
        }),
{
    let p = fingerprint::sha256(fingerprint::head_bytes(fingerprint::head(a_native, a)->0));
    let q = fingerprint::sha256(fingerprint::head_bytes(fingerprint::head(b_native, b)->0));
    if p.len() >= 8 && q.len() >= 8 {
        law_eight_bytes_spell_one_number(p, q);
        law_eight_bytes_spell_one_number(q, p);
    }
}

/// Without a head there is no fingerprint.
pub proof fn law_no_head_no_fingerprint(native: bool, doc: JsonValue)
    ensures
        fingerprint::fingerprint(native, doc) is None <==> fingerprint::head(native, doc) is None,
{
}

/// A request carries its system prompt at the top level exactly where its path holds
/// `/v1/messages`, whatever stands before and behind.
pub proof fn law_native_paths_hold_messages(path: Seq<char>, front: Seq<char>, back: Seq<char>)
    ensures
        fingerprint::is_native_path(front + "/v1/messages"@ + back),
        fingerprint::is_native_path(path) ==> exists|f: Seq<char>, b: Seq<char>|
            path == #[trigger] (f + "/v1/messages"@ + b),
{
    text::law_infix_stands_between(path, "/v1/messages"@, front, back);
}

/// The key of a request is the fingerprint of the conversation that its body holds, by the protocol
/// of its path; a body that is not JSON has none.
pub proof fn law_key_is_that_of_the_body(path: &str, body: &[u8], r: Option<u64>)
    requires
        call_ensures(fingerprint::cache_key, (path, body), r),
    ensures
        json::parsed(body@) is None ==> r is None,
        json::parsed(body@) is Some ==> r == fingerprint::fingerprint(
            exists|f: Seq<char>, b: Seq<char>| path@ == #[trigger] (f + "/v1/messages"@ + b),
            json::parsed(body@)->0,
        ),
{
    if exists|f: Seq<char>, b: Seq<char>| path@ == #[trigger] (f + "/v1/messages"@ + b) {
        let (f, b) = choose|f: Seq<char>, b: Seq<char>|
            path@ == #[trigger] (f + "/v1/messages"@ + b);
        law_native_paths_hold_messages(path@, f, b);
    }
    law_native_paths_hold_messages(path@, Seq::empty(), Seq::empty());
}

/// A document is given its own head and its own fingerprint, by the protocol that was said.
pub proof fn law_head_and_key_are_the_documents_own(
    native: bool,
    doc: &Json,
    h: Option<Head>,
    key: Option<u64>,
    stripped: Json,
)
    requires
        call_ensures(fingerprint::conversation_head, (native, doc), h),
        call_ensures(fingerprint::conversation_key, (native, doc), key),
        call_ensures(fingerprint::strip_cache_control, (doc,), stripped),
    ensures
        h is Some <==> fingerprint::head(native, doc@) is Some,
        h is Some ==> (h->0)@ == fingerprint::head(native, doc@)->0,
        key == fingerprint::fingerprint(native, doc@),
        stripped@ == doc@.without("cache_control"@),
{
}

/// A system prompt that is read gives its text, and none gives nothing.
pub proof fn law_system_prompt_is_read(system: &Json, some: String, none: String)
    requires
        call_ensures(fingerprint::normalize_system, (Some(system),), some),
        call_ensures(fingerprint::normalize_system, (None,), none),
    ensures
        some@ == fingerprint::system_prompt(Some(system@)),
        none@.len() == 0,
{
}

} // verus!
