//! The fingerprint of a conversation: the same from turn to turn, so that a conversation can stay
//! on the channel that holds its prompt cache.

use sha2::{Digest, Sha256};
use vstd::prelude::*;
use vstd::string::*;
use vstd::utf8::*;

use crate::json;
use crate::json::{Json, JsonValue};
use crate::text;
use crate::text::{contains_text, join_text, push_bytes, same_text};

verus! {

/// How many bytes of the first user message go into the fingerprint. The task text stands at the
/// start of that message, so conversations differ long before this.
pub const KEY_BYTES_CAP: usize = 32768;

/// The part of a conversation that stays the same from turn to turn.
pub struct Head {
    pub model: String,
    pub system: System,
    /// The tool declarations, without cache breakpoints.
    pub tools: Json,
    /// The first user message, without cache breakpoints.
    pub message: Json,
}

/// The system prompt of a conversation.
pub enum System {
    /// One text.
    Text(String),
    /// The system messages in order, without cache breakpoints.
    Messages(Vec<Json>),
}

/// What a [`Head`] says.
pub struct HeadValue {
    pub model: Seq<char>,
    pub system: SystemValue,
    pub tools: JsonValue,
    pub message: JsonValue,
}

/// What a [`System`] says.
pub enum SystemValue {
    Text(Seq<char>),
    Messages(Seq<JsonValue>),
}

impl View for System {
    type V = SystemValue;

    open spec fn view(&self) -> SystemValue {
        match self {
            System::Text(s) => SystemValue::Text(s@),
            System::Messages(v) => SystemValue::Messages(json::list_value(v@)),
        }
    }
}

impl View for Head {
    type V = HeadValue;

    open spec fn view(&self) -> HeadValue {
        HeadValue {
            model: self.model@,
            system: self.system@,
            tools: self.tools@,
            message: self.message@,
        }
    }
}

/// The document without its cache breakpoints.
pub open spec fn stripped(v: JsonValue) -> JsonValue {
    v.without("cache_control"@)
}

/// Whether a message has that role.
pub open spec fn has_role(message: JsonValue, role: Seq<char>) -> bool {
    message.get("role"@) == Some(JsonValue::Text(role))
}

/// The first message with that role.
pub open spec fn first_with_role(messages: Seq<JsonValue>, role: Seq<char>) -> Option<JsonValue>
    decreases messages.len(),
{
    if messages.len() == 0 {
        None
    } else if has_role(messages[0], role) {
        Some(messages[0])
    } else {
        first_with_role(messages.drop_first(), role)
    }
}

/// The messages with that role, without cache breakpoints.
pub open spec fn stripped_with_role(messages: Seq<JsonValue>, role: Seq<char>) -> Seq<JsonValue> {
    messages.filter(|m: JsonValue| has_role(m, role)).map_values(|m: JsonValue| stripped(m))
}

/// The text of a prompt block, or nothing.
pub open spec fn block_text(block: JsonValue) -> Seq<char> {
    match block.get("text"@) {
        Some(JsonValue::Text(t)) => t,
        _ => Seq::empty(),
    }
}

/// The texts of the blocks, one after the other.
pub open spec fn block_texts(blocks: Seq<JsonValue>) -> Seq<char>
    decreases blocks.len(),
{
    if blocks.len() == 0 {
        Seq::empty()
    } else {
        block_texts(blocks.drop_last()) + block_text(blocks.last())
    }
}

/// A top-level system prompt as one text: a string is that text, a list of blocks the texts of its
/// blocks, anything else nothing.
pub open spec fn system_prompt(system: Option<JsonValue>) -> Seq<char> {
    match system {
        Some(JsonValue::Text(s)) => s,
        Some(JsonValue::List(blocks)) => block_texts(blocks),
        _ => Seq::empty(),
    }
}

/// The head of a conversation, or `None` where the document names no model, holds no list of
/// messages or no user message. `native` says that the system prompt stands at the top level; else
/// it stands among the messages.
pub open spec fn head(native: bool, doc: JsonValue) -> Option<HeadValue> {
    match (doc.get("model"@), doc.get("messages"@)) {
        (Some(JsonValue::Text(model)), Some(JsonValue::List(messages))) => match first_with_role(
            messages,
            "user"@,
        ) {
            Some(message) => Some(
                HeadValue {
                    model,
                    system: if native {
                        SystemValue::Text(system_prompt(doc.get("system"@)))
                    } else {
                        SystemValue::Messages(stripped_with_role(messages, "system"@))
                    },
                    tools: match doc.get("tools"@) {
                        Some(tools) => stripped(tools),
                        None => JsonValue::Null,
                    },
                    message: stripped(message),
                },
            ),
            None => None,
        },
        _ => None,
    }
}

/// The system prompt as one text.
pub open spec fn system_text(system: SystemValue) -> Seq<char> {
    match system {
        SystemValue::Text(s) => s,
        SystemValue::Messages(messages) => text::joined(
            messages.map_values(|m: JsonValue| json::compact_text(m)),
            "\n"@,
        ),
    }
}

/// The first bytes, at most [`KEY_BYTES_CAP`] of them.
pub open spec fn capped(bytes: Seq<u8>) -> Seq<u8> {
    if bytes.len() <= KEY_BYTES_CAP {
        bytes
    } else {
        bytes.take(KEY_BYTES_CAP as int)
    }
}

/// The bytes that are hashed: the four parts with a zero byte between them, the last one capped.
pub open spec fn hashed_bytes(
    model: Seq<char>,
    system: Seq<char>,
    tools: Seq<u8>,
    message: Seq<u8>,
) -> Seq<u8> {
    encode_utf8(model) + seq![0u8] + encode_utf8(system) + seq![0u8] + tools + seq![0u8] + capped(
        message,
    )
}

/// The bytes that are hashed for a head.
pub open spec fn head_bytes(h: HeadValue) -> Seq<u8> {
    hashed_bytes(
        h.model,
        system_text(h.system),
        json::compact_bytes(h.tools),
        json::compact_bytes(h.message),
    )
}

/// The number that the first eight bytes spell, the most significant byte first.
pub open spec fn leading_number(bytes: Seq<u8>) -> int {
    bytes[0] * 0x100000000000000 + bytes[1] * 0x1000000000000 + bytes[2] * 0x10000000000 + bytes[3]
        * 0x100000000 + bytes[4] * 0x1000000 + bytes[5] * 0x10000 + bytes[6] * 0x100 + bytes[7]
}

/// The SHA-256 digest of these bytes, as `sha2` computes it.
pub uninterp spec fn sha256(bytes: Seq<u8>) -> Seq<u8>;

/// The fingerprint of a conversation.
pub open spec fn fingerprint(native: bool, doc: JsonValue) -> Option<u64> {
    match head(native, doc) {
        Some(h) => Some(leading_number(sha256(head_bytes(h))) as u64),
        None => None,
    }
}

/// Whether requests to this path carry their system prompt at the top level.
pub open spec fn is_native_path(path: Seq<char>) -> bool {
    text::has_infix(path, "/v1/messages"@)
}

/// Calls `sha2::Sha256::digest`: the digest that [`sha256`] names, 32 bytes long.
#[verifier::external_body]
fn digest(bytes: &[u8]) -> (r: Vec<u8>)
    ensures
        r@ == sha256(bytes@),
        r@.len() == 32,
{
    Sha256::digest(bytes).to_vec()
}

/// The document without its cache breakpoints. They mark where a client wants its cache cut, and
/// move as the conversation goes on: they are no part of what is said.
pub fn strip_cache_control(v: &Json) -> (r: Json)
    ensures
        r@ == stripped(v@),
{
    v.without("cache_control")
}

/// Whether a message has that role.
fn message_has_role(message: &Json, role: &str) -> (r: bool)
    ensures
        r == has_role(message@, role@),
{
    match message.get("role") {
        Some(v) => match v.as_text() {
            Some(t) => same_text(t, role),
            None => false,
        },
        None => false,
    }
}

/// A top-level system prompt as one text.
pub fn normalize_system(system: Option<&Json>) -> (r: String)
    ensures
        r@ == system_prompt(match system { Some(v) => Some(v@), None => None }),
{
    match system {
        Some(Json::Text(s)) => s.clone(),
        Some(Json::List(blocks)) => {
            let mut out = String::new();
            let mut i: usize = 0;
            let ghost values = json::list_value(blocks@);
            proof {
                json::lemma_list_value(blocks@);
            }
            while i < blocks.len()
                invariant
                    i <= blocks@.len(),
                    values == json::list_value(blocks@),
                    out@ == block_texts(values.take(i as int)),
                decreases blocks.len() - i,
            {
                proof {
                    json::lemma_list_value(blocks@);
                    assert(values.take(i + 1).drop_last() =~= values.take(i as int));
                }
                if let Some(v) = blocks[i].get("text") {
                    if let Some(t) = v.as_text() {
                        out.append(t);
                    }
                }
                i += 1;
                assert(out@ =~= block_texts(values.take(i as int)));
            }
            assert(values.take(i as int) =~= values);
            out
        },
        _ => String::new(),
    }
}

/// The head of a conversation, or `None` where the document names no model, holds no list of
/// messages or no user message.
pub fn conversation_head(native: bool, doc: &Json) -> (r: Option<Head>)
    ensures
        match r {
            Some(h) => head(native, doc@) == Some(h@),
            None => head(native, doc@) is None,
        },
{
    let model = match doc.get("model") {
        Some(v) => match v.as_text() {
            Some(t) => t.to_owned(),
            None => return None,
        },
        None => return None,
    };
    let messages = match doc.get("messages") {
        Some(Json::List(messages)) => messages,
        _ => return None,
    };
    let message = match first_message(messages, "user") {
        Some(m) => strip_cache_control(m),
        None => return None,
    };
    let system = if native {
        System::Text(normalize_system(doc.get("system")))
    } else {
        System::Messages(messages_with_role(messages, "system"))
    };
    let tools = match doc.get("tools") {
        Some(v) => strip_cache_control(v),
        None => Json::Null,
    };
    Some(Head { model, system, tools, message })
}

/// The first message with that role.
fn first_message<'a>(messages: &'a Vec<Json>, role: &str) -> (r: Option<&'a Json>)
    ensures
        first_with_role(json::list_value(messages@), role@) == match r {
            Some(m) => Some(m@),
            None => None,
        },
{
    let ghost values = json::list_value(messages@);
    let mut i: usize = 0;
    assert(values.skip(0) =~= values);
    while i < messages.len()
        invariant
            i <= messages@.len(),
            values == json::list_value(messages@),
            first_with_role(values, role@) == first_with_role(values.skip(i as int), role@),
        decreases messages.len() - i,
    {
        proof {
            json::lemma_list_value(messages@);
            assert(values.skip(i as int).drop_first() =~= values.skip(i + 1));
        }
        if message_has_role(&messages[i], role) {
            return Some(&messages[i]);
        }
        i += 1;
    }
    proof {
        json::lemma_list_value(messages@);
    }
    None
}

/// The messages with that role, without cache breakpoints.
fn messages_with_role(messages: &Vec<Json>, role: &str) -> (r: Vec<Json>)
    ensures
        json::list_value(r@) == stripped_with_role(json::list_value(messages@), role@),
{
    let ghost values = json::list_value(messages@);
    let mut out: Vec<Json> = Vec::new();
    let mut i: usize = 0;
    assert(stripped_with_role(values.take(0), role@) =~= Seq::empty());
    while i < messages.len()
        invariant
            i <= messages@.len(),
            values == json::list_value(messages@),
            json::list_value(out@) == stripped_with_role(values.take(i as int), role@),
        decreases messages.len() - i,
    {
        proof {
            json::lemma_list_value(messages@);
            lemma_stripped_with_role_push(values.take(i as int), messages@[i as int]@, role@);
            assert(values.take(i as int).push(messages@[i as int]@) =~= values.take(i + 1));
        }
        if message_has_role(&messages[i], role) {
            let ghost before = out@;
            out.push(strip_cache_control(&messages[i]));
            assert(out@.drop_last() =~= before);
        }
        i += 1;
    }
    proof {
        json::lemma_list_value(messages@);
        assert(values.take(i as int) =~= values);
    }
    out
}

/// One more message.
proof fn lemma_stripped_with_role_push(messages: Seq<JsonValue>, m: JsonValue, role: Seq<char>)
    ensures
        stripped_with_role(messages.push(m), role) == if has_role(m, role) {
            stripped_with_role(messages, role).push(stripped(m))
        } else {
            stripped_with_role(messages, role)
        },
{
    reveal(Seq::filter);
    let all = messages.push(m);
    assert(all.drop_last() =~= messages);
    let pred = |m: JsonValue| has_role(m, role);
    assert(all.filter(pred) == if pred(m) {
        messages.filter(pred).push(m)
    } else {
        messages.filter(pred)
    });
    if has_role(m, role) {
        assert(stripped_with_role(all, role) =~= stripped_with_role(messages, role).push(
            stripped(m),
        ));
    }
}

/// The bytes to hash: the four parts with a zero byte between them, the last one capped.
pub fn assemble(model: &str, system: &str, tools: &[u8], message: &[u8]) -> (r: Vec<u8>)
    ensures
        r@ == hashed_bytes(model@, system@, tools@, message@),
{
    let mut out: Vec<u8> = Vec::new();
    push_bytes(&mut out, model.as_bytes());
    out.push(0);
    push_bytes(&mut out, system.as_bytes());
    out.push(0);
    push_bytes(&mut out, tools);
    out.push(0);
    let mut i: usize = 0;
    let ghost front = out@;
    while i < message.len() && i < KEY_BYTES_CAP
        invariant
            i <= message@.len(),
            i <= KEY_BYTES_CAP,
            out@ == front + message@.take(i as int),
        decreases message.len() - i,
    {
        out.push(message[i]);
        assert(message@.take(i as int).push(message@[i as int]) =~= message@.take(i + 1));
        i += 1;
    }
    assert(message@.take(i as int) =~= capped(message@));
    assert(out@ =~= hashed_bytes(model@, system@, tools@, message@));
    out
}

/// The number that the first eight bytes spell, the most significant byte first.
pub fn leading_u64(bytes: &[u8]) -> (r: u64)
    requires
        bytes@.len() >= 8,
    ensures
        r == leading_number(bytes@),
{
    let high: u64 = bytes[0] as u64 * 0x1000000 + bytes[1] as u64 * 0x10000 + bytes[2] as u64
        * 0x100 + bytes[3] as u64;
    let low: u64 = bytes[4] as u64 * 0x1000000 + bytes[5] as u64 * 0x10000 + bytes[6] as u64 * 0x100
        + bytes[7] as u64;
    high * 0x100000000 + low
}

/// The fingerprint of a conversation, or `None` where it has no head.
pub fn conversation_key(native: bool, doc: &Json) -> (r: Option<u64>)
    ensures
        r == fingerprint(native, doc@),
{
    match conversation_head(native, doc) {
        Some(h) => {
            let system = match h.system {
                System::Text(s) => s,
                System::Messages(messages) => {
                    let mut parts: Vec<String> = Vec::new();
                    let mut i: usize = 0;
                    let ghost values = json::list_value(messages@);
                    while i < messages.len()
                        invariant
                            i <= messages@.len(),
                            parts@.len() == i,
                            values == json::list_value(messages@),
                            forall|k: int|
                                0 <= k < i ==> (#[trigger] parts@[k])@ == json::compact_text(
                                    values[k],
                                ),
                        decreases messages.len() - i,
                    {
                        proof {
                            json::lemma_list_value(messages@);
                        }
                        parts.push(messages[i].to_text());
                        i += 1;
                    }
                    proof {
                        json::lemma_list_value(messages@);
                        assert(parts@.map_values(|p: String| p@) =~= values.map_values(
                            |m: JsonValue| json::compact_text(m),
                        ));
                    }
                    join_text(&parts, "\n")
                },
            };
            let tools = h.tools.to_bytes();
            let message = h.message.to_bytes();
            let bytes = assemble(
                h.model.as_str(),
                system.as_str(),
                tools.as_slice(),
                message.as_slice(),
            );
            let d = digest(bytes.as_slice());
            Some(leading_u64(d.as_slice()))
        },
        None => None,
    }
}

/// The fingerprint of the conversation that a request carries, or `None` where its body is not
/// JSON or has no head: such a request is still routed, but no pool entry is kept for it.
pub fn cache_key(path: &str, body: &[u8]) -> (r: Option<u64>)
    ensures
        r == match json::parsed(body@) {
            Some(doc) => fingerprint(is_native_path(path@), doc),
            None => None,
        },
{
    match Json::parse(body) {
        Some(doc) => conversation_key(contains_text(path, "/v1/messages"), &doc),
        None => None,
    }
}

/// The names that the head reads are not the one that is dropped.
proof fn lemma_names_differ()
    ensures
        "cache_control"@ != "model"@,
        "cache_control"@ != "messages"@,
        "cache_control"@ != "system"@,
        "cache_control"@ != "tools"@,
        "cache_control"@ != "role"@,
        "cache_control"@ != "text"@,
{
    reveal_strlit("cache_control");
    reveal_strlit("model");
    reveal_strlit("messages");
    reveal_strlit("system");
    reveal_strlit("tools");
    reveal_strlit("role");
    reveal_strlit("text");
    assert("cache_control"@.len() == 13);
    assert("model"@.len() == 5);
    assert("messages"@.len() == 8);
    assert("system"@.len() == 6);
    assert("tools"@.len() == 5);
    assert("role"@.len() == 4);
    assert("text"@.len() == 4);
}

/// A message keeps its role, and a block its text, without breakpoints.
proof fn lemma_stripped_keeps_role_and_text(m: JsonValue)
    ensures
        forall|role: Seq<char>| has_role(stripped(m), role) == #[trigger] has_role(m, role),
        block_text(stripped(m)) == block_text(m),
{
    lemma_names_differ();
    m.lemma_get_without("cache_control"@, "role"@);
    m.lemma_get_without("cache_control"@, "text"@);
}

/// The messages without breakpoints.
pub open spec fn stripped_all(messages: Seq<JsonValue>) -> Seq<JsonValue> {
    messages.map_values(|m: JsonValue| stripped(m))
}

proof fn lemma_first_with_role_stripped(messages: Seq<JsonValue>, role: Seq<char>)
    ensures
        first_with_role(stripped_all(messages), role) == match first_with_role(messages, role) {
            Some(m) => Some(stripped(m)),
            None => None,
        },
    decreases messages.len(),
{
    if messages.len() > 0 {
        lemma_stripped_keeps_role_and_text(messages[0]);
        assert(has_role(stripped(messages[0]), role) == has_role(messages[0], role));
        lemma_first_with_role_stripped(messages.drop_first(), role);
        assert(stripped_all(messages).drop_first() =~= stripped_all(messages.drop_first()));
    }
}

proof fn lemma_with_role_stripped(messages: Seq<JsonValue>, role: Seq<char>)
    ensures
        stripped_with_role(stripped_all(messages), role) == stripped_with_role(messages, role),
    decreases messages.len(),
{
    if messages.len() > 0 {
        let rest = messages.drop_last();
        let m = messages.last();
        lemma_with_role_stripped(rest, role);
        lemma_stripped_keeps_role_and_text(m);
        assert(has_role(stripped(m), role) == has_role(m, role));
        m.lemma_without_twice("cache_control"@);
        lemma_stripped_with_role_push(rest, m, role);
        lemma_stripped_with_role_push(stripped_all(rest), stripped(m), role);
        assert(rest.push(m) =~= messages);
        assert(stripped_all(rest).push(stripped(m)) =~= stripped_all(messages));
    } else {
        assert(stripped_all(messages) =~= messages);
    }
}

proof fn lemma_block_texts_stripped(blocks: Seq<JsonValue>)
    ensures
        block_texts(stripped_all(blocks)) == block_texts(blocks),
    decreases blocks.len(),
{
    if blocks.len() > 0 {
        lemma_block_texts_stripped(blocks.drop_last());
        lemma_stripped_keeps_role_and_text(blocks.last());
        assert(stripped_all(blocks).drop_last() =~= stripped_all(blocks.drop_last()));
    }
}

/// Cache breakpoints are no part of a conversation's head, wherever they stand.
pub proof fn law_breakpoints_do_not_count(native: bool, doc: JsonValue)
    ensures
        head(native, stripped(doc)) == head(native, doc),
{
    let cc = "cache_control"@;
    lemma_names_differ();
    doc.lemma_get_without(cc, "model"@);
    doc.lemma_get_without(cc, "messages"@);
    doc.lemma_get_without(cc, "system"@);
    doc.lemma_get_without(cc, "tools"@);
    if let Some(JsonValue::List(messages)) = doc.get("messages"@) {
        assert(stripped(JsonValue::List(messages))->List_0 =~= stripped_all(messages));
        lemma_first_with_role_stripped(messages, "user"@);
        lemma_with_role_stripped(messages, "system"@);
        if let Some(m) = first_with_role(messages, "user"@) {
            m.lemma_without_twice(cc);
        }
    }
    if let Some(JsonValue::List(blocks)) = doc.get("system"@) {
        assert(stripped(JsonValue::List(blocks))->List_0 =~= stripped_all(blocks));
        lemma_block_texts_stripped(blocks);
    }
    if let Some(tools) = doc.get("tools"@) {
        tools.lemma_without_twice(cc);
    }
}

/// Two documents that differ only in their cache breakpoints have one fingerprint: the breakpoint
/// that a client moves to its newest message does not cost the conversation its channel.
pub proof fn law_moved_breakpoints_keep_the_fingerprint(native: bool, a: JsonValue, b: JsonValue)
    requires
        stripped(a) == stripped(b),
    ensures
        fingerprint(native, a) == fingerprint(native, b),
{
    law_breakpoints_do_not_count(native, a);
    law_breakpoints_do_not_count(native, b);
}

/// A later message does not change which one is first.
proof fn lemma_first_with_role_add(
    messages: Seq<JsonValue>,
    more: Seq<JsonValue>,
    role: Seq<char>,
)
    requires
        first_with_role(messages, role) is Some,
    ensures
        first_with_role(messages + more, role) == first_with_role(messages, role),
    decreases messages.len(),
{
    if !has_role(messages[0], role) {
        lemma_first_with_role_add(messages.drop_first(), more, role);
        assert((messages + more).drop_first() =~= messages.drop_first() + more);
    }
}

/// Messages of other roles add nothing.
proof fn lemma_with_role_add(messages: Seq<JsonValue>, more: Seq<JsonValue>, role: Seq<char>)
    requires
        forall|i: int| 0 <= i < more.len() ==> !has_role(#[trigger] more[i], role),
    ensures
        stripped_with_role(messages + more, role) == stripped_with_role(messages, role),
    decreases more.len(),
{
    if more.len() > 0 {
        let rest = more.drop_last();
        assert forall|i: int| 0 <= i < rest.len() implies !has_role(#[trigger] rest[i], role) by {
            assert(rest[i] == more[i]);
        }
        lemma_with_role_add(messages, rest, role);
        lemma_stripped_with_role_push(messages + rest, more.last(), role);
        assert((messages + rest).push(more.last()) =~= messages + more);
    } else {
        assert(messages + more =~= messages);
    }
}

/// The turns that follow do not change a conversation's fingerprint, wherever the cache breakpoints
/// have moved meanwhile: `later` repeats the messages of `earlier`, apart from breakpoints, and adds
/// `more` at the end. Of the rest only the model, the tools and a top-level system prompt must
/// agree, apart from breakpoints. Where the system prompt stands among the messages, the further
/// ones hold no system message.
pub proof fn law_later_turns_keep_the_fingerprint(
    native: bool,
    earlier: JsonValue,
    later: JsonValue,
    messages: Seq<JsonValue>,
    repeated: Seq<JsonValue>,
    more: Seq<JsonValue>,
)
    requires
        earlier.get("messages"@) == Some(JsonValue::List(messages)),
        later.get("messages"@) == Some(JsonValue::List(repeated + more)),
        stripped_all(repeated) == stripped_all(messages),
        stripped(later).get("model"@) == stripped(earlier).get("model"@),
        stripped(later).get("tools"@) == stripped(earlier).get("tools"@),
        native ==> stripped(later).get("system"@) == stripped(earlier).get("system"@),
        head(native, earlier) is Some,
        native || forall|i: int| 0 <= i < more.len() ==> !has_role(#[trigger] more[i], "system"@),
    ensures
        head(native, later) == head(native, earlier),
        fingerprint(native, later) == fingerprint(native, earlier),
{
    let cc = "cache_control"@;
    lemma_names_differ();
    law_breakpoints_do_not_count(native, earlier);
    law_breakpoints_do_not_count(native, later);
    earlier.lemma_get_without(cc, "messages"@);
    later.lemma_get_without(cc, "messages"@);
    let first = stripped_all(messages);
    let added = stripped_all(more);
    assert(stripped(JsonValue::List(messages))->List_0 =~= first);
    assert(stripped(JsonValue::List(repeated + more))->List_0 =~= first + added) by {
        assert(stripped_all(repeated + more) =~= stripped_all(repeated) + added);
        assert(stripped(JsonValue::List(repeated + more))->List_0 =~= stripped_all(
            repeated + more,
        ));
    }
    lemma_first_with_role_add(first, added, "user"@);
    if !native {
        assert forall|i: int| 0 <= i < added.len() implies !has_role(
            #[trigger] added[i],
            "system"@,
        ) by {
            lemma_stripped_keeps_role_and_text(more[i]);
            assert(!has_role(more[i], "system"@));
        }
        lemma_with_role_add(first, added, "system"@);
    }
}

/// A conversation with a user message, a model and a list of messages has a fingerprint, and no
/// other has.
pub proof fn law_fingerprint_exists(native: bool, doc: JsonValue)
    ensures
        fingerprint(native, doc) is Some <==> {
            &&& doc.get("model"@) matches Some(JsonValue::Text(_))
            &&& doc.get("messages"@) matches Some(JsonValue::List(messages))
            &&& exists|i: int|
                0 <= i < messages.len() && has_role(#[trigger] messages[i], "user"@)
        },
{
    if let Some(JsonValue::List(messages)) = doc.get("messages"@) {
        lemma_first_with_role_exists(messages, "user"@);
    }
}

proof fn lemma_first_with_role_exists(messages: Seq<JsonValue>, role: Seq<char>)
    ensures
        first_with_role(messages, role) is Some <==> exists|i: int|
            0 <= i < messages.len() && has_role(#[trigger] messages[i], role),
    decreases messages.len(),
{
    if messages.len() > 0 {
        let rest = messages.drop_first();
        lemma_first_with_role_exists(rest, role);
        if exists|i: int| 0 <= i < messages.len() && has_role(#[trigger] messages[i], role) {
            let i = choose|i: int|
                0 <= i < messages.len() && has_role(#[trigger] messages[i], role);
            if i > 0 {
                assert(has_role(rest[i - 1], role));
            }
        }
        if first_with_role(rest, role) is Some {
            let i = choose|i: int| 0 <= i < rest.len() && has_role(#[trigger] rest[i], role);
            assert(has_role(messages[i + 1], role));
        }
    }
}

} // verus!
