//! Fingerprints of conversations.

use quota_throttle::fingerprint::{
    assemble, cache_key, conversation_head, conversation_key, leading_u64, normalize_system,
    strip_cache_control, System, KEY_BYTES_CAP,
};
use quota_throttle::json::Json;

fn json(s: &str) -> Json {
    Json::parse(s.as_bytes()).unwrap()
}

#[test]
fn the_fingerprint_is_the_start_of_a_digest() {
    // The first eight bytes of the SHA-256 of
    // m 0 hi 0 [{"name":"t"}] 0 {"content":"hello","role":"user"}
    let a = br#"{"model":"m","system":"hi","tools":[{"name":"t"}],"messages":[{"role":"user","content":"hello"}]}"#;
    assert_eq!(cache_key("/v1/messages", a), Some(5943509633980667207));
}

#[test]
fn system_messages_are_joined_by_newlines() {
    // m 0 {"content":"a","role":"system"} newline {"content":"b","role":"system"} 0 null 0
    // {"content":"task","role":"user"}
    let a = br#"{"model":"m","messages":[{"role":"system","content":"a"},{"role":"user","content":"task"},{"role":"system","content":"b"}]}"#;
    assert_eq!(cache_key("/v1/chat/completions", a), Some(10055802437281246975));
    // The top-level prompt is read on the other kind of path only.
    assert_ne!(cache_key("/v1/messages", a), cache_key("/v1/chat/completions", a));
}

#[test]
fn prompt_blocks_are_joined() {
    let a = br#"{"model":"m","system":[{"type":"text","text":"s1"},{"type":"image"},{"text":7},{"text":"s2"}],"messages":[{"role":"user","content":"x"}]}"#;
    assert_eq!(cache_key("/v1/messages", a), Some(16262859444831896240));
    let none = br#"{"model":"m","system":{"text":"s1"},"messages":[{"role":"user","content":"x"}]}"#;
    assert_eq!(cache_key("/v1/messages", none), Some(16385841734624452204));
}

#[test]
fn the_path_may_hold_more() {
    let a = br#"{"model":"m","system":"s","messages":[{"role":"user","content":"x"}]}"#;
    let native = cache_key("/v1/messages", a);
    assert_eq!(cache_key("/proxy/v1/messages?beta=true", a), native);
    assert_ne!(cache_key("/v1/message", a), native);
    assert_ne!(cache_key("", a), native);
}

#[test]
fn what_has_no_head_has_no_fingerprint() {
    for body in [
        &b""[..],
        b"[]",
        b"\"m\"",
        br#"{"messages":[{"role":"user"}]}"#,
        br#"{"model":1,"messages":[{"role":"user"}]}"#,
        br#"{"model":"m","messages":{"role":"user"}}"#,
        br#"{"model":"m","messages":[{"role":"assistant"}]}"#,
        br#"{"model":"m","messages":[{"role":1},"user"]}"#,
        br#"{"model":"m","messages":[{"role":"user"}]} x"#,
    ] {
        assert_eq!(cache_key("/v1/messages", body), None);
        assert_eq!(cache_key("/v1/chat/completions", body), None);
    }
    assert!(cache_key("/v1/messages", br#"{"model":"m","messages":[{"role":"user"}]}"#).is_some());
}

#[test]
fn breakpoints_do_not_count_wherever_they_stand() {
    let plain = json(
        r#"{"model":"m","system":[{"text":"s"}],"tools":[{"name":"t"}],"messages":[{"role":"user","content":[{"text":"a"}]}]}"#,
    );
    let marked = json(
        r#"{"cache_control":1,"model":"m","system":[{"text":"s","cache_control":{}}],"tools":[{"name":"t","cache_control":{"type":"ephemeral"}}],"messages":[{"role":"user","cache_control":null,"content":[{"text":"a","cache_control":[1]}]}]}"#,
    );
    for native in [true, false] {
        let key = conversation_key(native, &plain);
        assert!(key.is_some());
        assert_eq!(conversation_key(native, &marked), key);
        assert_eq!(conversation_key(native, &strip_cache_control(&marked)), key);
    }
}

#[test]
fn stripping_goes_all_the_way_down() {
    let j = json(r#"{"a":[{"cache_control":1,"b":{"cache_control":{"c":2},"d":3}}],"cache_control":4}"#);
    assert_eq!(strip_cache_control(&j).to_text(), r#"{"a":[{"b":{"d":3}}]}"#);
    // A text that reads so is no member.
    assert_eq!(strip_cache_control(&json(r#"["cache_control"]"#)).to_text(), r#"["cache_control"]"#);
}

#[test]
fn later_turns_keep_the_fingerprint() {
    let t1 = json(r#"{"model":"m","messages":[{"role":"system","content":"s"},{"role":"user","content":"a"}]}"#);
    let t2 = json(
        r#"{"model":"m","messages":[{"role":"system","content":"s"},{"role":"user","content":"a"},{"role":"assistant","content":"b"},{"role":"user","content":"c"}]}"#,
    );
    assert_eq!(conversation_key(false, &t1), conversation_key(false, &t2));
    assert_eq!(conversation_key(true, &t1), conversation_key(true, &t2));
    // A further system message is another prompt, where prompts stand among the messages.
    let t3 = json(
        r#"{"model":"m","messages":[{"role":"system","content":"s"},{"role":"user","content":"a"},{"role":"system","content":"z"}]}"#,
    );
    assert_ne!(conversation_key(false, &t1), conversation_key(false, &t3));
    assert_eq!(conversation_key(true, &t1), conversation_key(true, &t3));
}

#[test]
fn the_head_holds_the_four_parts() {
    let j = json(
        r#"{"model":"m","system":"top","messages":[{"role":"system","content":"in"},{"role":"user","content":"a"},{"role":"user","content":"b"}]}"#,
    );
    let h = conversation_head(true, &j).unwrap();
    assert_eq!(h.model, "m");
    assert!(matches!(h.system, System::Text(ref s) if s == "top"));
    assert_eq!(h.tools.to_text(), "null");
    assert_eq!(h.message.to_text(), r#"{"content":"a","role":"user"}"#);
    match conversation_head(false, &j).unwrap().system {
        System::Messages(v) => {
            assert_eq!(v.len(), 1);
            assert_eq!(v[0].to_text(), r#"{"content":"in","role":"system"}"#);
        }
        System::Text(_) => panic!("the prompt stands among the messages"),
    }
}

#[test]
fn a_system_prompt_is_one_text() {
    assert_eq!(normalize_system(None), "");
    assert_eq!(normalize_system(Some(&json("\"s\""))), "s");
    assert_eq!(normalize_system(Some(&json("7"))), "");
    assert_eq!(normalize_system(Some(&json(r#"[{"text":"a"},{},{"text":"b"}]"#))), "ab");
}

#[test]
fn four_parts_with_zeros_between() {
    assert_eq!(assemble("m", "s", b"[]", b"{}"), b"m\0s\0[]\0{}");
    assert_eq!(assemble("", "", b"", b""), b"\0\0\0");
}

#[test]
fn only_the_start_of_a_long_message_counts() {
    let long = vec![b'x'; KEY_BYTES_CAP + 10];
    let out = assemble("m", "s", b"t", &long);
    assert_eq!(out.len(), "m0s0t0".len() + KEY_BYTES_CAP);
    let body = |tail: &str| {
        format!(
            r#"{{"model":"m","messages":[{{"role":"user","content":"{}{}"}}]}}"#,
            "x".repeat(KEY_BYTES_CAP),
            tail
        )
    };
    let a = cache_key("/v1/messages", body("one").as_bytes());
    let b = cache_key("/v1/messages", body("two").as_bytes());
    assert!(a.is_some());
    assert_eq!(a, b);
}

#[test]
fn eight_bytes_spell_a_number() {
    assert_eq!(leading_u64(&[1, 2, 3, 4, 5, 6, 7, 8, 9]), 0x0102030405060708);
    assert_eq!(leading_u64(&[255; 8]), u64::MAX);
    assert_eq!(leading_u64(&[0, 0, 0, 0, 0, 0, 0, 1]), 1);
}

#[test]
fn a_later_turn_may_move_breakpoints_and_change_other_fields() {
    let t1 = json(
        r#"{"model":"m","max_tokens":10,"system":[{"text":"s","cache_control":{}}],"tools":[{"name":"t"}],"messages":[{"role":"user","content":[{"text":"a","cache_control":{}}]}]}"#,
    );
    let t2 = json(
        r#"{"model":"m","stream":true,"system":[{"text":"s"}],"tools":[{"name":"t","cache_control":{}}],"messages":[{"role":"user","content":[{"text":"a"}]},{"role":"assistant","content":"b"},{"role":"user","content":[{"text":"c","cache_control":{}}]}]}"#,
    );
    let key = conversation_key(true, &t1);
    assert!(key.is_some());
    assert_eq!(conversation_key(true, &t2), key);
    assert_eq!(conversation_key(false, &t2), conversation_key(false, &t1));
}
