//! Documents, read and written.

use quota_throttle::json::{Json, Member};
use quota_throttle::text::{contains_text, join_text, push_bytes, same_bytes, same_text};

#[test]
fn documents_are_read() {
    let j = Json::parse(br#" {"a": [null, true, "x", 1.5], "b": {}} "#).unwrap();
    match j.get("a") {
        Some(Json::List(items)) => {
            assert_eq!(items.len(), 4);
            assert!(matches!(items[0], Json::Null));
            assert!(matches!(items[1], Json::Bool(true)));
            assert_eq!(items[2].as_text(), Some("x"));
            assert!(matches!(&items[3], Json::Number(n) if n.as_f64() == Some(1.5)));
        }
        _ => panic!("a list"),
    }
    assert!(matches!(j.get("b"), Some(Json::Object(m)) if m.is_empty()));
    assert!(j.get("c").is_none());
    assert!(Json::Null.get("a").is_none());
    assert!(j.as_text().is_none());
}

#[test]
fn what_is_no_document_is_refused() {
    for bytes in [&b""[..], b"{", b"[1,]", b"nul", b"\xff", b"1 2"] {
        assert!(Json::parse(bytes).is_none());
    }
}

#[test]
fn documents_are_written_compactly_in_order() {
    let j = Json::parse(br#"{ "b" : 1 , "a" : [ "x\n" , null ] }"#).unwrap();
    assert_eq!(j.to_text(), r#"{"a":["x\n",null],"b":1}"#);
    assert_eq!(j.to_bytes(), br#"{"a":["x\n",null],"b":1}"#);
}

#[test]
fn member_order_does_not_count() {
    let member = |name: &str, value| Member { name: name.to_string(), value };
    let a = Json::Object(vec![member("x", Json::Bool(true)), member("y", Json::Null)]);
    let b = Json::Object(vec![member("y", Json::Null), member("x", Json::Bool(true))]);
    assert_eq!(a.to_bytes(), b.to_bytes());
    assert_eq!(a.to_text(), r#"{"x":true,"y":null}"#);
}

#[test]
fn the_later_of_two_members_counts() {
    let member = |name: &str, value| Member { name: name.to_string(), value };
    let a = Json::Object(vec![member("x", Json::Bool(true)), member("x", Json::Bool(false))]);
    assert!(matches!(a.get("x"), Some(Json::Bool(false))));
    assert_eq!(a.to_text(), r#"{"x":false}"#);
    let parsed = Json::parse(br#"{"x":1,"x":2}"#).unwrap();
    assert_eq!(parsed.to_text(), r#"{"x":2}"#);
}

#[test]
fn numbers_keep_their_value() {
    for text in ["0", "-7", "18446744073709551615", "1.5", "1e300"] {
        let j = Json::parse(text.as_bytes()).unwrap();
        let copy = j.without("x");
        assert_eq!(copy.to_text(), j.to_text());
        match (&j, &copy) {
            (Json::Number(a), Json::Number(b)) => assert_eq!(a, b),
            _ => panic!("numbers"),
        }
    }
}

#[test]
fn members_are_dropped_at_any_depth() {
    let j = Json::parse(br#"{"a":{"x":1,"b":[{"x":2},{"y":3}]},"x":{"x":4}}"#).unwrap();
    let once = j.without("x");
    assert_eq!(once.to_text(), r#"{"a":{"b":[{},{"y":3}]}}"#);
    assert_eq!(once.without("x").to_text(), once.to_text());
    assert_eq!(j.without("absent").to_text(), j.to_text());
}

#[test]
fn texts_are_compared_searched_and_joined() {
    assert!(same_text("é", "é"));
    assert!(!same_text("a", "b"));
    assert!(!same_text("a", "aa"));
    assert!(same_bytes(b"", b""));
    assert!(!same_bytes(b"ab", b"ac"));
    assert!(contains_text("abcabd", "abd"));
    assert!(contains_text("abc", ""));
    assert!(!contains_text("ab", "abc"));
    assert!(contains_text("x/v1/messages", "/v1/messages"));
    let parts = vec!["a".to_string(), "".to_string(), "b".to_string()];
    assert_eq!(join_text(&parts, ", "), "a, , b");
    assert_eq!(join_text(&Vec::new(), ", "), "");
    let mut out = vec![1u8];
    push_bytes(&mut out, &[2, 3]);
    assert_eq!(out, vec![1, 2, 3]);
}

#[test]
fn repeated_members_are_written_once() {
    let member = |name: &str, value| Member { name: name.to_string(), value };
    let j = Json::Object(vec![
        member("b", Json::Null),
        member("a", Json::Bool(true)),
        member("b", Json::Bool(false)),
        member("a", Json::Text("z".to_string())),
        member("c", Json::Null),
    ]);
    assert_eq!(j.to_text(), r#"{"a":"z","b":false,"c":null}"#);
}
