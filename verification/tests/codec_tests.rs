use message_buffer::codec::{list_to_json, message_from_json, message_to_json};
use message_buffer::Message;

fn msg(message: &str, author: &str) -> Message {
    Message {
        message: message.to_string(),
        author: author.to_string(),
    }
}

#[test]
fn serialize_is_exact() {
    let j = message_to_json(&msg("hi", "a"));
    assert_eq!(j, "{\"message\":\"hi\",\"author\":\"a\"}");
}

#[test]
fn round_trip_plain() {
    let m = msg("hi there", "alice");
    let back = message_from_json(&message_to_json(&m)).unwrap();
    assert_eq!(back.message, m.message);
    assert_eq!(back.author, m.author);
}

#[test]
fn round_trip_with_escapes() {
    let m = msg("say \"hi\"\\\n\tdone", "a\rb");
    let back = message_from_json(&message_to_json(&m)).unwrap();
    assert_eq!(back.message, m.message);
    assert_eq!(back.author, m.author);
}

#[test]
fn round_trip_empty_fields() {
    let m = msg("", "");
    let back = message_from_json(&message_to_json(&m)).unwrap();
    assert_eq!(back.message, "");
    assert_eq!(back.author, "");
}

#[test]
fn round_trip_non_ascii() {
    let m = msg("héllo wörld", "ünicode");
    let back = message_from_json(&message_to_json(&m)).unwrap();
    assert_eq!(back.message, m.message);
    assert_eq!(back.author, m.author);
}

#[test]
fn parse_accepts_whitespace_and_swapped_fields() {
    let back =
        message_from_json(" { \"author\" : \"a\" ,\n\t\"message\" : \"hi\" } ").unwrap();
    assert_eq!(back.message, "hi");
    assert_eq!(back.author, "a");
}

#[test]
fn parse_decodes_escapes() {
    let back = message_from_json("{\"message\":\"a\\u{?}\",\"author\":\"b\"}");
    assert!(back.is_none());
    let back = message_from_json("{\"message\":\"a\\\"b\\\\c\\nd\\te\\rf\\/g\",\"author\":\"x\"}")
        .unwrap();
    assert_eq!(back.message, "a\"b\\c\nd\te\rf/g");
}

#[test]
fn parse_rejects_malformed_bodies() {
    assert!(message_from_json("").is_none());
    assert!(message_from_json("not json").is_none());
    assert!(message_from_json("{\"message\":\"hi\"}").is_none());
    assert!(message_from_json("{\"message\":\"hi\",\"writer\":\"a\"}").is_none());
    assert!(message_from_json("{\"message\":\"hi\",\"author\":\"a\"} trailing").is_none());
    assert!(message_from_json("{\"message\":\"hi\",\"author\":\"a\"").is_none());
    assert!(message_from_json("{\"message\":\"hi\",\"author\":1}").is_none());
    assert!(message_from_json("{\"message\":\"hi\",\"message\":\"a\"}").is_none());
}

#[test]
fn control_characters_are_escaped_on_output() {
    let j = message_to_json(&msg("a\u{1}b\u{8}c\u{c}d\u{1f}", "x"));
    assert_eq!(
        j,
        "{\"message\":\"a\\u0001b\\bc\\fd\\u001f\",\"author\":\"x\"}"
    );
}

#[test]
fn unicode_escapes_are_decoded() {
    let back = message_from_json("{\"message\":\"\\u0041\\u00e9\\u250C\",\"author\":\"a\"}")
        .unwrap();
    assert_eq!(back.message, "Aé┌");
}

#[test]
fn surrogate_escapes_are_rejected() {
    assert!(message_from_json("{\"message\":\"\\uD83D\\uDE00\",\"author\":\"a\"}").is_none());
    assert!(message_from_json("{\"message\":\"\\uDC00\",\"author\":\"a\"}").is_none());
}

#[test]
fn raw_control_characters_are_rejected_on_input() {
    assert!(message_from_json("{\"message\":\"a\u{1}b\",\"author\":\"x\"}").is_none());
    assert!(message_from_json("{\"message\":\"a\tb\",\"author\":\"x\"}").is_none());
}

#[test]
fn unknown_members_are_tolerated() {
    let back = message_from_json("{\"message\":\"hi\",\"author\":\"a\",\"ts\":1}").unwrap();
    assert_eq!(back.message, "hi");
    assert_eq!(back.author, "a");
    let back = message_from_json(
        "{\"note\":\"x\",\"author\":\"a\",\"ok\":true,\"message\":\"hi\",\"n\":null,\"f\":-1.5e3}",
    )
    .unwrap();
    assert_eq!(back.message, "hi");
    assert_eq!(back.author, "a");
    assert!(message_from_json("{\"message\":\"hi\",\"author\":\"a\",\"x\":{}}").is_none());
    assert!(message_from_json("{\"message\":\"hi\",\"author\":\"a\",\"x\":[1]}").is_none());
}

#[test]
fn control_round_trip_and_serde_agreement() {
    let m = msg("a\u{1}b\u{8}\u{c}\u{7f}", "x\u{1f}");
    let j = message_to_json(&m);
    let back = message_from_json(&j).unwrap();
    assert_eq!(back.message, m.message);
    assert_eq!(back.author, m.author);
    let v: serde_json::Value = serde_json::from_str(&j).unwrap();
    assert_eq!(v["message"], m.message.as_str());
    assert_eq!(v["author"], m.author.as_str());
}

#[test]
fn serde_encoded_controls_parse() {
    let mut fields = std::collections::BTreeMap::new();
    fields.insert("message".to_string(), "a\u{1}b\u{8}".to_string());
    fields.insert("author".to_string(), "x".to_string());
    let j = serde_json::to_string(&fields).unwrap();
    let back = message_from_json(&j).unwrap();
    assert_eq!(back.message, "a\u{1}b\u{8}");
    assert_eq!(back.author, "x");
}

#[test]
fn list_serialization_is_exact() {
    let msgs: Vec<Message> = vec![];
    assert_eq!(list_to_json(&msgs), "[]");
    let msgs = vec![msg("hi", "a")];
    assert_eq!(list_to_json(&msgs), "[{\"message\":\"hi\",\"author\":\"a\"}]");
    let msgs = vec![msg("hi", "a"), msg("yo", "b")];
    assert_eq!(
        list_to_json(&msgs),
        "[{\"message\":\"hi\",\"author\":\"a\"},{\"message\":\"yo\",\"author\":\"b\"}]"
    );
}

#[test]
fn serialized_message_is_valid_json_elsewhere() {
    let m = msg("say \"hi\"", "a\tb");
    let j = message_to_json(&m);
    let v: serde_json::Value = serde_json::from_str(&j).unwrap();
    assert_eq!(v["message"], "say \"hi\"");
    assert_eq!(v["author"], "a\tb");
}

#[test]
fn json_from_elsewhere_parses() {
    let mut fields = std::collections::BTreeMap::new();
    fields.insert("message".to_string(), "hi \"you\"\n".to_string());
    fields.insert("author".to_string(), "a\\b".to_string());
    let j = serde_json::to_string(&fields).unwrap();
    let back = message_from_json(&j).unwrap();
    assert_eq!(back.message, "hi \"you\"\n");
    assert_eq!(back.author, "a\\b");
}
