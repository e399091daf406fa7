//! JSON values.

use mcp_toolkit::json::{Json, JsonNumber, JsonObject};

fn number(text: &str) -> Json {
    Json::Number(JsonNumber::from_serde(serde_json::from_str(text).unwrap()))
}

fn object(entries: Vec<(&str, Json)>) -> JsonObject {
    let mut object = JsonObject::new();
    for (key, value) in entries {
        object.insert(key.to_string(), value);
    }
    object
}

fn keys(object: &JsonObject) -> Vec<String> {
    (0..object.len()).map(|i| object.key_at(i).to_string()).collect()
}

#[test]
fn numbers_are_told_apart() {
    assert_eq!(number("7").as_u64(), Some(7));
    assert_eq!(number("18446744073709551615").as_u64(), Some(u64::MAX));
    assert_eq!(number("-7").as_u64(), None);
    assert_eq!(number("7.0").as_u64(), None);
    assert_eq!(number("1.5"), number("1.5"));
    assert!(number("1.5") != number("2.5"));
    assert!(number("-1") != number("1"));
    assert!(number("7") != number("7.0"));
    assert_eq!(number("-1").clone(), number("-1"));
}

#[test]
fn an_entry_keeps_its_place_when_it_is_set_again() {
    let mut o = object(vec![("a", number("1")), ("b", number("2")), ("c", number("3"))]);
    o.insert("b".to_string(), Json::Null);
    assert_eq!(keys(&o), ["a", "b", "c"]);
    assert_eq!(o.get("b"), Some(&Json::Null));
    assert_eq!(o.value_at(2).as_u64(), Some(3));
}

#[test]
fn the_last_entry_takes_the_place_of_a_removed_one() {
    let mut o = object(vec![("a", number("1")), ("b", number("2")), ("c", number("3"))]);
    o.remove("a");
    assert_eq!(keys(&o), ["c", "b"]);
    o.remove("missing");
    assert_eq!(keys(&o), ["c", "b"]);
    o.remove("b");
    assert_eq!(keys(&o), ["c"]);
    assert!(o.contains_key("c"));
    assert!(!o.contains_key("a"));
}

#[test]
fn objects_are_the_same_whatever_the_order() {
    let a = Json::Object(object(vec![("x", Json::Bool(true)), ("y", Json::text("t"))]));
    let b = Json::Object(object(vec![("y", Json::text("t")), ("x", Json::Bool(true))]));
    assert_eq!(a, b);
    let c = Json::Object(object(vec![("y", Json::text("t"))]));
    assert!(a != c);
    assert!(Json::Array(vec![Json::Null]) != Json::Array(vec![]));
}

#[test]
fn a_value_is_written_indented() {
    let inner = object(vec![("b", number("-1.5")), ("c", Json::Bool(false))]);
    let value = Json::Object(object(vec![
        ("z", Json::Array(vec![Json::text("q\"\n"), Json::Null])),
        ("a", Json::Object(inner)),
    ]));
    let text = "{\n  \"z\": [\n    \"q\\\"\\n\",\n    null\n  ],\n  \"a\": {\n    \"b\": -1.5,\n    \"c\": false\n  }\n}";
    assert_eq!(value.render(), text);
    assert_eq!(value.to_pretty().as_deref(), Some(text));
    assert_eq!(
        value.to_serde().to_string(),
        "{\"z\":[\"q\\\"\\n\",null],\"a\":{\"b\":-1.5,\"c\":false}}"
    );
    assert_eq!(value.clone().render(), text);
}

#[test]
fn accessors_answer_only_for_their_kind() {
    assert_eq!(Json::text("x").as_str(), Some("x"));
    assert_eq!(Json::Null.as_str(), None);
    assert!(Json::text("x").as_array().is_none());
    assert!(Json::text("x").as_object().is_none());
    assert!(Json::Array(vec![]).get("x").is_none());
    assert_eq!(Json::Array(vec![Json::Null]).as_array().unwrap().len(), 1);
}
