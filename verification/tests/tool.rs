//! Tool definitions, outputs, failures and timeouts.

use mcp_toolkit::json::{Json, JsonNumber, JsonObject};
use mcp_toolkit::tool::strip_argument;
use mcp_toolkit::{
    ensure_timeout_property, requested_timeout, strip_timeout, ToolDef, ToolFailure, ToolOutput,
};

fn convert(value: serde_json::Value) -> Json {
    match value {
        serde_json::Value::Null => Json::Null,
        serde_json::Value::Bool(b) => Json::Bool(b),
        serde_json::Value::Number(n) => Json::Number(JsonNumber::from_serde(n)),
        serde_json::Value::String(s) => Json::Text(s),
        serde_json::Value::Array(items) => Json::Array(items.into_iter().map(convert).collect()),
        serde_json::Value::Object(entries) => {
            let mut object = JsonObject::new();
            for (key, value) in entries {
                object.insert(key, convert(value));
            }
            Json::Object(object)
        }
    }
}

fn json(text: &str) -> Json {
    convert(serde_json::from_str(text).unwrap())
}

fn schema() -> Json {
    json(
        r#"{
            "type": "object",
            "properties": { "path": { "type": "string" }, "depth": { "type": "integer" } },
            "required": ["path"]
        }"#,
    )
}

fn timeout_type(schema: &Json) -> Option<&str> {
    schema.get("properties")?.get("timeout")?.get("type")?.as_str()
}

#[test]
fn a_definition_exposes_its_properties_and_required_fields() {
    let tool = ToolDef::new("t", "d", schema());
    assert_eq!(tool.properties(), ["path", "depth"]);
    assert_eq!(tool.required(), ["path"]);
}

#[test]
fn a_schema_without_properties_yields_empty_lists() {
    let tool = ToolDef::new("t", "d", json(r#"{ "type": "object" }"#));
    assert!(tool.properties().is_empty());
    assert!(tool.required().is_empty());
}

#[test]
fn structured_output_carries_both_renderings() {
    let out = ToolOutput::structured(json(r#"{ "count": 2 }"#));
    assert_eq!(out.structured, Some(json(r#"{ "count": 2 }"#)));
    assert!(out.text.contains("\"count\": 2"));
    assert!(!out.is_error);
}

#[test]
fn failures_are_classified_for_the_wire() {
    assert!(ToolFailure::Failed("x".into()).is_tool_level());
    assert!(ToolFailure::Denied("x".into()).is_tool_level());
    assert!(ToolFailure::Timeout { tool: "t".into(), seconds: 1 }.is_tool_level());
    assert!(!ToolFailure::InvalidArguments("x".into()).is_tool_level());
    assert!(!ToolFailure::NotFound("x".into()).is_tool_level());
}

#[test]
fn a_timeout_property_is_injected_once() {
    let mut s = schema();
    assert!(ensure_timeout_property(&mut s, 300));
    assert_eq!(timeout_type(&s), Some("integer"));
    assert!(!ensure_timeout_property(&mut s, 300));
}

#[test]
fn a_tool_declaring_its_own_timeout_is_left_alone() {
    let mut s = json(r#"{ "properties": { "timeout": { "type": "string" } } }"#);
    assert!(!ensure_timeout_property(&mut s, 300));
    assert_eq!(timeout_type(&s), Some("string"));

    let mut s = json(r#"{ "properties": { "timeout_ms": { "type": "integer" } } }"#);
    assert!(!ensure_timeout_property(&mut s, 300));
}

#[test]
fn the_requested_timeout_is_read_and_clamped() {
    assert_eq!(requested_timeout(&json("{}"), 30, 300), 30);
    assert_eq!(requested_timeout(&json(r#"{ "timeout": 7 }"#), 30, 300), 7);
    assert_eq!(requested_timeout(&json(r#"{ "timeout_ms": 4500 }"#), 30, 300), 5);
    assert_eq!(requested_timeout(&json(r#"{ "timeout": 9999 }"#), 30, 300), 300);
    assert_eq!(requested_timeout(&json(r#"{ "timeout": 0 }"#), 30, 300), 1);
}

#[test]
fn the_injected_timeout_is_stripped_before_dispatch() {
    assert_eq!(strip_timeout(json(r#"{ "a": 1, "timeout": 5 }"#)), json(r#"{ "a": 1 }"#));
    assert_eq!(strip_timeout(json("[1]")), json("[1]"));
}

#[test]
fn an_injected_timeout_is_described_with_its_bound() {
    let mut s = json(r#"{ "title": "x" }"#);
    assert!(ensure_timeout_property(&mut s, 45));
    assert_eq!(
        s,
        json(
            r#"{ "title": "x", "properties": { "timeout": { "type": "integer",
                "description": "Optional. Abort this call after this many seconds (max 45)." } } }"#
        )
    );
    assert_eq!(s.as_object().unwrap().key_at(1), "properties");
}

#[test]
fn a_schema_without_a_place_for_properties_gains_none() {
    for text in ["true", r#"{ "properties": [] }"#, "[]", r#""x""#] {
        let mut s = json(text);
        assert!(!ensure_timeout_property(&mut s, 300));
        assert_eq!(s, json(text));
    }
}

#[test]
fn odd_timeouts_fall_back_or_round_up() {
    assert_eq!(requested_timeout(&json(r#"{ "timeout": -4 }"#), 30, 300), 30);
    assert_eq!(requested_timeout(&json(r#"{ "timeout": 1.5 }"#), 30, 300), 30);
    assert_eq!(requested_timeout(&json(r#"{ "timeout": "7" }"#), 30, 300), 30);
    assert_eq!(requested_timeout(&json(r#"{ "timeout": "7", "timeout_ms": 1 }"#), 30, 300), 1);
    assert_eq!(requested_timeout(&json(r#"{ "timeout_ms": 2000 }"#), 30, 300), 2);
    assert_eq!(
        requested_timeout(&json(r#"{ "timeout_ms": 18446744073709551615 }"#), 30, u64::MAX),
        18446744073709552
    );
    assert_eq!(requested_timeout(&json("{}"), 30, 0), 1);
    assert_eq!(requested_timeout(&json("[]"), 0, 300), 1);
}

#[test]
fn every_failure_has_its_message() {
    assert_eq!(ToolFailure::InvalidArguments("bad".into()).message(), "bad");
    assert_eq!(ToolFailure::Failed("broke".into()).message(), "broke");
    assert_eq!(ToolFailure::Denied("no".into()).message(), "no");
    assert_eq!(
        ToolFailure::NotFound("a\nb".into()).message(),
        "tool \"a\\nb\" is not available"
    );
    assert_eq!(
        ToolFailure::Timeout { tool: "t".into(), seconds: 12 }.message(),
        "\"t\" exceeded its 12s timeout"
    );
}

#[test]
fn outputs_are_flagged_as_errors() {
    let plain = ToolOutput::text("hi");
    assert!(!plain.is_error);
    assert_eq!(plain.structured, None);
    let flagged = plain.flagged_as_error();
    assert_eq!(flagged.text, "hi");
    assert!(flagged.is_error);
    assert_eq!(flagged.clone(), flagged);
    let rich = ToolOutput::structured(schema());
    assert_eq!(rich.clone(), rich);
    let error = ToolOutput::error("x");
    assert!(error.is_error);
    assert_eq!(error.text, "x");
}

#[test]
fn only_texts_are_required_names() {
    let tool = ToolDef::new("t", "d", json(r#"{ "required": ["a", 1, null, "b"] }"#));
    assert_eq!(tool.required(), ["a", "b"]);
    let odd = ToolDef::new("t", "d", json(r#"{ "required": "a", "properties": [] }"#));
    assert!(odd.required().is_empty());
    assert!(odd.properties().is_empty());
}

#[test]
fn a_schema_that_is_no_object_counts_as_empty() {
    assert_eq!(ToolDef::new("t", "d", json("true")).input_schema().len(), 0);
    let object = ToolDef::new("t", "d", schema()).input_schema();
    assert_eq!(object.len(), 3);
    assert_eq!(object.get("type").unwrap().as_str(), Some("object"));
}

#[test]
fn stripping_leaves_the_other_arguments() {
    let rest = strip_argument(json(r#"{ "a": 1, "b": [2], "c": null }"#), "a");
    assert_eq!(rest, json(r#"{ "b": [2], "c": null }"#));
    assert_eq!(strip_argument(rest, "z"), json(r#"{ "b": [2], "c": null }"#));
}

#[test]
fn a_copied_definition_is_the_same() {
    let tool = ToolDef::new("t", "d", schema());
    assert_eq!(tool.clone(), tool);
    assert!(tool.clone() != ToolDef::new("t", "e", schema()));
}
