//! All tools as one.

use mcp_toolkit::json::{Json, JsonNumber, JsonObject};
use mcp_toolkit::single::{annotate, compatible, describe, dispatch, extend_owner, squash, widened};
use mcp_toolkit::{ToolDef, ToolFailure};

fn convert(value: serde_json::Value) -> Json {
    match value {
        serde_json::Value::Null => Json::Null,
        serde_json::Value::Bool(b) => Json::Bool(b),
        serde_json::Value::Number(n) => Json::Number(JsonNumber::from_serde(n)),
        serde_json::Value::String(s) => Json::Text(s),
        serde_json::Value::Array(items) => Json::Array(items.into_iter().map(convert).collect()),
        serde_json::Value::Object(entries) => {
            let mut object = JsonObject::new();
            for (key, value) in entries {
                object.insert(key, convert(value));
            }
            Json::Object(object)
        }
    }
}

fn json(text: &str) -> Json {
    convert(serde_json::from_str(text).unwrap())
}

fn tools() -> Vec<ToolDef> {
    vec![
        ToolDef::new(
            "hex_view",
            "Dump bytes.",
            json(
                r#"{
                    "type": "object",
                    "properties": {
                        "path": { "type": "string", "description": "File to read" },
                        "length": { "type": "integer" }
                    },
                    "required": ["path"]
                }"#,
            ),
        ),
        ToolDef::new(
            "hex_patch",
            "Patch bytes.",
            json(
                r#"{
                    "type": "object",
                    "properties": {
                        "path": { "type": "string", "description": "File to write" },
                        "hex_data": { "type": "string" }
                    },
                    "required": ["path", "hex_data"]
                }"#,
            ),
        ),
    ]
}

fn conflicting() -> Vec<ToolDef> {
    vec![
        ToolDef::new(
            "a",
            "A",
            json(r#"{ "type": "object", "properties": { "length": { "type": "integer" } } }"#),
        ),
        ToolDef::new(
            "b",
            "B",
            json(r#"{ "type": "object", "properties": { "length": { "type": "string" } } }"#),
        ),
    ]
}

fn property<'a>(tool: &'a ToolDef, name: &str) -> &'a Json {
    tool.schema.get("properties").unwrap().get(name).unwrap()
}

fn description<'a>(tool: &'a ToolDef, name: &str) -> &'a str {
    property(tool, name).get("description").unwrap().as_str().unwrap()
}

#[test]
fn the_squashed_tool_is_named_after_the_server() {
    assert_eq!(squash("hex", &tools()).name, "hex_tool");
}

#[test]
fn the_tool_selector_enumerates_every_operation() {
    let squashed = squash("hex", &tools());
    let names = property(&squashed, "tool").get("enum").unwrap();
    assert_eq!(names, &json(r#"["hex_view", "hex_patch"]"#));
    assert_eq!(squashed.required(), ["tool"]);
}

#[test]
fn arguments_from_every_operation_are_present() {
    let squashed = squash("hex", &tools());
    let props = squashed.schema.get("properties").unwrap().as_object().unwrap();
    for expected in ["tool", "path", "length", "hex_data"] {
        assert!(props.contains_key(expected), "{expected} missing");
    }
}

#[test]
fn a_shared_property_lists_every_operation_that_accepts_it() {
    let squashed = squash("hex", &tools());
    let description = description(&squashed, "path");
    assert!(description.starts_with("[hex_view, hex_patch]"), "{description}");
}

#[test]
fn an_exclusive_property_names_its_owner() {
    let squashed = squash("hex", &tools());
    let description = description(&squashed, "hex_data");
    assert!(description.starts_with("[hex_patch]"), "{description}");
}

#[test]
fn a_type_conflict_is_widened_and_explained_rather_than_guessed() {
    let squashed = squash("x", &conflicting());
    let spec = property(&squashed, "length");
    assert!(spec.get("type").is_none(), "the conflicting type must not be asserted");

    let description = description(&squashed, "length");
    assert!(description.contains("a: integer"), "{description}");
    assert!(description.contains("b: string"), "{description}");
    assert!(squashed.description.contains("different types"), "{}", squashed.description);
}

#[test]
fn the_description_lists_operations_with_their_required_arguments() {
    let text = squash("hex", &tools()).description;
    assert!(text.contains("hex_view (requires path)"), "{text}");
    assert!(text.contains("hex_patch (requires path, hex_data)"), "{text}");
}

#[test]
fn dispatch_splits_the_operation_from_its_arguments() {
    let (name, args) =
        dispatch(&json(r#"{ "tool": "hex_view", "path": "/x", "length": 4 }"#)).unwrap();
    assert_eq!(name, "hex_view");
    assert_eq!(args, json(r#"{ "path": "/x", "length": 4 }"#));
}

#[test]
fn dispatch_without_a_tool_argument_says_what_is_missing() {
    let err = dispatch(&json(r#"{ "path": "/x" }"#)).unwrap_err();
    assert!(err.message().contains("`tool` argument"), "{}", err.message());
}

#[test]
fn squashing_an_empty_server_still_produces_a_valid_schema() {
    let squashed = squash("empty", &[]);
    assert_eq!(property(&squashed, "tool").get("enum"), Some(&json("[]")));
    assert_eq!(squashed.schema.get("type").unwrap().as_str(), Some("object"));
}

#[test]
fn a_tool_with_no_properties_is_tolerated() {
    let bare = vec![ToolDef::new("status", "Status.", json(r#"{ "type": "object" }"#))];
    let squashed = squash("s", &bare);
    assert_eq!(property(&squashed, "tool").get("enum"), Some(&json(r#"["status"]"#)));
}

#[test]
fn only_the_selector_is_required() {
    let squashed = squash("hex", &tools());
    assert_eq!(squashed.schema.get("required"), Some(&json(r#"["tool"]"#)));
    assert_eq!(squashed.properties(), ["tool", "path", "length", "hex_data"]);
}

#[test]
fn a_selector_that_is_no_text_is_refused() {
    for text in [r#"{ "tool": 1 }"#, "{}", "[]", "null"] {
        assert!(matches!(dispatch(&json(text)), Err(ToolFailure::InvalidArguments(_))));
    }
}

#[test]
fn owners_are_noted_in_front_of_a_description() {
    let noted = annotate(&json(r#"{ "type": "string", "description": "File" }"#), "a");
    assert_eq!(noted, json(r#"{ "type": "string", "description": "[a] File" }"#));
    let more = extend_owner(&noted, "b");
    assert_eq!(more.get("description").unwrap().as_str(), Some("[a, b] File"));
    let again = extend_owner(&more, "b");
    assert_eq!(again.get("description").unwrap().as_str(), Some("[a, b] File"));
}

#[test]
fn properties_agree_by_their_type() {
    let integer = json(r#"{ "type": "integer", "minimum": 1 }"#);
    assert!(compatible(&integer, &json(r#"{ "type": "integer" }"#)));
    assert!(!compatible(&integer, &json(r#"{ "type": "string" }"#)));
    assert!(!compatible(&integer, &json("{}")));
    assert!(compatible(&json("{}"), &json(r#"{ "description": "x" }"#)));
}

#[test]
fn a_widened_property_asserts_no_type() {
    let property = widened("length", &conflicting());
    assert!(property.get("type").is_none());
    let said = property.get("description").unwrap().as_str().unwrap();
    assert!(said.contains("a: integer"), "{said}");
    assert!(said.contains("b: string"), "{said}");
}

#[test]
fn a_later_operation_without_a_type_leaves_the_explanation() {
    let mut tools = conflicting();
    for name in ["c", "d"] {
        tools.push(ToolDef::new(
            name,
            "Takes any.",
            json(r#"{ "type": "object", "properties": { "length": {} } }"#),
        ));
    }
    let squashed = squash("x", &tools);
    let wide = widened("length", &tools);
    let explanation = wide.get("description").unwrap().as_str().unwrap();
    assert!(property(&squashed, "length").get("type").is_none());
    assert_eq!(description(&squashed, "length"), format!("[c, d] {explanation}"));
    assert!(explanation.contains("a: integer; b: string; c: any; d: any"), "{explanation}");
}

#[test]
fn a_description_reports_its_conflicts() {
    let text = describe("x", &conflicting(), &["length".to_string()]);
    assert!(text.contains("length"), "{text}");
    let quiet = describe("x", &conflicting(), &[]);
    assert!(!quiet.contains("different types"), "{quiet}");
}

#[test]
fn operations_that_agree_report_no_conflict() {
    let squashed = squash("hex", &tools());
    assert!(!squashed.description.contains("different types"), "{}", squashed.description);
    assert_eq!(property(&squashed, "path").get("type").unwrap().as_str(), Some("string"));
}
