//! Servers: what they advertise, and how they answer.

use mcp_toolkit::json::{Json, JsonNumber, JsonObject};
use mcp_toolkit::server::{arguments, conclude, respond};
use mcp_toolkit::{ServerOptions, ToolDef, ToolFailure, ToolOutput, ToolResult, ToolServer};

fn convert(value: serde_json::Value) -> Json {
    match value {
        serde_json::Value::Null => Json::Null,
        serde_json::Value::Bool(b) => Json::Bool(b),
        serde_json::Value::Number(n) => Json::Number(JsonNumber::from_serde(n)),
        serde_json::Value::String(s) => Json::Text(s),
        serde_json::Value::Array(items) => Json::Array(items.into_iter().map(convert).collect()),
        serde_json::Value::Object(entries) => {
            let mut object = JsonObject::new();
            for (key, value) in entries {
                object.insert(key, convert(value));
            }
            Json::Object(object)
        }
    }
}

fn json(text: &str) -> Json {
    convert(serde_json::from_str(text).unwrap())
}

fn tools() -> Vec<ToolDef> {
    vec![
        ToolDef::new(
            "echo",
            "Echo text.",
            json(
                r#"{
                    "type": "object",
                    "properties": { "text": { "type": "string" } },
                    "required": ["text"]
                }"#,
            ),
        ),
        ToolDef::new(
            "slow",
            "Sleep forever.",
            json(r#"{ "type": "object", "properties": {} }"#),
        ),
        ToolDef::new("boom", "Fail.", json(r#"{ "type": "object", "properties": {} }"#)),
    ]
}

/// Calls a tool. One that never ends gives nothing before the deadline.
fn call(name: &str, args: Json) -> Option<ToolResult<ToolOutput>> {
    match name {
        "echo" => Some(Ok(ToolOutput::text(
            args.get("text").and_then(|text| text.as_str()).unwrap_or(""),
        ))),
        "slow" => None,
        "boom" => Some(Err(ToolFailure::Failed("exploded".into()))),
        other => Some(Err(ToolFailure::NotFound(other.to_string()))),
    }
}

fn server(options: ServerOptions) -> ToolServer {
    ToolServer::new("fake", "1.0", &tools(), options)
}

fn invoke(server: &ToolServer, name: &str, args: Json) -> ToolResult<ToolOutput> {
    let call_to_make = server.invoke(name, args, &tools())?;
    let finished = call(&call_to_make.target, call_to_make.args);
    conclude(call_to_make.target, call_to_make.seconds, finished)
}

fn single() -> ServerOptions {
    ServerOptions { single_tool: true, ..Default::default() }
}

#[test]
fn normal_mode_advertises_every_tool() {
    let s = server(ServerOptions::default());
    let names: Vec<&str> = s.advertised().iter().map(|t| t.name.as_str()).collect();
    assert_eq!(names, ["echo", "slow", "boom"]);
}

#[test]
fn single_tool_mode_advertises_exactly_one() {
    let s = server(single());
    assert_eq!(s.advertised().len(), 1);
    assert_eq!(s.advertised()[0].name, "fake_tool");
}

#[test]
fn a_tool_runs_and_returns_its_output() {
    let s = server(ServerOptions::default());
    let out = invoke(&s, "echo", json(r#"{ "text": "hi" }"#)).unwrap();
    assert_eq!(out.text, "hi");
}

#[test]
fn single_tool_mode_dispatches_through_the_tool_argument() {
    let s = server(single());
    let out =
        invoke(&s, "fake_tool", json(r#"{ "tool": "echo", "text": "via single" }"#)).unwrap();
    assert_eq!(out.text, "via single");
}

#[test]
fn single_tool_mode_rejects_an_unknown_operation() {
    let s = server(single());
    let err = invoke(&s, "fake_tool", json(r#"{ "tool": "nope" }"#)).unwrap_err();
    assert!(matches!(err, ToolFailure::NotFound(_)), "got {err:?}");
}

#[test]
fn single_tool_mode_requires_the_tool_argument() {
    let s = server(single());
    let err = invoke(&s, "fake_tool", json(r#"{ "text": "x" }"#)).unwrap_err();
    assert!(matches!(err, ToolFailure::InvalidArguments(_)));
}

#[test]
fn a_slow_tool_is_bounded_by_the_default_timeout() {
    let s = server(ServerOptions { timeout: 1, ..Default::default() });
    let err = invoke(&s, "slow", json("{}")).unwrap_err();
    assert!(matches!(err, ToolFailure::Timeout { seconds: 1, .. }), "got {err:?}");
}

#[test]
fn a_caller_supplied_timeout_is_honoured_and_clamped() {
    let s = server(ServerOptions { timeout: 3600, max_timeout: 1, ..Default::default() });
    let err = invoke(&s, "slow", json(r#"{ "timeout": 900 }"#)).unwrap_err();
    assert!(matches!(err, ToolFailure::Timeout { seconds: 1, .. }));
}

#[test]
fn the_injected_timeout_is_not_forwarded_to_the_tool() {
    let s = server(ServerOptions::default());
    let out = invoke(&s, "echo", json(r#"{ "text": "x", "timeout": 5 }"#)).unwrap();
    assert_eq!(out.text, "x");
    let call = s.invoke("echo", json(r#"{ "text": "x", "timeout": 5 }"#), &tools()).unwrap();
    assert_eq!(call.args, json(r#"{ "text": "x" }"#));
    assert_eq!(call.seconds, 5);
}

#[test]
fn a_failing_tool_yields_a_tool_level_failure() {
    let s = server(ServerOptions::default());
    let err = invoke(&s, "boom", json("{}")).unwrap_err();
    assert!(err.is_tool_level(), "a failure the model should read, not a protocol error");
}

#[test]
fn every_advertised_tool_gains_a_timeout_property() {
    let s = server(ServerOptions::default());
    for tool in s.advertised() {
        let timeout = tool.schema.get("properties").unwrap().get("timeout").unwrap();
        assert_eq!(
            timeout.get("type").unwrap().as_str(),
            Some("integer"),
            "{} lacks timeout",
            tool.name
        );
    }
}

#[test]
fn a_timeout_that_the_tool_declares_reaches_it() {
    let own = vec![ToolDef::new(
        "wait",
        "Wait.",
        json(r#"{ "type": "object", "properties": { "timeout": { "type": "number" } } }"#),
    )];
    let s = ToolServer::new("w", "2", &own, ServerOptions::default());
    assert_eq!(s.advertised()[0], own[0]);
    let call = s.invoke("wait", json(r#"{ "timeout": 9 }"#), &own).unwrap();
    assert_eq!(call.args, json(r#"{ "timeout": 9 }"#));
    assert_eq!(call.seconds, 9);
}

#[test]
fn the_selector_and_the_injected_timeout_are_both_held_back() {
    let s = server(single());
    let call = s
        .invoke("fake_tool", json(r#"{ "tool": "echo", "timeout": 7, "text": "t" }"#), &tools())
        .unwrap();
    assert_eq!(call.target, "echo");
    assert_eq!(call.args, json(r#"{ "text": "t" }"#));
    assert_eq!(call.seconds, 7);
}

#[test]
fn a_tool_that_is_gone_is_not_called() {
    let s = server(ServerOptions::default());
    match s.invoke("echo", json("{}"), &[]) {
        Err(ToolFailure::NotFound(name)) => assert_eq!(name, "echo"),
        other => panic!("got {other:?}"),
    }
}

#[test]
fn replies_tell_results_from_protocol_errors() {
    assert_eq!(respond(Ok(ToolOutput::text("x"))), Ok(ToolOutput::text("x")));
    assert_eq!(
        respond(Err(ToolFailure::Failed("broke".into()))),
        Ok(ToolOutput::error("broke"))
    );
    assert_eq!(
        respond(Err(ToolFailure::Timeout { tool: "t".into(), seconds: 2 })),
        Ok(ToolOutput::error("\"t\" exceeded its 2s timeout"))
    );
    assert_eq!(respond(Err(ToolFailure::Denied("no".into()))), Ok(ToolOutput::error("no")));
    assert_eq!(
        respond(Err(ToolFailure::NotFound("t".into()))),
        Err("tool \"t\" is not available".to_string())
    );
    assert_eq!(
        respond(Err(ToolFailure::InvalidArguments("bad".into()))),
        Err("bad".to_string())
    );
}

#[test]
fn missing_arguments_count_as_none() {
    assert_eq!(arguments(None), json("{}"));
    let mut object = JsonObject::new();
    object.insert("a".to_string(), Json::Null);
    assert_eq!(arguments(Some(object)), json(r#"{ "a": null }"#));
}

#[test]
fn a_server_knows_who_it_is() {
    let s = server(ServerOptions { timeout: 11, ..Default::default() });
    assert_eq!(s.name(), "fake");
    assert_eq!(s.version(), "1.0");
    assert_eq!(s.options().timeout, 11);
}
