//! Starting a server and listing its tools.

use mcp_toolkit::json::{Json, JsonObject};
use mcp_toolkit::startup::{plan, render_tools, Plan};
use mcp_toolkit::{ServerOptions, StartupError, ToolDef, Transport};

fn def(name: &str, description: &str) -> ToolDef {
    let mut schema = JsonObject::new();
    schema.insert("type".to_string(), Json::text("object"));
    ToolDef::new(name, description, Json::Object(schema))
}

#[test]
fn listing_comes_before_serving() {
    let options = ServerOptions {
        list_tools: true,
        json: true,
        transport: Transport::Http,
        ..Default::default()
    };
    assert!(matches!(plan(&options), Ok(Plan::ListTools { json: true })));
}

#[test]
fn stdio_needs_no_token() {
    assert!(matches!(plan(&ServerOptions::default()), Ok(Plan::Stdio)));
}

#[test]
fn http_without_a_token_is_refused() {
    for transport in [Transport::Http, Transport::Sse] {
        let options = ServerOptions { transport, ..Default::default() };
        assert!(matches!(plan(&options), Err(StartupError::UnauthenticatedHttp)));
    }
}

#[test]
fn http_listens_with_its_token_or_with_leave() {
    let options = ServerOptions {
        transport: Transport::Sse,
        bind: "0.0.0.0:1".to_string(),
        auth_token: Some(" key ".to_string()),
        ..Default::default()
    };
    match plan(&options) {
        Ok(Plan::Http { bind, token }) => {
            assert_eq!(bind, "0.0.0.0:1");
            assert_eq!(token.as_deref(), Some("key"));
        }
        other => panic!("got {other:?}"),
    }
    let open = ServerOptions {
        transport: Transport::Http,
        allow_unauthenticated: true,
        ..Default::default()
    };
    assert!(matches!(plan(&open), Ok(Plan::Http { token: None, .. })));
}

#[test]
fn every_error_has_its_message() {
    let bind = StartupError::Bind { addr: "a:1".into(), source: "in use".into() };
    assert_eq!(bind.message(), "could not bind a:1: in use");
    assert_eq!(StartupError::Io("gone".into()).message(), "i/o error: gone");
    assert_eq!(StartupError::Transport("x".into()).message(), "transport error: x");
    assert_eq!(
        StartupError::UnauthenticatedHttp.message(),
        "the HTTP transport exposes every tool to any local process. Pass --auth-token \
         (or set MCP_AUTH_TOKEN), or --allow-unauthenticated to acknowledge the risk."
    );
}

#[test]
fn a_table_shows_the_first_line_of_each_description() {
    let tools = [
        def("view", "Dump bytes.\r\nMore."),
        def("a_name_longer_than_its_column", "x"),
        def("\u{e9}", ""),
    ];
    assert_eq!(
        render_tools(&tools, false),
        "3 tools:\n\n  view                     Dump bytes.\n  a_name_longer_than_its_column x\n  \u{e9}                        \n"
    );
    assert_eq!(render_tools(&[], false), "0 tools:\n\n");
}

#[test]
fn json_shows_the_schema_too() {
    assert_eq!(
        render_tools(&[def("t", "d")], true),
        "[\n  {\n    \"name\": \"t\",\n    \"description\": \"d\",\n    \"inputSchema\": {\n      \"type\": \"object\"\n    }\n  }\n]\n"
    );
    assert_eq!(render_tools(&[], true), "[]\n");
}
