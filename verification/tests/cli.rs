//! The options, and what they allow.

use clap::{Arg, ArgAction, Command};
use mcp_toolkit::startup::{plan, Plan};
use mcp_toolkit::{ServerOptions, Transport};

/// The options that a command line gives.
fn parse(args: &[&str]) -> ServerOptions {
    let mut full = vec!["server"];
    full.extend_from_slice(args);
    let value = |name: &'static str| Arg::new(name).long(name).action(ArgAction::Set);
    let flag = |name: &'static str| Arg::new(name).long(name).action(ArgAction::SetTrue);
    let matches = Command::new("server")
        .arg(value("transport").value_parser(["stdio", "http", "sse"]))
        .arg(value("bind"))
        .arg(flag("single-tool"))
        .arg(value("timeout"))
        .arg(value("max-timeout"))
        .arg(value("auth-token"))
        .arg(flag("allow-unauthenticated"))
        .arg(value("log"))
        .arg(flag("list-tools"))
        .arg(flag("json"))
        .get_matches_from(full);
    let text = |name: &str| matches.get_one::<String>(name).cloned();
    let defaults = ServerOptions::default();
    ServerOptions {
        transport: match text("transport").as_deref() {
            Some("http") => Transport::Http,
            Some("sse") => Transport::Sse,
            Some(_) => Transport::Stdio,
            None => defaults.transport,
        },
        bind: text("bind").unwrap_or(defaults.bind),
        single_tool: matches.get_flag("single-tool"),
        timeout: text("timeout").map_or(defaults.timeout, |t| t.parse().unwrap()),
        max_timeout: text("max-timeout").map_or(defaults.max_timeout, |t| t.parse().unwrap()),
        auth_token: text("auth-token"),
        allow_unauthenticated: matches.get_flag("allow-unauthenticated"),
        log: text("log"),
        list_tools: matches.get_flag("list-tools"),
        json: matches.get_flag("json"),
    }
}

#[test]
fn stdio_is_the_default_transport() {
    let options = parse(&[]);
    assert_eq!(options.transport, Transport::Stdio);
    assert!(!options.transport.is_http());
    assert!(!options.single_tool);
    assert_eq!(options.timeout, 30);
}

#[test]
fn sse_is_accepted_as_an_alias_for_http() {
    assert!(parse(&["--transport", "sse"]).transport.is_http());
    assert!(parse(&["--transport", "http"]).transport.is_http());
}

#[test]
fn every_core_flag_parses() {
    let options = parse(&[
        "--transport",
        "http",
        "--bind",
        "0.0.0.0:9000",
        "--single-tool",
        "--timeout",
        "5",
        "--max-timeout",
        "60",
        "--auth-token",
        "secret",
    ]);
    assert_eq!(options.bind, "0.0.0.0:9000");
    assert!(options.single_tool);
    assert_eq!(options.timeout, 5);
    assert_eq!(options.max_timeout, 60);
    assert_eq!(options.token(), Some("secret"));
}

#[test]
fn a_blank_token_counts_as_absent() {
    assert_eq!(parse(&["--auth-token", "   "]).token(), None);
    assert_eq!(parse(&["--auth-token", " real "]).token(), Some("real"));
}

#[test]
fn http_refuses_to_start_unauthenticated_unless_acknowledged() {
    assert!(!parse(&["--transport", "http"]).http_start_permitted());
    assert!(parse(&["--transport", "http", "--auth-token", "t"]).http_start_permitted());
    assert!(parse(&["--transport", "http", "--allow-unauthenticated"]).http_start_permitted());
}

#[test]
fn list_tools_is_available_for_inspection() {
    let options = parse(&["--list-tools", "--json"]);
    assert!(options.list_tools);
    assert!(options.json);
    assert!(matches!(plan(&options), Ok(Plan::ListTools { json: true })));
    assert!(matches!(plan(&parse(&["--list-tools"])), Ok(Plan::ListTools { json: false })));
    assert!(!matches!(plan(&parse(&["--json"])), Ok(Plan::ListTools { .. })));
}

#[test]
fn the_defaults_are_those_of_a_local_server() {
    let options = ServerOptions::default();
    assert_eq!(options.transport, Transport::Stdio);
    assert_eq!(options.bind, "127.0.0.1:8080");
    assert_eq!(options.timeout, 30);
    assert_eq!(options.max_timeout, 300);
    assert_eq!(options.auth_token, None);
    assert_eq!(options.log, None);
    assert!(!options.single_tool);
    assert!(!options.allow_unauthenticated);
    assert!(!options.list_tools);
    assert!(!options.json);
}

#[test]
fn a_token_is_trimmed_of_unicode_white_space_too() {
    let options = ServerOptions {
        auth_token: Some("\u{2003}\tkey \u{a0}".to_string()),
        ..ServerOptions::default()
    };
    assert_eq!(options.token(), Some("key"));
    let copy = options.clone();
    assert_eq!(copy.token(), Some("key"));
    assert_eq!(copy.bind, options.bind);
}
