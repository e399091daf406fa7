//! Several groups served as one.

use mcp_toolkit::json::{Json, JsonObject};
use mcp_toolkit::{Composite, Member, ToolDef, ToolFailure, ToolOutput, ToolResult};

struct Stub(&'static [&'static str]);

impl Stub {
    fn tools(&self) -> Vec<ToolDef> {
        self.0
            .iter()
            .map(|n| {
                let mut schema = JsonObject::new();
                schema.insert("type".to_string(), Json::text("object"));
                ToolDef::new(n, "stub tool", Json::Object(schema))
            })
            .collect()
    }

    fn call(&self, name: &str) -> ToolResult<ToolOutput> {
        Ok(ToolOutput::text(&format!("{}::{name}", self.0[0])))
    }
}

/// Calls a tool of the composite through the member that owns it.
fn call(composite: &Composite, stubs: &[Stub], name: &str) -> ToolResult<ToolOutput> {
    let (member, local) = composite.route(name)?;
    stubs[member].call(&local)
}

fn names(composite: &Composite) -> Vec<String> {
    composite.tools().into_iter().map(|t| t.name).collect()
}

#[test]
fn every_member_contributes_its_tools() {
    let c = Composite::new(vec![
        Member::new(Stub(&["alpha", "beta"]).tools()),
        Member::new(Stub(&["gamma"]).tools()),
    ]);
    assert_eq!(names(&c), ["alpha", "beta", "gamma"]);
}

#[test]
fn calls_reach_the_member_that_owns_the_tool() {
    let stubs = [Stub(&["alpha"]), Stub(&["gamma"])];
    let c = Composite::new(vec![Member::new(stubs[0].tools()), Member::new(stubs[1].tools())]);
    assert_eq!(call(&c, &stubs, "alpha").unwrap().text, "alpha::alpha");
    assert_eq!(call(&c, &stubs, "gamma").unwrap().text, "gamma::gamma");
}

#[test]
fn a_prefix_namespaces_a_member_and_strips_on_dispatch() {
    let stubs = [Stub(&["view"])];
    let c = Composite::new(vec![Member::prefixed(stubs[0].tools(), "hex_")]);
    assert_eq!(c.tools()[0].name, "hex_view");
    assert_eq!(call(&c, &stubs, "hex_view").unwrap().text, "view::view");
}

#[test]
fn prefixes_let_two_members_expose_the_same_tool_name() {
    let c = Composite::new(vec![
        Member::prefixed(Stub(&["search"]).tools(), "a_"),
        Member::prefixed(Stub(&["search"]).tools(), "b_"),
    ]);
    assert_eq!(names(&c), ["a_search", "b_search"]);
    assert!(c.collisions().is_empty());
}

#[test]
fn an_unprefixed_collision_is_reported_rather_than_hidden() {
    let stubs = [Stub(&["search"]), Stub(&["search"])];
    let c = Composite::new(vec![Member::new(stubs[0].tools()), Member::new(stubs[1].tools())]);
    assert_eq!(c.tools().len(), 1, "the duplicate must not be advertised twice");
    assert_eq!(c.collisions(), ["search"]);
    assert_eq!(call(&c, &stubs, "search").unwrap().text, "search::search");
}

#[test]
fn an_unknown_tool_is_not_found() {
    let stubs = [Stub(&["alpha"])];
    let c = Composite::new(vec![Member::new(stubs[0].tools())]);
    assert!(matches!(call(&c, &stubs, "nope"), Err(ToolFailure::NotFound(_))));
}

#[test]
fn an_empty_composite_is_valid() {
    let c = Composite::new(Vec::new());
    assert!(c.tools().is_empty());
    assert!(matches!(call(&c, &[], "x"), Err(ToolFailure::NotFound(_))));
}

#[test]
fn an_already_prefixed_name_is_not_prefixed_twice() {
    let member = Member::prefixed(Stub(&["hex_view"]).tools(), "hex_");
    assert_eq!(member.advertised("hex_view"), "hex_view");
}

#[test]
fn the_first_claimant_serves_a_contested_name() {
    let c = Composite::new(vec![
        Member::new(Stub(&["one"]).tools()),
        Member::prefixed(Stub(&["x"]).tools(), "p_"),
        Member::new(Stub(&["p_x", "one", "two"]).tools()),
    ]);
    assert_eq!(names(&c), ["one", "p_x", "two"]);
    assert_eq!(c.collisions(), ["p_x", "one"]);
    assert_eq!(c.route("p_x").unwrap(), (1, "x".to_string()));
    assert_eq!(c.route("one").unwrap(), (0, "one".to_string()));
    assert_eq!(c.route("two").unwrap(), (2, "two".to_string()));
}

#[test]
fn a_name_claimed_many_times_is_reported_once() {
    let c = Composite::new(vec![
        Member::new(Stub(&["s"]).tools()),
        Member::new(Stub(&["s", "s"]).tools()),
    ]);
    assert_eq!(names(&c), ["s"]);
    assert_eq!(c.collisions(), ["s"]);
}

#[test]
fn an_unknown_name_is_named_in_the_failure() {
    let c = Composite::new(Vec::new());
    match c.route("no \"such\" tool") {
        Err(failure) => assert_eq!(
            failure.message(),
            "tool \"no \\\"such\\\" tool\" is not available"
        ),
        Ok(_) => panic!("nothing is served"),
    }
}

#[test]
fn a_member_is_called_by_the_name_that_it_declares() {
    let stubs = [Stub(&["hex_view"])];
    let c = Composite::new(vec![Member::prefixed(stubs[0].tools(), "hex_")]);
    assert_eq!(names(&c), ["hex_view"]);
    assert_eq!(c.route("hex_view").unwrap(), (0, "hex_view".to_string()));
    assert_eq!(call(&c, &stubs, "hex_view").unwrap().text, "hex_view::hex_view");
    let both = Composite::new(vec![Member::prefixed(
        Stub(&["hex_view", "view", "dump"]).tools(),
        "hex_",
    )]);
    assert_eq!(names(&both), ["hex_view", "hex_dump"]);
    assert_eq!(both.route("hex_view").unwrap(), (0, "hex_view".to_string()));
    assert_eq!(both.route("hex_dump").unwrap(), (0, "dump".to_string()));
    assert!(both.collisions().is_empty());
}

#[test]
fn a_name_that_one_member_claims_twice_is_no_collision() {
    let c = Composite::new(vec![Member::new(Stub(&["s", "s", "t"]).tools())]);
    assert_eq!(names(&c), ["s", "t"]);
    assert!(c.collisions().is_empty());
}
