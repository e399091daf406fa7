//! What a server advertises, and how it turns a request into a call and a call
//! into a reply.

use vstd::prelude::*;

use crate::cli::ServerOptions;
use crate::composite::find_tool;
use crate::json;
use crate::json::{Json, JsonObject, Tree};
use crate::single;
use crate::single::{dispatch, squash};
use crate::text;
use crate::text::contains_text;
use crate::tool;
use crate::tool::{
    clone_tools, ensure_timeout_property, requested_timeout, strip_timeout, Tool, ToolDef,
    ToolFailure, ToolOutput, ToolResult,
};

verus! {

/// A tool server: the tools of a group, and the options that shape how they are
/// advertised and bounded.
#[derive(Debug)]
pub struct ToolServer {
    name: String,
    version: String,
    options: ServerOptions,
    /// Either the real tools, or the single squashed one, with timeouts injected.
    advertised: Vec<ToolDef>,
    /// Advertised names whose schema was augmented with `timeout`.
    augmented: Vec<String>,
}

/// A call that is to be made: which tool, with which arguments, and for how long
/// at most.
#[derive(Debug)]
pub struct Invocation {
    pub target: String,
    pub args: Json,
    pub seconds: u64,
}

/// A tool with a `timeout` property, where it does not declare one itself.
pub open spec fn with_timeout(tool: Tool, max_seconds: u64) -> Tool {
    match tool::timeout_added(tool.schema, max_seconds) {
        Some(schema) => Tool { schema, ..tool },
        None => tool,
    }
}

/// What is advertised before timeouts are added.
pub open spec fn offered(name: Seq<char>, tools: Seq<Tool>, single_tool: bool) -> Seq<Tool> {
    if single_tool {
        seq![single::squashed(name, tools)]
    } else {
        tools
    }
}

/// Tools with their timeouts.
pub open spec fn with_timeouts(tools: Seq<Tool>, max_seconds: u64) -> Seq<Tool> {
    Seq::new(tools.len(), |i: int| with_timeout(tools[i], max_seconds))
}

/// The names of the tools that gain a `timeout`.
pub open spec fn gaining_timeout(tools: Seq<Tool>, max_seconds: u64) -> Seq<Seq<char>>
    decreases tools.len(),
{
    if tools.len() == 0 {
        Seq::empty()
    } else {
        let before = gaining_timeout(tools.drop_last(), max_seconds);
        if tool::timeout_added(tools.last().schema, max_seconds) is Some {
            before.push(tools.last().name)
        } else {
            before
        }
    }
}

/// Whether one of the tools has this name.
pub open spec fn has_tool(tools: Seq<Tool>, name: Seq<char>) -> bool {
    exists|i: int| 0 <= i < tools.len() && (#[trigger] tools[i]).name == name
}

/// The tool that a request asks for, and the arguments for it. In single-tool
/// mode the request's arguments name the tool.
pub open spec fn requested(single_tool: bool, name: Seq<char>, args: Tree) -> Option<
    (Seq<char>, Tree),
> {
    if single_tool {
        match json::text_at(args, "tool"@) {
            Some(target) => Some((target, tool::without_argument(args, "tool"@))),
            None => None,
        }
    } else {
        Some((name, args))
    }
}

/// The arguments that reach the tool: without the `timeout` where that was
/// injected.
pub open spec fn forwarded(args: Tree, injected: bool) -> Tree {
    if injected {
        tool::without_argument(args, "timeout"@)
    } else {
        args
    }
}

impl ToolServer {
    /// The name it goes by.
    pub closed spec fn called(self) -> Seq<char> {
        self.name@
    }

    /// Its version.
    pub closed spec fn versioned(self) -> Seq<char> {
        self.version@
    }

    /// Its options.
    pub closed spec fn configured(self) -> ServerOptions {
        self.options
    }

    /// The tools it advertises.
    pub closed spec fn advertises(self) -> Seq<Tool> {
        tool::tools_of(self.advertised@)
    }

    /// The advertised names whose `timeout` was injected.
    pub closed spec fn injects(self) -> Seq<Seq<char>> {
        text::texts(self.augmented@)
    }

    /// A server for these tools.
    pub fn new(name: &str, version: &str, tools: &[ToolDef], options: ServerOptions) -> (server:
        ToolServer)
        ensures
            server.called() == name@,
            server.versioned() == version@,
            server.configured() == options,
            server.advertises() == with_timeouts(
                offered(name@, tool::tools_of(tools@), options.single_tool),
                options.max_timeout,
            ),
            server.injects() == gaining_timeout(
                offered(name@, tool::tools_of(tools@), options.single_tool),
                options.max_timeout,
            ),
    {
        let ghost actual = offered(name@, tool::tools_of(tools@), options.single_tool);
        let plain: Vec<ToolDef> = if options.single_tool {
            let mut one: Vec<ToolDef> = Vec::new();
            one.push(squash(name, tools));
            assert(tool::tools_of(one@) =~= actual);
            one
        } else {
            clone_tools(tools)
        };
        let mut advertised: Vec<ToolDef> = Vec::new();
        let mut augmented: Vec<String> = Vec::new();
        assert(text::texts(augmented@) =~= gaining_timeout(actual.take(0), options.max_timeout));
        for i in 0..plain.len()
            invariant
                tool::tools_of(plain@) == actual,
                advertised@.len() == i,
                forall|j: int|
                    0 <= j < i ==> (#[trigger] advertised@[j])@ == with_timeout(
                        actual[j],
                        options.max_timeout,
                    ),
                text::texts(augmented@) == gaining_timeout(
                    actual.take(i as int),
                    options.max_timeout,
                ),
        {
            let ghost before = augmented@;
            assert(plain@[i as int]@ == actual[i as int]);
            let mut schema = plain[i].schema.clone();
            if ensure_timeout_property(&mut schema, options.max_timeout) {
                augmented.push(plain[i].name.clone());
            }
            let def = ToolDef {
                name: plain[i].name.clone(),
                description: plain[i].description.clone(),
                schema,
            };
            assert(def@ == with_timeout(actual[i as int], options.max_timeout));
            advertised.push(def);
            proof {
                assert(actual.take(i + 1).drop_last() =~= actual.take(i as int));
                if tool::timeout_added(actual[i as int].schema, options.max_timeout) is Some {
                    assert(text::texts(augmented@) =~= text::texts(before).push(
                        actual[i as int].name,
                    ));
                }
            }
        }
        proof {
            assert(actual.take(plain@.len() as int) =~= actual);
            assert(tool::tools_of(advertised@) =~= with_timeouts(actual, options.max_timeout));
        }
        ToolServer {
            name: name.to_owned(),
            version: version.to_owned(),
            options,
            advertised,
            augmented,
        }
    }

    pub fn name(&self) -> (name: &str)
        ensures
            name@ == self.called(),
    {
        self.name.as_str()
    }

    pub fn version(&self) -> (version: &str)
        ensures
            version@ == self.versioned(),
    {
        self.version.as_str()
    }

    pub fn advertised(&self) -> (tools: &[ToolDef])
        ensures
            tool::tools_of(tools@) == self.advertises(),
    {
        self.advertised.as_slice()
    }

    pub fn options(&self) -> (options: &ServerOptions)
        ensures
            *options == self.configured(),
    {
        &self.options
    }

    /// Prepares one advertised tool's call: unwraps single-tool dispatch, reads
    /// the deadline, and refuses what is not among the tools available now.
    pub fn invoke(&self, name: &str, args: Json, available: &[ToolDef]) -> (call: ToolResult<
        Invocation,
    >)
        ensures
            match requested(self.configured().single_tool, name@, args@) {
                Some((target, rest)) => if has_tool(tool::tools_of(available@), target) {
                    &&& call matches Ok(invocation)
                    &&& invocation.target@ == target
                    &&& invocation.args@ == forwarded(rest, self.injects().contains(name@))
                    &&& invocation.seconds == tool::effective_timeout(
                        args@,
                        self.configured().timeout,
                        self.configured().max_timeout,
                    )
                } else {
                    &&& call matches Err(ToolFailure::NotFound(missing))
                    &&& missing@ == target
                },
                None => {
                    &&& call matches Err(ToolFailure::InvalidArguments(said))
                    &&& said@
                        == "single-tool mode requires a `tool` argument naming the operation"@
                },
            },
    {
        let seconds: u64 = requested_timeout(
            &args,
            self.options.timeout,
            self.options.max_timeout,
        );
        let (target, rest) = if self.options.single_tool {
            match dispatch(&args) {
                Ok((target, rest)) => (target, rest),
                Err(failure) => {
                    return Err(failure);
                },
            }
        } else {
            (name.to_owned(), args)
        };
        let rest = if contains_text(self.augmented.as_slice(), name) {
            strip_timeout(rest)
        } else {
            rest
        };
        match find_tool(available, target.as_str()) {
            Some(at) => {
                assert(tool::tools_of(available@)[at as int].name == target@);
                Ok(Invocation { target, args: rest, seconds })
            },
            None => {
                proof {
                    let tools = tool::tools_of(available@);
                    if has_tool(tools, target@) {
                        let k = choose|k: int|
                            0 <= k < tools.len() && (#[trigger] tools[k]).name == target@;
                        assert(available@[k].name@ == target@);
                    }
                }
                Err(ToolFailure::NotFound(target))
            },
        }
    }
}

/// The arguments of a request: none at all count as an empty object.
pub fn arguments(given: Option<JsonObject>) -> (args: Json)
    ensures
        args@ == (match given {
            Some(object) => Tree::Object(object@),
            None => Tree::Object(Seq::empty()),
        }),
{
    match given {
        Some(object) => Json::Object(object),
        None => Json::Object(JsonObject::new()),
    }
}

/// What came of a call: what the tool returned, or a timeout where the deadline
/// passed first.
pub fn conclude(
    target: String,
    seconds: u64,
    finished: Option<ToolResult<ToolOutput>>,
) -> (outcome: ToolResult<ToolOutput>)
    ensures
        match finished {
            Some(result) => outcome == result,
            None => outcome == Err::<ToolOutput, ToolFailure>(
                ToolFailure::Timeout { tool: target, seconds },
            ),
        },
{
    match finished {
        Some(result) => result,
        None => Err(ToolFailure::Timeout { tool: target, seconds }),
    }
}

/// The answer to a request: an output, or the message of a protocol error.
///
/// A tool that ran and failed is a result the model should read. Where the
/// caller got the request wrong, that is a protocol error.
pub fn respond(outcome: ToolResult<ToolOutput>) -> (reply: Result<ToolOutput, String>)
    ensures
        match outcome {
            Ok(output) => reply == Ok::<ToolOutput, String>(output),
            Err(failure) => if failure.tool_level() {
                &&& reply matches Ok(output)
                &&& output.text@ == failure.said()
                &&& output.structured is None
                &&& output.is_error
            } else {
                &&& reply matches Err(said)
                &&& said@ == failure.said()
            },
        },
{
    match outcome {
        Ok(output) => Ok(output),
        Err(failure) => {
            let said = failure.message();
            if failure.is_tool_level() {
                Ok(ToolOutput::error(said.as_str()))
            } else {
                Err(said)
            }
        },
    }
}

/// In single-tool mode exactly one tool is advertised, named after the server;
/// otherwise every tool is, in order and under its own name and description.
pub proof fn the_mode_decides_what_is_advertised(
    name: Seq<char>,
    tools: Seq<Tool>,
    single_tool: bool,
    max_seconds: u64,
)
    ensures
        ({
            let advertised = with_timeouts(offered(name, tools, single_tool), max_seconds);
            if single_tool {
                &&& advertised.len() == 1
                &&& advertised[0].name == name + "_tool"@
            } else {
                &&& advertised.len() == tools.len()
                &&& forall|i: int|
                    0 <= i < tools.len() ==> (#[trigger] advertised[i]).name == tools[i].name
                        && advertised[i].description == tools[i].description
            }
        }),
{
}

/// Every advertised tool ends up with a timeout that a caller can give: the
/// injected one is an integer. Left as they are: a tool that declares `timeout`
/// or `timeout_ms` itself, and one whose schema has no place for properties.
pub proof fn every_advertised_tool_has_a_timeout(tool: Tool, max_seconds: u64)
    ensures
        ({
            let properties = json::entries_at(
                with_timeout(tool, max_seconds).schema,
                "properties"@,
            );
            ||| {
                &&& properties is Some
                &&& json::lookup(properties->0, "timeout"@) == Some(
                    tool::timeout_declaration(max_seconds),
                )
                &&& tool::timeout_declaration(max_seconds).get("type"@) == Some(
                    Tree::Text("integer"@),
                )
            }
            ||| {
                &&& properties is Some
                &&& json::has_key(properties->0, "timeout"@) || json::has_key(
                    properties->0,
                    "timeout_ms"@,
                )
                &&& with_timeout(tool, max_seconds) == tool
            }
            ||| {
                &&& tool.schema.entries() is None || (tool.schema.get("properties"@) is Some
                    && tool.schema.get("properties"@)->0.entries() is None)
                &&& with_timeout(tool, max_seconds) == tool
            }
        }),
{
    if tool::timeout_added(tool.schema, max_seconds) is Some {
        tool::a_timeout_is_added_once(tool.schema, max_seconds, max_seconds, "timeout"@);
        tool::the_added_timeout_is_an_integer(max_seconds);
    }
}

/// A name is among those whose `timeout` was injected exactly where a tool of
/// that name gained one.
pub proof fn an_injected_timeout_is_remembered(
    tools: Seq<Tool>,
    max_seconds: u64,
    name: Seq<char>,
)
    ensures
        gaining_timeout(tools, max_seconds).contains(name) <==> exists|i: int|
            0 <= i < tools.len() && (#[trigger] tools[i]).name == name && tool::timeout_added(
                tools[i].schema,
                max_seconds,
            ) is Some,
    decreases tools.len(),
{
    if tools.len() > 0 {
        let rest = tools.drop_last();
        let names = gaining_timeout(rest, max_seconds);
        let all = gaining_timeout(tools, max_seconds);
        an_injected_timeout_is_remembered(rest, max_seconds, name);
        if all.contains(name) {
            let k = choose|k: int| 0 <= k < all.len() && all[k] == name;
            if k < names.len() {
                assert(names[k] == name);
                let i = choose|i: int|
                    0 <= i < rest.len() && (#[trigger] rest[i]).name == name
                        && tool::timeout_added(rest[i].schema, max_seconds) is Some;
                assert(tools[i] == rest[i]);
            } else {
                assert(tools[tools.len() - 1].name == name);
            }
        }
        if exists|i: int|
            0 <= i < tools.len() && (#[trigger] tools[i]).name == name && tool::timeout_added(
                tools[i].schema,
                max_seconds,
            ) is Some {
            let i = choose|i: int|
                0 <= i < tools.len() && (#[trigger] tools[i]).name == name && tool::timeout_added(
                    tools[i].schema,
                    max_seconds,
                ) is Some;
            if i < rest.len() {
                assert(rest[i] == tools[i]);
                let k = choose|k: int| 0 <= k < names.len() && names[k] == name;
                assert(all[k] == name);
            } else {
                assert(all.last() == name);
            }
        }
    }
}

/// An injected `timeout` does not reach the tool; every other argument does, as
/// it was given. A `timeout` that the tool declares itself reaches it.
pub proof fn only_an_injected_timeout_is_held_back(args: Tree, injected: bool, other: Seq<char>)
    requires
        args.entries() is Some ==> json::distinct_keys(args.entries()->0),
    ensures
        injected ==> forwarded(args, injected).get("timeout"@) is None,
        other != "timeout"@ ==> forwarded(args, injected).get(other) == args.get(other),
        !injected ==> forwarded(args, injected) == args,
{
    tool::stripping_removes_only_that_argument(args, "timeout"@, other);
}

/// In single-tool mode the tool is called without the argument that named it,
/// and with every other argument.
pub proof fn the_selector_is_not_forwarded(name: Seq<char>, args: Tree, other: Seq<char>)
    requires
        args.entries() is Some ==> json::distinct_keys(args.entries()->0),
        requested(true, name, args) is Some,
    ensures
        requested(true, name, args) matches Some((target, rest)) && json::text_at(args, "tool"@)
            == Some(target) && rest.get("tool"@) is None && (other != "tool"@ ==> rest.get(other)
            == args.get(other)),
{
    tool::stripping_removes_only_that_argument(args, "tool"@, other);
}

/// Outside single-tool mode a request goes to the tool that it names, with every
/// argument that it gives: nothing but an injected `timeout` is held back.
pub proof fn every_argument_reaches_the_tool(
    name: Seq<char>,
    args: Tree,
    injected: bool,
    key: Seq<char>,
)
    requires
        args.entries() is Some ==> json::distinct_keys(args.entries()->0),
    ensures
        requested(false, name, args) matches Some((target, rest)) && {
            &&& target == name
            &&& key != "timeout"@ ==> forwarded(rest, injected).get(key) == args.get(key)
            &&& !injected ==> forwarded(rest, injected) == args
            &&& forwarded(rest, injected) is Object == args is Object
        },
{
    only_an_injected_timeout_is_held_back(args, injected, key);
}

/// In single-tool mode a request goes to the operation that its `tool` argument
/// names, with every other argument that it gives: besides, nothing but an
/// injected `timeout` is held back. A request that names none goes nowhere.
pub proof fn every_argument_reaches_the_operation(
    name: Seq<char>,
    args: Tree,
    injected: bool,
    key: Seq<char>,
)
    requires
        args.entries() is Some ==> json::distinct_keys(args.entries()->0),
    ensures
        match args.get("tool"@) {
            Some(Tree::Text(operation)) => {
                &&& requested(true, name, args) matches Some((target, rest))
                &&& target == operation
                &&& key != "tool"@ && key != "timeout"@ ==> forwarded(rest, injected).get(key)
                    == args.get(key)
                &&& key != "tool"@ && !injected ==> forwarded(rest, injected).get(key) == args.get(
                    key,
                )
                &&& forwarded(rest, injected).get("tool"@) is None
            },
            _ => requested(true, name, args) is None,
        },
{
    reveal_strlit("tool");
    reveal_strlit("timeout");
    assert("tool"@.len() != "timeout"@.len());
    tool::stripping_removes_only_that_argument(args, "tool"@, key);
    tool::stripping_an_absent_argument_changes_nothing(args, "tool"@);
    let rest = tool::without_argument(args, "tool"@);
    tool::stripping_removes_only_that_argument(rest, "timeout"@, key);
    tool::stripping_removes_only_that_argument(rest, "timeout"@, "tool"@);
}

/// Every tool of a list is found under its name, wherever it stands, and no other
/// name is found.
pub proof fn every_available_tool_is_found(tools: Seq<Tool>, name: Seq<char>)
    ensures
        forall|i: int| 0 <= i < tools.len() ==> has_tool(tools, (#[trigger] tools[i]).name),
        (forall|i: int| 0 <= i < tools.len() ==> (#[trigger] tools[i]).name != name)
            ==> !has_tool(tools, name),
{
}

/// Adding timeouts changes nothing but the `timeout` property: the name, the
/// description, every other property and everything else in the schema stay.
pub proof fn a_timeout_is_all_that_is_added(tool: Tool, max_seconds: u64, other: Seq<char>)
    ensures
        ({
            let advertised = with_timeout(tool, max_seconds);
            &&& advertised.name == tool.name
            &&& advertised.description == tool.description
            &&& other != "properties"@ ==> advertised.schema.get(other) == tool.schema.get(other)
            &&& other != "timeout"@ ==> json::lookup(advertised.properties(), other)
                == json::lookup(tool.properties(), other)
            &&& json::has_key(tool.properties(), "timeout"@) ==> advertised == tool
        }),
{
    if tool::timeout_added(tool.schema, max_seconds) is Some {
        tool::a_timeout_is_added_once(tool.schema, max_seconds, max_seconds, other);
        let none = Seq::<(Seq<char>, Tree)>::empty();
        assert(!json::has_key(none, other));
    }
}

/// What is advertised is, but for the timeouts, each tool in its place, or the
/// one that stands for all of them.
pub proof fn every_tool_is_advertised_in_its_place(
    name: Seq<char>,
    tools: Seq<Tool>,
    max_seconds: u64,
    i: int,
)
    requires
        0 <= i < tools.len(),
    ensures
        with_timeouts(offered(name, tools, false), max_seconds).len() == tools.len(),
        with_timeouts(offered(name, tools, false), max_seconds)[i] == with_timeout(
            tools[i],
            max_seconds,
        ),
        with_timeouts(offered(name, tools, true), max_seconds) == seq![
            with_timeout(single::squashed(name, tools), max_seconds),
        ],
{
    assert(with_timeouts(offered(name, tools, true), max_seconds) =~= seq![
        with_timeout(single::squashed(name, tools), max_seconds),
    ]);
}

} // verus!
