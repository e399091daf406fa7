//! What a server does once it is started: list its tools, or serve them over
//! the selected transport.

use vstd::prelude::*;
use vstd::string::StringExecFns;

use crate::cli::{ServerOptions, Transport};
use crate::json;
use crate::json::{Json, JsonObject, Tree};
use crate::text;
use crate::text::{decimal_text, first_line};
use crate::tool;
use crate::tool::{Tool, ToolDef};

verus! {

/// Why a server could not be started, or had to stop.
#[derive(Debug)]
pub enum StartupError {
    Bind { addr: String, source: String },
    Io(String),
    UnauthenticatedHttp,
    Transport(String),
}

impl StartupError {
    /// What the error says.
    pub open spec fn said(self) -> Seq<char> {
        match self {
            StartupError::Bind { addr, source } => "could not bind "@ + addr@ + ": "@ + source@,
            StartupError::Io(source) => "i/o error: "@ + source@,
            StartupError::UnauthenticatedHttp =>
                "the HTTP transport exposes every tool to any local process. Pass --auth-token (or set MCP_AUTH_TOKEN), or --allow-unauthenticated to acknowledge the risk."@,
            StartupError::Transport(text) => "transport error: "@ + text@,
        }
    }

    /// The message for whoever starts the server.
    pub fn message(&self) -> (text: String)
        ensures
            text@ == self.said(),
    {
        match self {
            StartupError::Bind { addr, source } => {
                let mut text = "could not bind ".to_owned();
                text.append(addr.as_str());
                text.append(": ");
                text.append(source.as_str());
                text
            },
            StartupError::Io(source) => {
                let mut text = "i/o error: ".to_owned();
                text.append(source.as_str());
                text
            },
            StartupError::UnauthenticatedHttp =>
                "the HTTP transport exposes every tool to any local process. Pass --auth-token (or set MCP_AUTH_TOKEN), or --allow-unauthenticated to acknowledge the risk.".to_owned(),
            StartupError::Transport(said) => {
                let mut text = "transport error: ".to_owned();
                text.append(said.as_str());
                text
            },
        }
    }
}

/// What a started server does.
#[derive(Debug)]
pub enum Plan {
    /// Print the tools and stop.
    ListTools { json: bool },
    /// Serve over stdin and stdout.
    Stdio,
    /// Listen on an address. With a token, every request has to present it.
    Http { bind: String, token: Option<String> },
}

/// What these options ask for. An HTTP transport is refused where it would be
/// open to everyone and nobody said that this is meant.
pub fn plan(options: &ServerOptions) -> (plan: Result<Plan, StartupError>)
    ensures
        if options.list_tools {
            plan == Ok::<Plan, StartupError>(Plan::ListTools { json: options.json })
        } else if !options.transport.listens() {
            plan == Ok::<Plan, StartupError>(Plan::Stdio)
        } else if !options.may_listen() {
            plan == Err::<Plan, StartupError>(StartupError::UnauthenticatedHttp)
        } else {
            &&& plan matches Ok(Plan::Http { bind, token })
            &&& bind == options.bind
            &&& token is Some == options.effective_token() is Some
            &&& token is Some ==> token->0@ == options.effective_token()->0
        },
{
    if options.list_tools {
        return Ok(Plan::ListTools { json: options.json });
    }
    match options.transport {
        Transport::Stdio => Ok(Plan::Stdio),
        Transport::Http | Transport::Sse => {
            if !options.http_start_permitted() {
                return Err(StartupError::UnauthenticatedHttp);
            }
            let token = match options.token() {
                Some(token) => Some(token.to_owned()),
                None => None,
            };
            Ok(Plan::Http { bind: options.bind.clone(), token })
        },
    }
}

/// A server never listens without a token unless that was allowed.
pub proof fn an_open_server_was_allowed(options: ServerOptions)
    requires
        options.may_listen(),
        options.effective_token() is None,
    ensures
        options.allow_unauthenticated,
{
}

/// A tool as it is listed in JSON.
pub open spec fn tool_entry(tool: Tool) -> Tree {
    Tree::Object(
        seq![
            ("name"@, Tree::Text(tool.name)),
            ("description"@, Tree::Text(tool.description)),
            ("inputSchema"@, tool.schema),
        ],
    )
}

/// Tools as they are listed in JSON.
pub open spec fn tool_entries(tools: Seq<Tool>) -> Tree {
    Tree::Array(Seq::new(tools.len(), |i: int| tool_entry(tools[i])))
}

/// Spaces.
pub open spec fn spaces(count: int) -> Seq<char> {
    Seq::new(
        if count > 0 {
            count as nat
        } else {
            0
        },
        |i: int| ' ',
    )
}

/// A text filled up with spaces to at least `width` characters.
pub open spec fn padded(text: Seq<char>, width: nat) -> Seq<char> {
    text + spaces(width - text.len())
}

/// The line for one tool: its name, and the first line of its description.
pub open spec fn tool_line(tool: Tool) -> Seq<char> {
    "  "@ + padded(tool.name, 24) + " "@ + text::first_line_of(tool.description) + "\n"@
}

/// The lines for tools, in order.
pub open spec fn tool_lines(tools: Seq<Tool>) -> Seq<char>
    decreases tools.len(),
{
    if tools.len() == 0 {
        Seq::empty()
    } else {
        tool_lines(tools.drop_last()) + tool_line(tools.last())
    }
}

/// The listing of tools: JSON, or a table under a count.
pub open spec fn listing(tools: Seq<Tool>, json: bool) -> Seq<char> {
    if json {
        (match json::pretty_json(tool_entries(tools)) {
            Some(text) => text,
            None => "[]"@,
        }) + "\n"@
    } else {
        text::decimal(tools.len()) + " tools:\n\n"@ + tool_lines(tools)
    }
}

fn entry(def: &ToolDef) -> (entry: Json)
    ensures
        entry@ == tool_entry(def@),
{
    proof {
        reveal_strlit("name");
        reveal_strlit("description");
        reveal_strlit("inputSchema");
        assert("name"@.len() != "description"@.len());
        assert("name"@.len() != "inputSchema"@.len());
        assert("description"@[0] != "inputSchema"@[0]);
    }
    let mut object = JsonObject::new();
    object.insert("name".to_owned(), Json::text(def.name.as_str()));
    assert(object@ =~= seq![("name"@, Tree::Text(def@.name))]);
    object.insert("description".to_owned(), Json::text(def.description.as_str()));
    assert(object@ =~= seq![
        ("name"@, Tree::Text(def@.name)),
        ("description"@, Tree::Text(def@.description)),
    ]);
    object.insert("inputSchema".to_owned(), def.schema.clone());
    assert(object@ =~= tool_entry(def@)->Object_0);
    Json::Object(object)
}

fn line(def: &ToolDef) -> (line: String)
    ensures
        line@ == tool_line(def@),
{
    let mut line = "  ".to_owned();
    line.append(def.name.as_str());
    let mut length: usize = def.name.as_str().unicode_len();
    let ghost start = line@;
    let ghost full = 24 - def@.name.len();
    assert(line@ =~= start + spaces(0));
    while length < 24
        invariant
            def@.name.len() <= length,
            length <= 24 || def@.name.len() == length,
            full == 24 - def@.name.len(),
            line@ == start + spaces(length - def@.name.len()),
        decreases 24 - length,
    {
        line.push(' ');
        length = length + 1;
        assert(line@ =~= start + spaces(length - def@.name.len()));
    }
    assert(spaces(length - def@.name.len()) =~= spaces(full));
    line.append(" ");
    line.append(first_line(def.description.as_str()).as_str());
    line.append("\n");
    assert(line@ =~= tool_line(def@));
    line
}

/// The listing of tools, as it is printed.
pub fn render_tools(tools: &[ToolDef], json: bool) -> (listing: String)
    ensures
        listing@ == self::listing(tool::tools_of(tools@), json),
{
    let ghost all = tool::tools_of(tools@);
    if json {
        let mut entries: Vec<Json> = Vec::new();
        for i in 0..tools.len()
            invariant
                entries@.len() == i,
                forall|j: int|
                    0 <= j < i ==> (#[trigger] entries@[j])@ == tool_entry(tools@[j]@),
        {
            entries.push(entry(&tools[i]));
        }
        assert(json::trees(entries@) =~= tool_entries(all)->Array_0);
        let mut text = match Json::Array(entries).to_pretty() {
            Some(text) => text,
            None => "[]".to_owned(),
        };
        text.append("\n");
        return text;
    }
    let mut text = decimal_text(tools.len() as u128);
    text.append(" tools:\n\n");
    let ghost head = text@;
    assert(text@ =~= head + tool_lines(all.take(0)));
    for i in 0..tools.len()
        invariant
            all == tool::tools_of(tools@),
            text@ == head + tool_lines(all.take(i as int)),
    {
        text.append(line(&tools[i]).as_str());
        proof {
            assert(all.take(i + 1).drop_last() =~= all.take(i as int));
            assert(text@ =~= head + tool_lines(all.take(i + 1)));
        }
    }
    assert(all.take(tools@.len() as int) =~= all);
    text
}

/// A tool is listed in JSON under its name, with its description and its schema,
/// and with nothing else.
pub proof fn a_listed_tool_is_complete(tool: Tool, other: Seq<char>)
    ensures
        tool_entry(tool).get("name"@) == Some(Tree::Text(tool.name)),
        tool_entry(tool).get("description"@) == Some(Tree::Text(tool.description)),
        tool_entry(tool).get("inputSchema"@) == Some(tool.schema),
        other != "name"@ && other != "description"@ && other != "inputSchema"@ ==> tool_entry(
            tool,
        ).get(other) is None,
{
    reveal_strlit("name");
    reveal_strlit("description");
    reveal_strlit("inputSchema");
    assert("name"@.len() != "description"@.len());
    assert("name"@.len() != "inputSchema"@.len());
    assert("description"@[0] != "inputSchema"@[0]);
    let entries = tool_entry(tool)->Object_0;
    json::lemma_lookup_first(entries, "name"@, 0);
    json::lemma_lookup_first(entries, "description"@, 1);
    json::lemma_lookup_first(entries, "inputSchema"@, 2);
    if other != "name"@ && other != "description"@ && other != "inputSchema"@ {
        assert(!json::has_key(entries, other));
    }
}

/// Every tool is listed in JSON, in order.
pub proof fn every_tool_is_listed_in_json(tools: Seq<Tool>, i: int)
    requires
        0 <= i < tools.len(),
    ensures
        tool_entries(tools) matches Tree::Array(items) && items.len() == tools.len() && items[i]
            == tool_entry(tools[i]),
        json::pretty_json(tool_entries(tools)) matches Some(written) ==> listing(tools, true)
            == written + seq!['\n'],
{
    reveal_strlit("\n");
    assert("\n"@ =~= seq!['\n']);
}

/// The line of a tool in the table: its name, filled up with spaces to the width of
/// the column where it is shorter, and the first line of its description.
pub open spec fn table_line(tool: Tool, line: Seq<char>, filling: nat) -> bool {
    &&& line == seq![' ', ' '] + tool.name + Seq::new(filling, |i: int| ' ') + seq![' ']
        + text::first_line_of(tool.description) + seq!['\n']
    &&& tool.name.len() <= 24 ==> tool.name.len() + filling == 24
    &&& tool.name.len() > 24 ==> filling == 0
}

proof fn lemma_table_line(tool: Tool) -> (filling: nat)
    ensures
        table_line(tool, tool_line(tool), filling),
{
    reveal_strlit("  ");
    reveal_strlit(" ");
    reveal_strlit("\n");
    let filling: nat = if tool.name.len() <= 24 {
        (24 - tool.name.len()) as nat
    } else {
        0
    };
    assert(spaces(24 - tool.name.len()) =~= Seq::new(filling, |i: int| ' '));
    assert(tool_line(tool) =~= seq![' ', ' '] + tool.name + Seq::new(filling, |i: int| ' ') + seq![
        ' ',
    ] + text::first_line_of(tool.description) + seq!['\n']);
    filling
}

/// The table starts with how many tools there are, and has a line for every one
/// of them.
pub proof fn every_tool_is_listed_in_the_table(tools: Seq<Tool>, i: int)
    requires
        0 <= i < tools.len(),
    ensures
        text::decimal(tools.len()).is_prefix_of(listing(tools, false)),
        exists|line: Seq<char>, filling: nat| #[trigger]
            table_line(tools[i], line, filling) && text::holds(listing(tools, false), line),
        text::holds(listing(tools, false), tools[i].name),
{
    let head = text::decimal(tools.len()) + " tools:\n\n"@;
    let lines = tool_lines(tools);
    let nothing = Seq::<char>::empty();
    let filling = lemma_table_line(tools[i]);
    let line = tool_line(tools[i]);
    lemma_line_listed(tools, i);
    text::lemma_holds_within(head, lines, nothing, line);
    assert(head + lines + nothing =~= listing(tools, false));
    assert(table_line(tools[i], line, filling) && text::holds(listing(tools, false), line));
    let rest = line.skip(2 + tools[i].name.len() as int);
    text::lemma_holds(seq![' ', ' '], tools[i].name, rest);
    assert(seq![' ', ' '] + tools[i].name + rest =~= line);
    text::lemma_holds_deep(listing(tools, false), line, tools[i].name);
}

proof fn lemma_line_listed(tools: Seq<Tool>, i: int)
    requires
        0 <= i < tools.len(),
    ensures
        text::holds(tool_lines(tools), tool_line(tools[i])),
    decreases tools.len(),
{
    let rest = tools.drop_last();
    let before = tool_lines(rest);
    let nothing = Seq::<char>::empty();
    let last = tool_line(tools.last());
    if i < rest.len() {
        assert(rest[i] == tools[i]);
        lemma_line_listed(rest, i);
        text::lemma_holds_within(nothing, before, last, tool_line(tools[i]));
        assert(nothing + before + last =~= tool_lines(tools));
    } else {
        text::lemma_holds(before, last, nothing);
        assert(before + last + nothing =~= tool_lines(tools));
    }
}

/// The table lists the tools in order: the lines of some tools and of others behind
/// them are the lines of the ones and then those of the others.
pub proof fn tools_are_listed_in_order(first: Seq<Tool>, second: Seq<Tool>)
    ensures
        tool_lines(first + second) == tool_lines(first) + tool_lines(second),
        second.len() == 1 ==> exists|filling: nat| #[trigger]
            table_line(second[0], tool_lines(second), filling),
    decreases second.len(),
{
    if second.len() == 0 {
        assert(first + second =~= first);
        assert(tool_lines(first) + tool_lines(second) =~= tool_lines(first));
    } else {
        tools_are_listed_in_order(first, second.drop_last());
        assert((first + second).drop_last() =~= first + second.drop_last());
        assert((first + second).last() == second.last());
        assert(tool_lines(first + second) =~= tool_lines(first) + tool_lines(second));
        if second.len() == 1 {
            let filling = lemma_table_line(second[0]);
            assert(tool_lines(second.drop_last()) =~= Seq::<char>::empty());
            assert(tool_lines(second) =~= tool_line(second[0]));
            assert(table_line(second[0], tool_lines(second), filling));
        }
    }
}

/// A server may listen if and only if it expects a token, or listening without one
/// was allowed.
pub proof fn listening_takes_a_token_or_a_leave(options: ServerOptions)
    ensures
        options.effective_token() is Some ==> options.may_listen(),
        options.allow_unauthenticated ==> options.may_listen(),
        options.effective_token() is None && !options.allow_unauthenticated
            ==> !options.may_listen(),
{
}

/// The token that is expected is the one that was given, without the white space
/// around it; a blank one counts as none.
pub proof fn only_a_blank_token_counts_as_none(options: ServerOptions)
    ensures
        match options.auth_token {
            Some(given) => match options.effective_token() {
                Some(token) => {
                    &&& token.len() > 0
                    &&& exists|from: int, to: int|
                        #![trigger text::trimmed_to(given@, from, to)]
                        text::trimmed_to(given@, from, to) && token == given@.subrange(from, to)
                },
                None => forall|i: int| 0 <= i < given@.len() ==> text::white_space(
                    #[trigger] given@[i],
                ),
            },
            None => options.effective_token() is None,
        },
{
    match options.auth_token {
        Some(given) => {
            text::trimming_removes_only_white_space(given@);
            text::only_white_space_is_blank(given@);
            let (from, to) = choose|from: int, to: int| text::trimmed_to(given@, from, to);
            assert(text::trimmed_to(given@, from, to));
        },
        None => {},
    }
}

/// The HTTP transports listen, also under their old name, and the other does not.
pub proof fn only_http_listens(transport: Transport)
    ensures
        transport is Http ==> transport.listens(),
        transport is Sse ==> transport.listens(),
        transport is Stdio ==> !transport.listens(),
{
}

/// An error at the start says where it came from.
pub proof fn a_startup_error_says_where_it_came_from(error: StartupError)
    ensures
        match error {
            StartupError::Bind { addr, source } => text::holds(error.said(), addr@) && text::holds(
                error.said(),
                source@,
            ),
            StartupError::Io(source) => text::holds(error.said(), source@),
            StartupError::Transport(said) => text::holds(error.said(), said@),
            StartupError::UnauthenticatedHttp => text::holds(error.said(), "--auth-token"@)
                && text::holds(error.said(), "--allow-unauthenticated"@),
        },
{
    let nothing = Seq::<char>::empty();
    match error {
        StartupError::Bind { addr, source } => {
            text::lemma_holds("could not bind "@, addr@, ": "@ + source@);
            assert("could not bind "@ + addr@ + (": "@ + source@) =~= error.said());
            text::lemma_holds("could not bind "@ + addr@ + ": "@, source@, nothing);
            assert("could not bind "@ + addr@ + ": "@ + source@ + nothing =~= error.said());
        },
        StartupError::Io(source) => {
            text::lemma_holds("i/o error: "@, source@, nothing);
            assert("i/o error: "@ + source@ + nothing =~= error.said());
        },
        StartupError::Transport(said) => {
            text::lemma_holds("transport error: "@, said@, nothing);
            assert("transport error: "@ + said@ + nothing =~= error.said());
        },
        StartupError::UnauthenticatedHttp => {
            let said = error.said();
            reveal_strlit("the HTTP transport exposes every tool to any local process. Pass --auth-token (or set MCP_AUTH_TOKEN), or --allow-unauthenticated to acknowledge the risk.");
            reveal_strlit("--auth-token");
            reveal_strlit("--allow-unauthenticated");
            assert(said.subrange(65, 77) =~= "--auth-token"@);
            assert(text::stands(said, "--auth-token"@, 65));
            assert(said.subrange(106, 129) =~= "--allow-unauthenticated"@);
            assert(text::stands(said, "--allow-unauthenticated"@, 106));
        },
    }
}

} // verus!
