//! `--single-tool`: collapse a server's tools into one dispatching tool.
//!
//! Some clients cap how many tools they will accept, or degrade badly past a
//! few dozen. Squashing lets a server with fifteen tools occupy one slot: the
//! caller picks the operation with a `tool` argument and passes that
//! operation's arguments alongside.
//!
//! The interesting problem is the merged schema. Two tools may declare the same
//! property with different types. A silently-wrong merged type would make the
//! model send arguments the tool rejects, so collisions are detected and the
//! conflicting property is widened and documented rather than guessed at.

use vstd::prelude::*;
use vstd::string::StringExecFns;

use crate::json;
use crate::json::{Json, JsonObject, Tree};
use crate::text;
use crate::text::{chars_of, contains_text, first_line, join, position_of, same_text, string_of};
use crate::tool;
use crate::tool::{Tool, ToolDef, ToolFailure, ToolResult, strip_argument};

verus! {

/// One property that one tool declares.
pub struct Declaration {
    pub owner: Seq<char>,
    pub name: Seq<char>,
    pub spec: Tree,
}

/// The properties merged so far, and the names whose types disagree.
pub struct Merge {
    pub properties: Seq<(Seq<char>, Tree)>,
    pub conflicts: Seq<Seq<char>>,
}

/// What one tool declares, in schema order.
pub open spec fn declared_by(tool: Tool) -> Seq<Declaration> {
    Seq::new(
        tool.properties().len(),
        |i: int|
            Declaration {
                owner: tool.name,
                name: tool.properties()[i].0,
                spec: tool.properties()[i].1,
            },
    )
}

/// What the tools declare, tool by tool.
pub open spec fn declarations(tools: Seq<Tool>) -> Seq<Declaration>
    decreases tools.len(),
{
    if tools.len() == 0 {
        Seq::empty()
    } else {
        declarations(tools.drop_last()) + declared_by(tools.last())
    }
}

/// The description of a value, or nothing.
pub open spec fn description_of(spec: Tree) -> Seq<char> {
    match json::text_at(spec, "description"@) {
        Some(text) => text,
        None => Seq::empty(),
    }
}

/// An object with its description set; any other value as it is.
pub open spec fn described(spec: Tree, text: Seq<char>) -> Tree {
    match spec {
        Tree::Object(entries) => Tree::Object(
            json::with_entry(entries, "description"@, Tree::Text(text)),
        ),
        _ => spec,
    }
}

/// A description that names the one operation that accepts the property.
pub open spec fn owned_text(base: Seq<char>, owner: Seq<char>) -> Seq<char> {
    if base.len() == 0 {
        "["@ + owner + "]"@
    } else {
        "["@ + owner + "] "@ + base
    }
}

/// Where the first `", "` stands in `text`, or its length.
pub open spec fn find_comma(text: Seq<char>) -> int
    decreases text.len(),
{
    if text.len() < 2 {
        text.len() as int
    } else if text[0] == ',' && text[1] == ' ' {
        0
    } else {
        1 + find_comma(text.drop_first())
    }
}

/// The search for `", "` stays within the text.
pub proof fn lemma_find_comma_bounds(text: Seq<char>)
    ensures
        0 <= find_comma(text) <= text.len(),
        find_comma(text) < text.len() ==> find_comma(text) + 2 <= text.len(),
    decreases text.len(),
{
    if text.len() >= 2 && !(text[0] == ',' && text[1] == ' ') {
        lemma_find_comma_bounds(text.drop_first());
    }
}

/// The parts of `text` between the occurrences of `", "`.
pub open spec fn comma_parts(text: Seq<char>) -> Seq<Seq<char>>
    decreases text.len(),
{
    let at = find_comma(text);
    if 0 <= at && at + 2 <= text.len() {
        seq![text.take(at)] + comma_parts(text.skip(at + 2))
    } else {
        seq![text]
    }
}

/// A description `[a] rest` with `owner` added to the list: `[a, owner] rest`.
/// An owner that is listed stays listed once.
pub open spec fn shared_text(current: Seq<char>, owner: Seq<char>) -> Seq<char> {
    let inner = current.skip(1);
    let close = text::find_char(inner, ']');
    if current.len() > 0 && current[0] == '[' && close < inner.len() {
        if comma_parts(inner.take(close)).contains(owner) {
            current
        } else {
            "["@ + inner.take(close) + ", "@ + owner + "]"@ + inner.skip(close + 1)
        }
    } else {
        "["@ + owner + "] "@ + current
    }
}

/// Whether two declarations agree: they specify the same `type`, or neither
/// does.
pub open spec fn agree(a: Tree, b: Tree) -> bool {
    json::same_option(a.get("type"@), b.get("type"@))
}

/// What one tool expects of a property, if it declares it.
pub open spec fn type_note(tool: Tool, name: Seq<char>) -> Option<Seq<char>> {
    match tool.schema.get("properties"@) {
        Some(properties) => match properties.get(name) {
            Some(spec) => Some(
                tool.name + ": "@ + (match json::text_at(spec, "type"@) {
                    Some(kind) => kind,
                    None => "any"@,
                }),
            ),
            None => None,
        },
        None => None,
    }
}

/// Which tool expects which type of a property.
pub open spec fn type_notes(tools: Seq<Tool>, name: Seq<char>) -> Seq<Seq<char>>
    decreases tools.len(),
{
    if tools.len() == 0 {
        Seq::empty()
    } else {
        match type_note(tools.last(), name) {
            Some(note) => type_notes(tools.drop_last(), name).push(note),
            None => type_notes(tools.drop_last(), name),
        }
    }
}

/// A property without a type, whose description says which tool expects which.
pub open spec fn widened_property(name: Seq<char>, tools: Seq<Tool>) -> Tree {
    Tree::Object(
        seq![
            (
                "description"@,
                Tree::Text(
                    "Type depends on the chosen tool ("@ + text::joined(type_notes(tools, name), "; "@)
                        + "). Pass the type that tool expects."@,
                ),
            ),
        ],
    )
}

/// Takes one more declaration in.
pub open spec fn merge_one(merge: Merge, one: Declaration, tools: Seq<Tool>) -> Merge {
    match json::lookup(merge.properties, one.name) {
        None => Merge {
            properties: json::with_entry(
                merge.properties,
                one.name,
                described(one.spec, owned_text(description_of(one.spec), one.owner)),
            ),
            conflicts: merge.conflicts,
        },
        Some(existing) => if agree(existing, one.spec) {
            Merge {
                properties: json::with_entry(
                    merge.properties,
                    one.name,
                    described(existing, shared_text(description_of(existing), one.owner)),
                ),
                conflicts: merge.conflicts,
            }
        } else {
            Merge {
                properties: json::with_entry(
                    merge.properties,
                    one.name,
                    widened_property(one.name, tools),
                ),
                conflicts: if merge.conflicts.contains(one.name) {
                    merge.conflicts
                } else {
                    merge.conflicts.push(one.name)
                },
            }
        },
    }
}

/// The names of the tools, as JSON texts.
pub open spec fn tool_names(tools: Seq<Tool>) -> Seq<Tree> {
    Seq::new(tools.len(), |i: int| Tree::Text(tools[i].name))
}

/// The argument that picks the operation.
pub open spec fn selector(tools: Seq<Tool>) -> Tree {
    Tree::Object(
        seq![
            ("type"@, Tree::Text("string"@)),
            ("description"@, Tree::Text("Which operation to run."@)),
            ("enum"@, Tree::Array(tool_names(tools))),
        ],
    )
}

/// The declarations merged in order, starting from the argument that picks the
/// operation.
pub open spec fn merged(found: Seq<Declaration>, tools: Seq<Tool>) -> Merge
    decreases found.len(),
{
    if found.len() == 0 {
        Merge { properties: seq![("tool"@, selector(tools))], conflicts: Seq::empty() }
    } else {
        merge_one(merged(found.drop_last(), tools), found.last(), tools)
    }
}

/// The line that describes one operation.
pub open spec fn operation_line(tool: Tool) -> Seq<char> {
    "  "@ + tool.name + (if tool.required().len() == 0 {
        Seq::empty()
    } else {
        " (requires "@ + text::joined(tool.required(), ", "@) + ")"@
    }) + ": "@ + text::first_line_of(tool.description) + "\n"@
}

/// The lines that describe the operations.
pub open spec fn operation_lines(tools: Seq<Tool>) -> Seq<char>
    decreases tools.len(),
{
    if tools.len() == 0 {
        Seq::empty()
    } else {
        operation_lines(tools.drop_last()) + operation_line(tools.last())
    }
}

/// The description of the dispatching tool.
pub open spec fn dispatcher_text(
    server_name: Seq<char>,
    tools: Seq<Tool>,
    conflicts: Seq<Seq<char>>,
) -> Seq<char> {
    "All "@ + server_name
        + " operations behind one tool. Set `tool` to the operation you want and pass that operation's arguments alongside it.\n\nOperations:\n"@
        + operation_lines(tools) + (if conflicts.len() == 0 {
        Seq::empty()
    } else {
        "\nNote: "@ + text::joined(conflicts, ", "@)
            + " take different types depending on the operation; see each property's description.\n"@
    })
}

/// The one tool that stands for all of `tools`.
pub open spec fn squashed(server_name: Seq<char>, tools: Seq<Tool>) -> Tool {
    let merge = merged(declarations(tools), tools);
    Tool {
        name: server_name + "_tool"@,
        description: dispatcher_text(server_name, tools, merge.conflicts),
        schema: Tree::Object(
            seq![
                ("type"@, Tree::Text("object"@)),
                ("properties"@, Tree::Object(merge.properties)),
                ("required"@, Tree::Array(seq![Tree::Text("tool"@)])),
            ],
        ),
    }
}

/// Setting a key that is not there puts it at the end.
proof fn lemma_new_entry(
    entries: Seq<(Seq<char>, Tree)>,
    key: Seq<char>,
    value: Tree,
)
    requires
        forall|i: int| 0 <= i < entries.len() ==> (#[trigger] entries[i]).0 != key,
    ensures
        json::with_entry(entries, key, value) == entries.push((key, value)),
{
    assert(!json::has_key(entries, key));
}

fn description_text(spec: &JsonObject) -> (text: String)
    ensures
        text@ == description_of(Tree::Object(spec@)),
{
    match spec.get("description") {
        Some(value) => match value.as_str() {
            Some(text) => text.to_owned(),
            None => String::new(),
        },
        None => String::new(),
    }
}

/// Records which operation accepts a property, so the model can tell what
/// applies to the operation it picked.
pub fn annotate(spec: &Json, owner: &str) -> (annotated: Json)
    ensures
        annotated@ == described(spec@, owned_text(description_of(spec@), owner@)),
{
    match spec {
        Json::Object(object) => {
            let base = description_text(object);
            let mut text = "[".to_owned();
            text.append(owner);
            if base.as_str().is_empty() {
                text.append("]");
            } else {
                text.append("] ");
                text.append(base.as_str());
            }
            assert(text@ == owned_text(base@, owner@));
            let mut object = object.clone();
            object.insert("description".to_owned(), Json::Text(text));
            Json::Object(object)
        },
        _ => spec.clone(),
    }
}

/// Whether `owner` is one of the parts of `owners` between the `", "`.
fn listed(owners: &[char], owner: &str) -> (found: bool)
    ensures
        found == comma_parts(owners@).contains(owner@),
{
    let mut start: usize = 0;
    assert(owners@.skip(0) =~= owners@);
    loop
        invariant
            start <= owners@.len(),
            comma_parts(owners@).contains(owner@) == comma_parts(
                owners@.skip(start as int),
            ).contains(owner@),
        decreases owners@.len() - start,
    {
        let ghost rest = owners@.skip(start as int);
        let mut end: usize = start;
        while end < owners.len() && !(owners.len() - end >= 2 && owners[end] == ',' && owners[end
            + 1] == ' ')
            invariant
                start <= end <= owners@.len(),
                rest == owners@.skip(start as int),
                find_comma(rest) == end - start + find_comma(owners@.skip(end as int)),
            decreases owners@.len() - end,
        {
            proof {
                let here = owners@.skip(end as int);
                if here.len() >= 2 {
                    assert(here.drop_first() =~= owners@.skip(end + 1));
                } else {
                    assert(owners@.skip(end + 1).len() == 0);
                }
            }
            end = end + 1;
        }
        assert(find_comma(rest) == end - start) by {
            if end < owners@.len() {
                let here = owners@.skip(end as int);
                assert(here[0] == ',' && here[1] == ' ');
            }
        }
        let part = string_of(owners_part(owners, start, end).as_slice());
        proof {
            assert(part@ =~= rest.take(end - start));
            let parts = comma_parts(rest);
            if end < owners@.len() {
                let more = comma_parts(rest.skip(end - start + 2));
                assert(parts == seq![part@] + more);
                assert(rest.skip(end - start + 2) =~= owners@.skip(end + 2));
                assert(parts[0] == part@);
                if parts.contains(owner@) && part@ != owner@ {
                    let k = choose|k: int| 0 <= k < parts.len() && parts[k] == owner@;
                    assert(more[k - 1] == owner@);
                }
                if more.contains(owner@) {
                    let k = choose|k: int| 0 <= k < more.len() && more[k] == owner@;
                    assert(parts[k + 1] == owner@);
                }
            } else {
                assert(part@ =~= rest);
                assert(parts == seq![rest]);
                assert(parts[0] == part@);
            }
        }
        if same_text(part.as_str(), owner) {
            return true;
        }
        if end == owners.len() {
            return false;
        }
        start = end + 2;
    }
}

fn owners_part(chars: &[char], from: usize, to: usize) -> (part: Vec<char>)
    requires
        from <= to <= chars@.len(),
    ensures
        part@ == chars@.subrange(from as int, to as int),
{
    let mut part: Vec<char> = Vec::new();
    for i in from..to
        invariant
            from <= to <= chars@.len(),
            part@ == chars@.subrange(from as int, i as int),
    {
        part.push(chars[i]);
        assert(part@ =~= chars@.subrange(from as int, i + 1));
    }
    part
}

/// Adds an operation to those that a shared property lists.
pub fn extend_owner(existing: &Json, owner: &str) -> (extended: Json)
    ensures
        extended@ == described(existing@, shared_text(description_of(existing@), owner@)),
{
    match existing {
        Json::Object(object) => {
            let current = description_text(object);
            let chars = chars_of(current.as_str());
            let updated = owner_added(current, chars, owner);
            let mut object = object.clone();
            object.insert("description".to_owned(), Json::Text(updated));
            Json::Object(object)
        },
        _ => existing.clone(),
    }
}

fn owner_added(current: String, chars: Vec<char>, owner: &str) -> (updated: String)
    requires
        chars@ == current@,
    ensures
        updated@ == shared_text(current@, owner@),
{
    if chars.len() > 0 && chars[0] == '[' {
        let inner = owners_part(chars.as_slice(), 1, chars.len());
        assert(inner@ =~= current@.skip(1));
        let close = position_of(inner.as_slice(), ']');
        if close < inner.len() {
            let owners = owners_part(inner.as_slice(), 0, close);
            assert(owners@ =~= current@.skip(1).take(close as int));
            if listed(owners.as_slice(), owner) {
                return current;
            }
            let rest = owners_part(inner.as_slice(), close + 1, inner.len());
            assert(rest@ =~= current@.skip(1).skip(close + 1));
            let mut text = "[".to_owned();
            text.append(string_of(owners.as_slice()).as_str());
            text.append(", ");
            text.append(owner);
            text.append("]");
            text.append(string_of(rest.as_slice()).as_str());
            return text;
        }
    }
    let mut text = "[".to_owned();
    text.append(owner);
    text.append("] ");
    text.append(current.as_str());
    text
}

/// Two declarations agree if they specify the same `type` (or neither does).
pub fn compatible(a: &Json, b: &Json) -> (yes: bool)
    ensures
        yes == agree(a@, b@),
{
    match (a.get("type"), b.get("type")) {
        (None, None) => true,
        (Some(x), Some(y)) => x.same(y),
        _ => false,
    }
}

fn note_for(tool: &ToolDef, name: &str) -> (note: Option<String>)
    ensures
        note is Some == type_note(tool@, name@) is Some,
        note is Some ==> note->0@ == type_note(tool@, name@)->0,
{
    match tool.schema.get("properties") {
        Some(properties) => match properties.get(name) {
            Some(spec) => {
                let mut note = tool.name.clone();
                note.append(": ");
                match spec.get("type") {
                    Some(value) => match value.as_str() {
                        Some(kind) => note.append(kind),
                        None => note.append("any"),
                    },
                    None => note.append("any"),
                }
                Some(note)
            },
            None => None,
        },
        None => None,
    }
}

/// A property claimed by several tools with different types: drop the `type`
/// constraint and say which operation expects which.
pub fn widened(name: &str, tools: &[ToolDef]) -> (property: Json)
    ensures
        property@ == widened_property(name@, tool::tools_of(tools@)),
{
    let ghost all = tool::tools_of(tools@);
    let mut notes: Vec<String> = Vec::new();
    assert(text::texts(notes@) =~= type_notes(all.take(0), name@));
    for i in 0..tools.len()
        invariant
            all == tool::tools_of(tools@),
            text::texts(notes@) == type_notes(all.take(i as int), name@),
    {
        assert(all.take(i + 1).drop_last() =~= all.take(i as int));
        assert(all.take(i + 1).last() == tools@[i as int]@);
        match note_for(&tools[i], name) {
            Some(note) => {
                let ghost before = notes@;
                notes.push(note);
                assert(text::texts(notes@) =~= text::texts(before).push(note@));
            },
            None => {},
        }
    }
    assert(all.take(all.len() as int) =~= all);
    let mut text = "Type depends on the chosen tool (".to_owned();
    text.append(join(notes.as_slice(), "; ").as_str());
    text.append("). Pass the type that tool expects.");
    let ghost said = text@;
    let mut object = JsonObject::new();
    object.insert("description".to_owned(), Json::Text(text));
    assert(object@ =~= seq![("description"@, Tree::Text(said))]);
    Json::Object(object)
}

/// Takes one more declaration into the merged properties.
fn merge_property(
    properties: &mut JsonObject,
    conflicts: &mut Vec<String>,
    name: &str,
    spec: &Json,
    owner: &str,
    tools: &[ToolDef],
)
    ensures
        ({
            let one = Declaration { owner: owner@, name: name@, spec: spec@ };
            let before = Merge {
                properties: old(properties)@,
                conflicts: text::texts(old(conflicts)@),
            };
            let after = merge_one(before, one, tool::tools_of(tools@));
            &&& final(properties)@ == after.properties
            &&& text::texts(final(conflicts)@) == after.conflicts
        }),
{
    let value = match properties.get(name) {
        None => annotate(spec, owner),
        Some(existing) => if compatible(existing, spec) {
            extend_owner(existing, owner)
        } else {
            // Same name, different type. Widening is honest; guessing is not.
            if !contains_text(conflicts.as_slice(), name) {
                let ghost before = conflicts@;
                conflicts.push(name.to_owned());
                assert(text::texts(conflicts@) =~= text::texts(before).push(name@));
            }
            widened(name, tools)
        },
    };
    properties.insert(name.to_owned(), value);
}

fn select_tool(tools: &[ToolDef]) -> (property: Json)
    ensures
        property@ == selector(tool::tools_of(tools@)),
{
    let mut names: Vec<Json> = Vec::new();
    for i in 0..tools.len()
        invariant
            names.len() == i,
            forall|j: int| 0 <= j < i ==> (#[trigger] names@[j])@ == Tree::Text(tools@[j].name@),
    {
        names.push(Json::text(tools[i].name.as_str()));
    }
    assert(json::trees(names@) =~= tool_names(tool::tools_of(tools@)));
    let mut object = JsonObject::new();
    object.insert("type".to_owned(), Json::text("string"));
    proof {
        reveal_strlit("type");
        reveal_strlit("description");
        reveal_strlit("enum");
        assert("type"@[0] == 't' && "description"@[0] == 'd' && "enum"@[0] == 'e');
        lemma_new_entry(
            Seq::empty(),
            "type"@,
            Tree::Text("string"@),
        );
        lemma_new_entry(object@, "description"@, Tree::Text("Which operation to run."@));
    }
    object.insert("description".to_owned(), Json::text("Which operation to run."));
    proof {
        lemma_new_entry(object@, "enum"@, Tree::Array(json::trees(names@)));
    }
    object.insert("enum".to_owned(), Json::Array(names));
    assert(object@ =~= selector(tool::tools_of(tools@))->Object_0);
    Json::Object(object)
}

fn operation(tool: &ToolDef) -> (line: String)
    ensures
        line@ == operation_line(tool@),
{
    let args = tool.required();
    let mut line = "  ".to_owned();
    line.append(tool.name.as_str());
    if args.len() > 0 {
        line.append(" (requires ");
        line.append(join(args.as_slice(), ", ").as_str());
        line.append(")");
    }
    line.append(": ");
    line.append(first_line(tool.description.as_str()).as_str());
    line.append("\n");
    assert(args.len() == tool@.required().len());
    assert(line@ =~= operation_line(tool@));
    line
}

/// Says what the dispatching tool offers: each operation with what it requires,
/// and which properties take different types.
pub fn describe(server_name: &str, tools: &[ToolDef], conflicts: &[String]) -> (text: String)
    ensures
        text@ == dispatcher_text(server_name@, tool::tools_of(tools@), text::texts(conflicts@)),
{
    let ghost all = tool::tools_of(tools@);
    let mut text = "All ".to_owned();
    text.append(server_name);
    text.append(
        " operations behind one tool. Set `tool` to the operation you want and pass that operation's arguments alongside it.\n\nOperations:\n",
    );
    let ghost head = text@;
    assert(head =~= head + operation_lines(all.take(0)));
    for i in 0..tools.len()
        invariant
            all == tool::tools_of(tools@),
            text@ == head + operation_lines(all.take(i as int)),
    {
        assert(all.take(i + 1).drop_last() =~= all.take(i as int));
        assert(all.take(i + 1).last() == tools@[i as int]@);
        text.append(operation(&tools[i]).as_str());
        assert(text@ =~= head + operation_lines(all.take(i + 1)));
    }
    assert(all.take(all.len() as int) =~= all);
    let ghost listing = text@;
    if conflicts.len() > 0 {
        text.append("\nNote: ");
        text.append(join(conflicts, ", ").as_str());
        text.append(
            " take different types depending on the operation; see each property's description.\n",
        );
    }
    assert(text@ =~= dispatcher_text(server_name@, all, text::texts(conflicts@)));
    text
}

/// Builds the single dispatching tool from a server's real tools.
pub fn squash(server_name: &str, tools: &[ToolDef]) -> (tool: ToolDef)
    ensures
        tool@ == squashed(server_name@, tool::tools_of(tools@)),
{
    let ghost all = tool::tools_of(tools@);
    let mut properties = JsonObject::new();
    properties.insert("tool".to_owned(), select_tool(tools));
    let mut conflicts: Vec<String> = Vec::new();
    let ghost mut done: Seq<Declaration> = Seq::empty();
    proof {
        lemma_new_entry(Seq::empty(), "tool"@, selector(all));
        assert(properties@ =~= merged(done, all).properties);
        assert(text::texts(conflicts@) =~= merged(done, all).conflicts);
        assert(done =~= declarations(all.take(0)));
    }
    for t in 0..tools.len()
        invariant
            all == tool::tools_of(tools@),
            done == declarations(all.take(t as int)),
            properties@ == merged(done, all).properties,
            text::texts(conflicts@) == merged(done, all).conflicts,
    {
        let ghost own = declared_by(all[t as int]);
        let ghost earlier = done;
        match tools[t].property_object() {
            Some(source) => {
                let count = source.len();
                assert(done =~= earlier + own.take(0));
                for i in 0..count
                    invariant
                        all == tool::tools_of(tools@),
                        t < tools@.len(),
                        count == source@.len(),
                        source@ == all[t as int].properties(),
                        own == declared_by(all[t as int]),
                        done == earlier + own.take(i as int),
                        properties@ == merged(done, all).properties,
                        text::texts(conflicts@) == merged(done, all).conflicts,
                {
                    merge_property(
                        &mut properties,
                        &mut conflicts,
                        source.key_at(i),
                        source.value_at(i),
                        tools[t].name.as_str(),
                        tools,
                    );
                    proof {
                        let next = done.push(own[i as int]);
                        assert(next.drop_last() =~= done);
                        assert(next =~= earlier + own.take(i + 1));
                        done = next;
                    }
                }
                assert(own.take(count as int) =~= own);
            },
            None => {
                assert(earlier + own =~= done);
            },
        }
        assert(all.take(t + 1).drop_last() =~= all.take(t as int));
        assert(all.take(t + 1).last() == all[t as int]);
    }
    assert(all.take(all.len() as int) =~= all);
    let mut name = server_name.to_owned();
    name.append("_tool");
    let description = describe(server_name, tools, conflicts.as_slice());
    let schema = dispatcher_schema(properties);
    ToolDef { name, description, schema }
}

fn dispatcher_schema(properties: JsonObject) -> (schema: Json)
    ensures
        schema@ == Tree::Object(
            seq![
                ("type"@, Tree::Text("object"@)),
                ("properties"@, Tree::Object(properties@)),
                ("required"@, Tree::Array(seq![Tree::Text("tool"@)])),
            ],
        ),
{
    let ghost merged_properties = properties@;
    let mut object = JsonObject::new();
    proof {
        reveal_strlit("type");
        reveal_strlit("properties");
        reveal_strlit("required");
        assert("type"@[0] == 't' && "properties"@[0] == 'p' && "required"@[0] == 'r');
        lemma_new_entry(Seq::empty(), "type"@, Tree::Text("object"@));
    }
    object.insert("type".to_owned(), Json::text("object"));
    proof {
        lemma_new_entry(object@, "properties"@, Tree::Object(properties@));
    }
    object.insert("properties".to_owned(), Json::Object(properties));
    let mut required: Vec<Json> = Vec::new();
    required.push(Json::text("tool"));
    assert(json::trees(required@) =~= seq![Tree::Text("tool"@)]);
    proof {
        lemma_new_entry(object@, "required"@, Tree::Array(json::trees(required@)));
    }
    object.insert("required".to_owned(), Json::Array(required));
    assert(object@ =~= seq![
        ("type"@, Tree::Text("object"@)),
        ("properties"@, Tree::Object(merged_properties)),
        ("required"@, Tree::Array(seq![Tree::Text("tool"@)])),
    ]);
    Json::Object(object)
}

/// Extracts the target operation and the arguments to forward to it.
pub fn dispatch(args: &Json) -> (target: ToolResult<(String, Json)>)
    ensures
        match json::text_at(args@, "tool"@) {
            Some(name) => target is Ok && target->Ok_0.0@ == name && target->Ok_0.1@
                == tool::without_argument(args@, "tool"@),
            None => target is Err && target->Err_0 is InvalidArguments && target->Err_0.said()
                == "single-tool mode requires a `tool` argument naming the operation"@,
        },
{
    let name: Option<String> = match args.get("tool") {
        Some(value) => match value.as_str() {
            Some(name) => Some(name.to_owned()),
            None => None,
        },
        None => None,
    };
    match name {
        Some(name) => Ok((name, strip_argument(args.clone(), "tool"))),
        None => Err(
            ToolFailure::InvalidArguments(
                "single-tool mode requires a `tool` argument naming the operation".to_owned(),
            ),
        ),
    }
}

} // verus!
