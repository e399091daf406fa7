//! The tool abstraction every server built on this kit shares: what a tool is,
//! what it produces, how it can fail, and the `timeout` argument that every tool
//! accepts.

use vstd::prelude::*;
use vstd::string::StringExecFns;

use crate::json;
use crate::json::{Json, JsonNumber, JsonObject, Tree};
use crate::text;
use crate::text::{decimal_text, to_debug_quoted};

verus! {

/// A tool's public description: what it is called, what it does, what it takes.
#[derive(Debug, PartialEq)]
pub struct ToolDef {
    pub name: String,
    pub description: String,
    /// JSON Schema for the arguments object.
    pub schema: Json,
}

/// What a tool's public description says.
pub struct Tool {
    pub name: Seq<char>,
    pub description: Seq<char>,
    pub schema: Tree,
}

impl View for ToolDef {
    type V = Tool;

    open spec fn view(&self) -> Tool {
        Tool { name: self.name@, description: self.description@, schema: self.schema@ }
    }
}

/// What a list of descriptions says.
pub open spec fn tools_of(defs: Seq<ToolDef>) -> Seq<Tool> {
    Seq::new(defs.len(), |i: int| defs[i]@)
}

/// The texts among some values, in order.
pub open spec fn texts_in(items: Seq<Tree>) -> Seq<Seq<char>>
    decreases items.len(),
{
    if items.len() == 0 {
        Seq::empty()
    } else {
        match items.last().text() {
            Some(text) => texts_in(items.drop_last()).push(text),
            None => texts_in(items.drop_last()),
        }
    }
}

impl Tool {
    /// The declared properties, in schema order.
    pub open spec fn properties(self) -> Seq<(Seq<char>, Tree)> {
        match json::entries_at(self.schema, "properties"@) {
            Some(entries) => entries,
            None => Seq::empty(),
        }
    }

    /// The names listed in `required`.
    pub open spec fn required(self) -> Seq<Seq<char>> {
        match self.schema.get("required"@) {
            Some(Tree::Array(items)) => texts_in(items),
            _ => Seq::empty(),
        }
    }
}

impl Clone for ToolDef {
    fn clone(&self) -> (copy: ToolDef)
        ensures
            copy@ == self@,
    {
        ToolDef {
            name: self.name.clone(),
            description: self.description.clone(),
            schema: self.schema.clone(),
        }
    }
}

/// Copies a list of descriptions.
pub fn clone_tools(defs: &[ToolDef]) -> (copies: Vec<ToolDef>)
    ensures
        tools_of(copies@) == tools_of(defs@),
{
    let mut copies: Vec<ToolDef> = Vec::new();
    for i in 0..defs.len()
        invariant
            copies.len() == i,
            forall|j: int| 0 <= j < i ==> (#[trigger] copies@[j])@ == defs@[j]@,
    {
        copies.push(defs[i].clone());
    }
    assert(tools_of(copies@) =~= tools_of(defs@));
    copies
}

impl ToolDef {
    pub fn new(name: &str, description: &str, schema: Json) -> (def: ToolDef)
        ensures
            def@ == (Tool { name: name@, description: description@, schema: schema@ }),
    {
        ToolDef { name: name.to_owned(), description: description.to_owned(), schema }
    }

    /// The schema as an object; a schema that is none counts as empty.
    pub fn input_schema(&self) -> (object: JsonObject)
        ensures
            object@ == (match self@.schema.entries() {
                Some(entries) => entries,
                None => Seq::empty(),
            }),
    {
        match self.schema.as_object() {
            Some(object) => object.clone(),
            None => JsonObject::new(),
        }
    }

    /// The object that declares the properties, if there is one.
    pub fn property_object(&self) -> (object: Option<&JsonObject>)
        ensures
            object is Some == json::entries_at(self@.schema, "properties"@) is Some,
            object is Some ==> object->0@ == json::entries_at(self@.schema, "properties"@)->0
                && json::distinct_keys(object->0@),
    {
        match self.schema.get("properties") {
            Some(value) => value.as_object(),
            None => None,
        }
    }

    /// The declared property names, in schema order.
    pub fn properties(&self) -> (names: Vec<String>)
        ensures
            text::texts(names@) == json::keys_of(self@.properties()),
    {
        let mut names: Vec<String> = Vec::new();
        match self.property_object() {
            Some(object) => {
                let count = object.len();
                for i in 0..count
                    invariant
                        count == object@.len(),
                        names.len() == i,
                        forall|j: int| 0 <= j < i ==> (#[trigger] names@[j])@ == object@[j].0,
                {
                    names.push(object.key_at(i).to_owned());
                }
            },
            None => {},
        }
        assert(text::texts(names@) =~= json::keys_of(self@.properties()));
        names
    }

    /// The names listed in `required`.
    pub fn required(&self) -> (names: Vec<String>)
        ensures
            text::texts(names@) == self@.required(),
    {
        let mut names: Vec<String> = Vec::new();
        match self.schema.get("required") {
            Some(value) => {
                match value.as_array() {
                    Some(items) => {
                        let ghost all = json::trees(items@);
                        assert(text::texts(names@) =~= texts_in(all.take(0)));
                        for i in 0..items.len()
                            invariant
                                all == json::trees(items@),
                                text::texts(names@) == texts_in(all.take(i as int)),
                        {
                            assert(all.take(i + 1).drop_last() =~= all.take(i as int));
                            assert(all.take(i + 1).last() == items@[i as int]@);
                            match items[i].as_str() {
                                Some(text) => {
                                    let ghost before = names@;
                                    names.push(text.to_owned());
                                    assert(text::texts(names@) =~= text::texts(before).push(text@));
                                },
                                None => {},
                            }
                        }
                        assert(all.take(all.len() as int) =~= all);
                    },
                    None => {
                        assert(text::texts(names@) =~= Seq::<Seq<char>>::empty());
                    },
                }
            },
            None => {
                assert(text::texts(names@) =~= Seq::<Seq<char>>::empty());
            },
        }
        names
    }
}

/// What a tool produces.
#[derive(Debug, PartialEq)]
pub struct ToolOutput {
    pub text: String,
    /// Machine-readable form.
    pub structured: Option<Json>,
    /// A tool that ran but failed. This is a *result* the model should read and
    /// react to, not a transport error.
    pub is_error: bool,
}

impl Clone for ToolOutput {
    fn clone(&self) -> (copy: ToolOutput)
        ensures
            copy.text@ == self.text@,
            copy.is_error == self.is_error,
            match self.structured {
                Some(value) => copy.structured matches Some(other) && other@ == value@,
                None => copy.structured is None,
            },
    {
        ToolOutput {
            text: self.text.clone(),
            structured: match &self.structured {
                Some(value) => Some(value.clone()),
                None => None,
            },
            is_error: self.is_error,
        }
    }
}

impl ToolOutput {
    pub fn text(text: &str) -> (output: ToolOutput)
        ensures
            output.text@ == text@,
            output.structured is None,
            !output.is_error,
    {
        ToolOutput { text: text.to_owned(), structured: None, is_error: false }
    }

    /// Indented JSON for the model plus the raw value for clients that use it.
    pub fn structured(value: Json) -> (output: ToolOutput)
        ensures
            output.text@ == json::rendered(value@),
            output.structured == Some(value),
            !output.is_error,
    {
        ToolOutput { text: value.render(), structured: Some(value), is_error: false }
    }

    pub fn error(text: &str) -> (output: ToolOutput)
        ensures
            output.text@ == text@,
            output.structured is None,
            output.is_error,
    {
        ToolOutput { text: text.to_owned(), structured: None, is_error: true }
    }

    #[must_use]
    pub fn flagged_as_error(self) -> (output: ToolOutput)
        ensures
            output == (ToolOutput { is_error: true, ..self }),
    {
        ToolOutput { text: self.text, structured: self.structured, is_error: true }
    }
}

/// Why a tool call could not be completed.
///
/// The distinction matters on the wire: `InvalidArguments` and `NotFound` are
/// protocol errors the caller got wrong, while the others are outcomes the model
/// should see as tool results and adapt to.
#[derive(Debug)]
pub enum ToolFailure {
    InvalidArguments(String),
    NotFound(String),
    Failed(String),
    Timeout { tool: String, seconds: u64 },
    Denied(String),
}

pub type ToolResult<T> = Result<T, ToolFailure>;

impl ToolFailure {
    /// Whether this is an outcome of the tool rather than a mistake of the
    /// caller.
    pub open spec fn tool_level(self) -> bool {
        self is Failed || self is Timeout || self is Denied
    }

    /// What the failure says.
    pub open spec fn said(self) -> Seq<char> {
        match self {
            ToolFailure::InvalidArguments(text) => text@,
            ToolFailure::NotFound(name) => "tool "@ + text::debug_quoted(name@) + " is not available"@,
            ToolFailure::Failed(text) => text@,
            ToolFailure::Timeout { tool, seconds } => text::debug_quoted(tool@) + " exceeded its "@
                + text::decimal(seconds as nat) + "s timeout"@,
            ToolFailure::Denied(text) => text@,
        }
    }

    /// Whether this should be reported as a tool result rather than an RPC error.
    pub fn is_tool_level(&self) -> (yes: bool)
        ensures
            yes == self.tool_level(),
    {
        match self {
            ToolFailure::Failed(_) => true,
            ToolFailure::Timeout { .. } => true,
            ToolFailure::Denied(_) => true,
            ToolFailure::InvalidArguments(_) => false,
            ToolFailure::NotFound(_) => false,
        }
    }

    /// The message for whoever reads the failure.
    pub fn message(&self) -> (text: String)
        ensures
            text@ == self.said(),
    {
        match self {
            ToolFailure::InvalidArguments(text) => text.clone(),
            ToolFailure::NotFound(name) => {
                let mut text = "tool ".to_owned();
                text.append(to_debug_quoted(name.as_str()).as_str());
                text.append(" is not available");
                text
            },
            ToolFailure::Failed(text) => text.clone(),
            ToolFailure::Timeout { tool, seconds } => {
                let mut text = to_debug_quoted(tool.as_str());
                text.append(" exceeded its ");
                text.append(decimal_text(*seconds as u128).as_str());
                text.append("s timeout");
                text
            },
            ToolFailure::Denied(text) => text.clone(),
        }
    }
}

/// How the `timeout` property is declared.
pub open spec fn timeout_declaration(max_seconds: u64) -> Tree {
    Tree::Object(
        seq![
            ("type"@, Tree::Text("integer"@)),
            (
                "description"@,
                Tree::Text(
                    "Optional. Abort this call after this many seconds (max "@ + text::decimal(
                        max_seconds as nat,
                    ) + ")."@,
                ),
            ),
        ],
    )
}

/// The schema with a `timeout` property declared, where it takes one: it is an
/// object, it declares its properties by an object or not at all, and it has no
/// timeout of its own.
pub open spec fn timeout_added(schema: Tree, max_seconds: u64) -> Option<Tree> {
    match schema {
        Tree::Object(entries) => {
            let declared = match json::lookup(entries, "properties"@) {
                None => Some(Seq::<(Seq<char>, Tree)>::empty()),
                Some(properties) => properties.entries(),
            };
            match declared {
                Some(properties) => if json::has_key(properties, "timeout"@) || json::has_key(
                    properties,
                    "timeout_ms"@,
                ) {
                    None
                } else {
                    Some(
                        Tree::Object(
                            json::with_entry(
                                entries,
                                "properties"@,
                                Tree::Object(
                                    json::with_entry(
                                        properties,
                                        "timeout"@,
                                        timeout_declaration(max_seconds),
                                    ),
                                ),
                            ),
                        ),
                    )
                },
                None => None,
            }
        },
        _ => None,
    }
}

fn declare_timeout(max_seconds: u64) -> (declaration: Json)
    ensures
        declaration@ == timeout_declaration(max_seconds),
{
    let mut text = "Optional. Abort this call after this many seconds (max ".to_owned();
    text.append(decimal_text(max_seconds as u128).as_str());
    text.append(").");
    let ghost said = text@;
    let mut object = JsonObject::new();
    object.insert("type".to_owned(), Json::text("integer"));
    proof {
        reveal_strlit("type");
        reveal_strlit("description");
        assert("type"@.len() != "description"@.len());
        assert(!json::has_key(object@, "description"@));
    }
    object.insert("description".to_owned(), Json::Text(text));
    proof {
        assert(object@ =~= seq![
            ("type"@, Tree::Text("integer"@)),
            ("description"@, Tree::Text(said)),
        ]);
    }
    Json::Object(object)
}

/// Adds an optional `timeout` property so any caller can bound a slow tool.
/// Returns whether the schema was modified.
pub fn ensure_timeout_property(schema: &mut Json, max_seconds: u64) -> (modified: bool)
    ensures
        modified == timeout_added(old(schema)@, max_seconds) is Some,
        modified ==> final(schema)@ == timeout_added(old(schema)@, max_seconds)->0,
        !modified ==> final(schema)@ == old(schema)@,
{
    let mut taken = Json::Null;
    core::mem::swap(&mut taken, schema);
    match taken {
        Json::Object(mut object) => {
            let declared: Option<JsonObject> = match object.get("properties") {
                None => Some(JsonObject::new()),
                Some(value) => match value.as_object() {
                    Some(properties) => Some(properties.clone()),
                    None => None,
                },
            };
            let modified = match declared {
                Some(mut properties) => if properties.contains_key("timeout")
                    || properties.contains_key("timeout_ms") {
                    false
                } else {
                    properties.insert("timeout".to_owned(), declare_timeout(max_seconds));
                    object.insert("properties".to_owned(), Json::Object(properties));
                    true
                },
                None => false,
            };
            *schema = Json::Object(object);
            modified
        },
        other => {
            *schema = other;
            false
        },
    }
}

/// The seconds a caller asks for: `timeout`, or else `timeout_ms` rounded up.
pub open spec fn asked_timeout(args: Tree) -> Option<int> {
    match json::unsigned_at(args, "timeout"@) {
        Some(seconds) => Some(seconds as int),
        None => match json::unsigned_at(args, "timeout_ms"@) {
            Some(ms) => Some((ms + 999) / 1000),
            None => None,
        },
    }
}

/// A number held to a range.
pub open spec fn clamped(n: int, low: int, high: int) -> int {
    if n < low {
        low
    } else if n > high {
        high
    } else {
        n
    }
}

/// The seconds that a call may take.
pub open spec fn effective_timeout(args: Tree, default_seconds: u64, max_seconds: u64) -> int {
    clamped(
        match asked_timeout(args) {
            Some(seconds) => seconds,
            None => default_seconds as int,
        },
        1,
        if max_seconds > 1 {
            max_seconds as int
        } else {
            1
        },
    )
}

/// Reads a caller-supplied timeout, clamped to `[1, max]`.
pub fn requested_timeout(args: &Json, default_seconds: u64, max_seconds: u64) -> (seconds: u64)
    ensures
        seconds == effective_timeout(args@, default_seconds, max_seconds),
        1 <= seconds,
        seconds <= max_seconds || seconds == 1,
        args@.get("timeout"@) matches Some(Tree::Number(JsonNumber::Unsigned(given))) ==> {
            &&& 1 <= given <= max_seconds ==> seconds == given
            &&& given > max_seconds >= 1 ==> seconds == max_seconds
        },
{
    let timeout: Option<u64> = match args.get("timeout") {
        Some(value) => value.as_u64(),
        None => None,
    };
    let wanted: u64 = match timeout {
        Some(seconds) => seconds,
        None => {
            let timeout_ms: Option<u64> = match args.get("timeout_ms") {
                Some(value) => value.as_u64(),
                None => None,
            };
            match timeout_ms {
                Some(ms) => ms / 1000 + (if ms % 1000 > 0 {
                    1
                } else {
                    0
                }),
                None => default_seconds,
            }
        },
    };
    let high: u64 = if max_seconds > 1 {
        max_seconds
    } else {
        1
    };
    if wanted < 1 {
        1
    } else if wanted > high {
        high
    } else {
        wanted
    }
}

/// The arguments without a key, where they are an object.
pub open spec fn without_argument(args: Tree, key: Seq<char>) -> Tree {
    match args {
        Tree::Object(entries) => Tree::Object(json::without_key(entries, key)),
        _ => args,
    }
}

/// Removes a key from arguments that are an object.
pub fn strip_argument(args: Json, key: &str) -> (rest: Json)
    ensures
        rest@ == without_argument(args@, key@),
{
    match args {
        Json::Object(mut object) => {
            object.remove(key);
            Json::Object(object)
        },
        other => other,
    }
}

/// Removes the injected `timeout` before the arguments reach a tool that never
/// declared it.
pub fn strip_timeout(args: Json) -> (rest: Json)
    ensures
        rest@ == without_argument(args@, "timeout"@),
{
    strip_argument(args, "timeout")
}

/// No argument of this name is left, and every other one is as it was.
pub proof fn stripping_removes_only_that_argument(args: Tree, key: Seq<char>, other: Seq<char>)
    requires
        args.entries() is Some ==> json::distinct_keys(args.entries()->0),
    ensures
        without_argument(args, key).get(key) is None,
        other != key ==> without_argument(args, key).get(other) == args.get(other),
        !(args is Object) ==> without_argument(args, key) == args,
{
    match args {
        Tree::Object(entries) => {
            json::lemma_without_key(entries, key, other);
        },
        _ => {},
    }
}

/// A schema that gained a `timeout` declares it, keeps every other property and
/// every other entry, and gains none a second time.
pub proof fn a_timeout_is_added_once(
    schema: Tree,
    max_seconds: u64,
    again: u64,
    other: Seq<char>,
)
    requires
        timeout_added(schema, max_seconds) is Some,
    ensures
        ({
            let added = timeout_added(schema, max_seconds)->0;
            &&& json::entries_at(added, "properties"@) is Some
            &&& json::lookup(json::entries_at(added, "properties"@)->0, "timeout"@) == Some(
                timeout_declaration(max_seconds),
            )
            &&& other != "timeout"@ ==> json::lookup(json::entries_at(added, "properties"@)->0, other) == (
            match json::entries_at(schema, "properties"@) {
                Some(properties) => json::lookup(properties, other),
                None => None,
            })
            &&& other != "properties"@ ==> added.get(other) == schema.get(other)
            &&& timeout_added(added, again) is None
        }),
{
    let entries = schema->Object_0;
    let properties = match json::lookup(entries, "properties"@) {
        None => Seq::<(Seq<char>, Tree)>::empty(),
        Some(found) => found->Object_0,
    };
    let more = json::with_entry(properties, "timeout"@, timeout_declaration(max_seconds));
    json::lemma_with_entry(properties, "timeout"@, timeout_declaration(max_seconds), other);
    json::lemma_with_entry(properties, "timeout"@, timeout_declaration(max_seconds), "timeout"@);
    json::lemma_with_entry(entries, "properties"@, Tree::Object(more), other);
    json::lemma_with_entry(entries, "properties"@, Tree::Object(more), "properties"@);
}

/// The declared type of an added `timeout` is an integer.
pub proof fn the_added_timeout_is_an_integer(max_seconds: u64)
    ensures
        timeout_declaration(max_seconds).get("type"@) == Some(Tree::Text("integer"@)),
{
    reveal_strlit("type");
    reveal_strlit("description");
    let entries = timeout_declaration(max_seconds)->Object_0;
    json::lemma_lookup_first(entries, "type"@, 0);
}

/// A schema that declares `timeout` or `timeout_ms` itself is left alone.
pub proof fn an_own_timeout_is_left_alone(schema: Tree, max_seconds: u64)
    requires
        json::entries_at(schema, "properties"@) matches Some(properties) && (json::has_key(
            properties,
            "timeout"@,
        ) || json::has_key(properties, "timeout_ms"@)),
    ensures
        timeout_added(schema, max_seconds) is None,
{
}

/// A timeout that the caller gives in seconds is the one that counts, whatever
/// the default is: as it is where it lies within the bounds, else the bound that
/// it passes.
pub proof fn a_callers_timeout_is_honoured(
    args: Tree,
    given: u64,
    default_seconds: u64,
    max_seconds: u64,
)
    requires
        args.get("timeout"@) == Some(Tree::Number(JsonNumber::Unsigned(given))),
    ensures
        ({
            let seconds = effective_timeout(args, default_seconds, max_seconds);
            &&& 1 <= given <= max_seconds ==> seconds == given
            &&& given > max_seconds >= 1 ==> seconds == max_seconds
            &&& given == 0 || max_seconds == 0 ==> seconds == 1
        }),
{
}

/// A timeout that the caller gives in milliseconds counts where none is given in
/// seconds: it is rounded up to whole seconds, so that the call gets no less time
/// than was asked for and less than a second more.
pub proof fn milliseconds_are_rounded_up(
    args: Tree,
    given: u64,
    default_seconds: u64,
    max_seconds: u64,
)
    requires
        !(args.get("timeout"@) matches Some(Tree::Number(JsonNumber::Unsigned(_)))),
        args.get("timeout_ms"@) == Some(Tree::Number(JsonNumber::Unsigned(given))),
    ensures
        ({
            let seconds = effective_timeout(args, default_seconds, max_seconds);
            &&& 0 < given <= 1000 * max_seconds ==> given <= 1000 * seconds < given + 1000
            &&& given > 1000 * max_seconds && max_seconds >= 1 ==> seconds == max_seconds
            &&& given == 0 || max_seconds == 0 ==> seconds == 1
        }),
{
}

/// Without a timeout in the arguments the default counts, within the same bounds.
pub proof fn without_a_timeout_the_default_counts(
    args: Tree,
    default_seconds: u64,
    max_seconds: u64,
)
    requires
        !(args.get("timeout"@) matches Some(Tree::Number(JsonNumber::Unsigned(_)))),
        !(args.get("timeout_ms"@) matches Some(Tree::Number(JsonNumber::Unsigned(_)))),
    ensures
        ({
            let seconds = effective_timeout(args, default_seconds, max_seconds);
            &&& 1 <= default_seconds <= max_seconds ==> seconds == default_seconds
            &&& default_seconds > max_seconds >= 1 ==> seconds == max_seconds
            &&& default_seconds == 0 || max_seconds == 0 ==> seconds == 1
        }),
{
}

/// Whatever the arguments are, a call gets at least one second, and no more than
/// the maximum where that is at least one.
pub proof fn every_timeout_is_within_bounds(args: Tree, default_seconds: u64, max_seconds: u64)
    ensures
        effective_timeout(args, default_seconds, max_seconds) >= 1,
        max_seconds >= 1 ==> effective_timeout(args, default_seconds, max_seconds) <= max_seconds,
        max_seconds == 0 ==> effective_timeout(args, default_seconds, max_seconds) == 1,
{
}

/// Arguments that do not hold the key to be removed stay as they are, and those
/// that do lose one entry.
pub proof fn stripping_an_absent_argument_changes_nothing(args: Tree, key: Seq<char>)
    requires
        args.entries() is Some ==> json::distinct_keys(args.entries()->0),
    ensures
        args.get(key) is None ==> without_argument(args, key) == args,
        args is Object == without_argument(args, key) is Object,
        args matches Tree::Object(entries) ==> json::distinct_keys(
            without_argument(args, key)->Object_0,
        ) && (args.get(key) is Some ==> without_argument(args, key)->Object_0.len() + 1
            == entries.len()),
{
    match args {
        Tree::Object(entries) => {
            json::lemma_without_key(entries, key, key);
            if json::has_key(entries, key) {
                json::lemma_first_exists(entries, key);
            }
        },
        _ => {},
    }
}

proof fn lemma_texts_in(items: Seq<Tree>)
    ensures
        forall|i: int|
            0 <= i < items.len() ==> (#[trigger] items[i] matches Tree::Text(text) ==> texts_in(
                items,
            ).contains(text)),
        forall|k: int|
            0 <= k < texts_in(items).len() ==> items.contains(
                Tree::Text(#[trigger] texts_in(items)[k]),
            ),
        texts_in(items).len() <= items.len(),
        (forall|i: int| 0 <= i < items.len() ==> #[trigger] items[i] is Text) ==> texts_in(
            items,
        ).len() == items.len() && forall|i: int|
            0 <= i < items.len() ==> #[trigger] items[i] == Tree::Text(texts_in(items)[i]),
    decreases items.len(),
{
    if items.len() > 0 {
        let rest = items.drop_last();
        let last = items[items.len() - 1];
        lemma_texts_in(rest);
        let before = texts_in(rest);
        let after = texts_in(items);
        assert forall|i: int| 0 <= i < items.len() implies (#[trigger] items[i] matches Tree::Text(
            text,
        ) ==> after.contains(text)) by {
            if items[i] is Text {
                let text = items[i]->Text_0;
                if i < rest.len() {
                    assert(rest[i] == items[i]);
                    let k = choose|k: int| 0 <= k < before.len() && before[k] == text;
                    assert(after[k] == text);
                } else {
                    assert(after[before.len() as int] == text);
                }
            }
        }
        assert forall|k: int| 0 <= k < after.len() implies items.contains(
            Tree::Text(#[trigger] after[k]),
        ) by {
            if k < before.len() {
                assert(rest.contains(Tree::Text(before[k])));
                let i = choose|i: int| 0 <= i < rest.len() && rest[i] == Tree::Text(before[k]);
                assert(items[i] == Tree::Text(after[k]));
            } else {
                assert(items[items.len() - 1] == Tree::Text(after[k]));
            }
        }
        if forall|i: int| 0 <= i < items.len() ==> #[trigger] items[i] is Text {
            assert forall|i: int| 0 <= i < rest.len() implies #[trigger] rest[i] is Text by {
                assert(items[i] is Text);
            }
            assert(last is Text);
            assert forall|i: int| 0 <= i < items.len() implies #[trigger] items[i] == Tree::Text(
                after[i],
            ) by {
                if i < rest.len() {
                    assert(rest[i] == items[i]);
                }
            }
        }
    }
}

/// The names that a schema requires are the texts that its `required` lists: all
/// of them and nothing else, and in order where it lists nothing but texts.
pub proof fn every_required_name_is_read(tool: Tool, items: Seq<Tree>)
    requires
        tool.schema.get("required"@) == Some(Tree::Array(items)),
    ensures
        forall|i: int|
            0 <= i < items.len() ==> (#[trigger] items[i] matches Tree::Text(text)
                ==> tool.required().contains(text)),
        forall|k: int|
            0 <= k < tool.required().len() ==> items.contains(
                Tree::Text(#[trigger] tool.required()[k]),
            ),
        (forall|i: int| 0 <= i < items.len() ==> #[trigger] items[i] is Text)
            ==> tool.required().len() == items.len() && forall|i: int|
            0 <= i < items.len() ==> #[trigger] items[i] == Tree::Text(tool.required()[i]),
{
    lemma_texts_in(items);
}

/// The names of two lists, one behind the other, are those of the first and then
/// those of the second.
pub proof fn required_names_keep_their_order(first: Seq<Tree>, second: Seq<Tree>)
    ensures
        texts_in(first + second) == texts_in(first) + texts_in(second),
    decreases second.len(),
{
    if second.len() == 0 {
        assert(first + second =~= first);
        assert(texts_in(first) + texts_in(second) =~= texts_in(first));
    } else {
        required_names_keep_their_order(first, second.drop_last());
        assert((first + second).drop_last() =~= first + second.drop_last());
        assert((first + second).last() == second.last());
        assert(texts_in(first + second) =~= texts_in(first) + texts_in(second));
    }
}

/// A schema without a list of required names requires none.
pub proof fn without_a_list_nothing_is_required(tool: Tool)
    requires
        !(tool.schema.get("required"@) matches Some(Tree::Array(_))),
    ensures
        tool.required().len() == 0,
{
}

/// The properties of a tool are the entries of its schema's `properties`: each is
/// found under its name, and there are no others.
pub proof fn every_declared_property_is_read(tool: Tool, name: Seq<char>)
    ensures
        json::lookup(tool.properties(), name) == (match tool.schema.get("properties"@) {
            Some(declared) => declared.get(name),
            None => None,
        }),
        tool.schema.get("properties"@) matches Some(Tree::Object(entries))
            ==> json::keys_of(tool.properties()) == json::keys_of(entries),
{
    match tool.schema.get("properties"@) {
        Some(Tree::Object(entries)) => {},
        _ => {
            assert(!json::has_key(tool.properties(), name));
        },
    }
}

/// Each failure says what it is about: the text that it carries, the tool that is
/// missing, or the tool that took too long and how long it had.
pub proof fn a_failure_says_what_it_is_about(failure: ToolFailure)
    ensures
        match failure {
            ToolFailure::InvalidArguments(text) => failure.said() == text@,
            ToolFailure::Failed(text) => failure.said() == text@,
            ToolFailure::Denied(text) => failure.said() == text@,
            ToolFailure::NotFound(name) => text::holds(
                failure.said(),
                text::debug_quoted(name@),
            ) && text::holds(failure.said(), "not available"@),
            ToolFailure::Timeout { tool, seconds } => text::holds(
                failure.said(),
                text::debug_quoted(tool@),
            ) && text::holds(failure.said(), text::decimal(seconds as nat)) && text::holds(
                failure.said(),
                "timeout"@,
            ),
        },
{
    let nothing = Seq::<char>::empty();
    match failure {
        ToolFailure::NotFound(name) => {
            let quoted = text::debug_quoted(name@);
            text::lemma_holds("tool "@, quoted, " is not available"@);
            reveal_strlit(" is not available");
            reveal_strlit("not available");
            reveal_strlit(" is ");
            assert(" is not available"@ =~= " is "@ + "not available"@);
            text::lemma_holds("tool "@ + quoted + " is "@, "not available"@, nothing);
            assert("tool "@ + quoted + " is "@ + "not available"@ + nothing =~= failure.said());
        },
        ToolFailure::Timeout { tool, seconds } => {
            let quoted = text::debug_quoted(tool@);
            let number = text::decimal(seconds as nat);
            text::lemma_holds(nothing, quoted, " exceeded its "@ + number + "s timeout"@);
            assert(nothing + quoted + (" exceeded its "@ + number + "s timeout"@)
                =~= failure.said());
            text::lemma_holds(quoted + " exceeded its "@, number, "s timeout"@);
            reveal_strlit("s timeout");
            reveal_strlit("timeout");
            reveal_strlit("s ");
            assert("s timeout"@ =~= "s "@ + "timeout"@);
            text::lemma_holds(quoted + " exceeded its "@ + number + "s "@, "timeout"@, nothing);
            assert(quoted + " exceeded its "@ + number + "s "@ + "timeout"@ + nothing
                =~= failure.said());
        },
        _ => {},
    }
}

/// A mistake of the caller is no outcome of the tool, and the other way round:
/// wrong arguments and unknown tools are the caller's, everything else is the
/// tool's.
pub proof fn only_the_callers_mistakes_are_protocol_errors(failure: ToolFailure)
    ensures
        failure is InvalidArguments ==> !failure.tool_level(),
        failure is NotFound ==> !failure.tool_level(),
        failure is Failed ==> failure.tool_level(),
        failure is Timeout ==> failure.tool_level(),
        failure is Denied ==> failure.tool_level(),
{
}

/// An added `timeout` says what its bound is, and declares nothing but a type and
/// a description.
pub proof fn the_added_timeout_names_its_bound(max_seconds: u64, other: Seq<char>)
    ensures
        timeout_declaration(max_seconds).get("description"@) matches Some(Tree::Text(said))
            && text::holds(said, text::decimal(max_seconds as nat)),
        other != "type"@ && other != "description"@ ==> timeout_declaration(max_seconds).get(other)
            is None,
{
    reveal_strlit("type");
    reveal_strlit("description");
    let entries = timeout_declaration(max_seconds)->Object_0;
    assert("type"@.len() != "description"@.len());
    json::lemma_lookup_first(entries, "description"@, 1);
    text::lemma_holds(
        "Optional. Abort this call after this many seconds (max "@,
        text::decimal(max_seconds as nat),
        ")."@,
    );
    if other != "type"@ && other != "description"@ {
        assert(!json::has_key(entries, other));
    }
}

/// A schema gains a `timeout` wherever it has a place for one: it is an object,
/// its properties are an object or missing, and neither `timeout` nor
/// `timeout_ms` is among them.
pub proof fn a_timeout_is_added_wherever_it_fits(schema: Tree, max_seconds: u64)
    requires
        schema is Object,
        schema.get("properties"@) matches Some(declared) ==> declared is Object && declared.get(
            "timeout"@,
        ) is None && declared.get("timeout_ms"@) is None,
    ensures
        timeout_added(schema, max_seconds) is Some,
{
    match schema.get("properties"@) {
        Some(declared) => {},
        None => {
            let none = Seq::<(Seq<char>, Tree)>::empty();
            assert(!json::has_key(none, "timeout"@));
            assert(!json::has_key(none, "timeout_ms"@));
        },
    }
}

} // verus!
