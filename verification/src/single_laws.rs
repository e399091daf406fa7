//! What the merged schema of a dispatching tool promises: every argument of
//! every operation is there, no type is asserted that some operation rejects,
//! and each property says which operations accept it.

use vstd::prelude::*;

use crate::json;
use crate::json::Tree;
use crate::single;
use crate::single::Declaration;
use crate::text;
use crate::tool;
use crate::tool::Tool;

verus! {

/// Whether a property is declared; the argument that picks the operation always
/// is.
pub open spec fn is_declared(found: Seq<Declaration>, name: Seq<char>) -> bool {
    name == "tool"@ || exists|i: int| 0 <= i < found.len() && (#[trigger] found[i]).name == name
}

/// The type that the first declaration of a property gives it.
pub open spec fn first_type(found: Seq<Declaration>, name: Seq<char>) -> Option<Tree>
    decreases found.len(),
{
    if found.len() == 0 {
        if name == "tool"@ {
            Some(Tree::Text("string"@))
        } else {
            None
        }
    } else if !is_declared(found.drop_last(), name) && found.last().name == name {
        found.last().spec.get("type"@)
    } else {
        first_type(found.drop_last(), name)
    }
}

/// Whether the declaration at `i` gives the property another type than the first
/// one did.
pub open spec fn disagrees_at(found: Seq<Declaration>, name: Seq<char>, i: int) -> bool {
    &&& 0 <= i < found.len()
    &&& found[i].name == name
    &&& is_declared(found.take(i), name)
    &&& !json::same_option(first_type(found, name), found[i].spec.get("type"@))
}

/// Whether some declaration gives the property another type than the first one
/// did.
pub open spec fn disagree(found: Seq<Declaration>, name: Seq<char>) -> bool {
    exists|i: int| disagrees_at(found, name, i)
}

/// Setting the description leaves every other entry of a value as it was.
proof fn lemma_described(spec: Tree, text: Seq<char>, key: Seq<char>)
    ensures
        key != "description"@ ==> single::described(spec, text).get(key) == spec.get(key),
        spec is Object ==> single::described(spec, text).get("description"@) == Some(Tree::Text(text)),
        single::described(spec, text) is Object == spec is Object,
{
    match spec {
        Tree::Object(entries) => {
            json::lemma_with_entry(entries, "description"@, Tree::Text(text), key);
        },
        _ => {},
    }
}

proof fn lemma_key_names()
    ensures
        "type"@ != "description"@,
        "enum"@ != "description"@,
        "enum"@ != "type"@,
        "properties"@ != "type"@,
        "required"@ != "type"@,
        "required"@ != "properties"@,
{
    reveal_strlit("type");
    reveal_strlit("description");
    reveal_strlit("enum");
    reveal_strlit("properties");
    reveal_strlit("required");
    assert("type"@[0] == 't' && "description"@[0] == 'd' && "enum"@[0] == 'e' && "properties"@[0]
        == 'p' && "required"@[0] == 'r');
}

/// What the argument that picks the operation starts out as.
proof fn lemma_selector(tools: Seq<Tool>)
    ensures
        single::selector(tools).get("type"@) == Some(Tree::Text("string"@)),
        single::selector(tools).get("enum"@) == Some(Tree::Array(single::tool_names(tools))),
{
    lemma_key_names();
    let entries = single::selector(tools)->Object_0;
    json::lemma_lookup_first(entries, "type"@, 0);
    json::lemma_lookup_first(entries, "enum"@, 2);
}

proof fn lemma_widened(name: Seq<char>, tools: Seq<Tool>)
    ensures
        single::widened_property(name, tools).get("type"@) is None,
{
    lemma_key_names();
    let entries = single::widened_property(name, tools)->Object_0;
    assert(!json::has_key(entries, "type"@));
}

/// One more declaration, of another property, changes nothing for this one.
proof fn lemma_other_declaration(found: Seq<Declaration>, name: Seq<char>)
    requires
        found.len() > 0,
        found.last().name != name,
    ensures
        is_declared(found, name) == is_declared(found.drop_last(), name),
        first_type(found, name) == first_type(found.drop_last(), name),
        disagree(found, name) == disagree(found.drop_last(), name),
{
    let before = found.drop_last();
    if exists|i: int| 0 <= i < found.len() && (#[trigger] found[i]).name == name {
        let i = choose|i: int| 0 <= i < found.len() && (#[trigger] found[i]).name == name;
        assert(before[i].name == name);
    }
    if exists|i: int| 0 <= i < before.len() && (#[trigger] before[i]).name == name {
        let i = choose|i: int| 0 <= i < before.len() && (#[trigger] before[i]).name == name;
        assert(found[i].name == name);
    }
    if disagree(found, name) {
        let i = choose|i: int| disagrees_at(found, name, i);
        assert(found.take(i) =~= before.take(i));
        assert(disagrees_at(before, name, i));
    }
    if disagree(before, name) {
        let i = choose|i: int| disagrees_at(before, name, i);
        assert(found.take(i) =~= before.take(i));
        assert(disagrees_at(found, name, i));
    }
}

/// One more declaration, of another property, leaves what was merged for this one
/// alone.
proof fn lemma_other_property(found: Seq<Declaration>, tools: Seq<Tool>, name: Seq<char>)
    requires
        found.len() > 0,
        found.last().name != name,
    ensures
        json::lookup(single::merged(found, tools).properties, name) == json::lookup(
            single::merged(found.drop_last(), tools).properties,
            name,
        ),
{
    let one = found.last();
    let earlier = single::merged(found.drop_last(), tools).properties;
    match json::lookup(earlier, one.name) {
        None => {
            let text = single::owned_text(single::description_of(one.spec), one.owner);
            json::lemma_with_entry(earlier, one.name, single::described(one.spec, text), name);
        },
        Some(existing) => {
            let text = single::shared_text(single::description_of(existing), one.owner);
            json::lemma_with_entry(earlier, one.name, single::described(existing, text), name);
            json::lemma_with_entry(
                earlier,
                one.name,
                single::widened_property(one.name, tools),
                name,
            );
        },
    }
}

/// One more declaration of this property.
proof fn lemma_same_declaration(found: Seq<Declaration>, name: Seq<char>)
    requires
        found.len() > 0,
        found.last().name == name,
    ensures
        is_declared(found, name),
        !is_declared(found.drop_last(), name) ==> {
            &&& first_type(found, name) == found.last().spec.get("type"@)
            &&& !disagree(found, name)
            &&& !disagree(found.drop_last(), name)
        },
        is_declared(found.drop_last(), name) ==> {
            &&& first_type(found, name) == first_type(found.drop_last(), name)
            &&& disagree(found, name) == (disagree(found.drop_last(), name) || !json::same_option(
                first_type(found.drop_last(), name),
                found.last().spec.get("type"@),
            ))
        },
{
    let before = found.drop_last();
    let last = found.len() - 1;
    assert(found[last].name == name);
    assert(found.take(last) =~= before);
    if !is_declared(before, name) {
        if disagree(before, name) {
            let i = choose|i: int| disagrees_at(before, name, i);
            assert(before[i].name == name);
        }
        if disagree(found, name) {
            let i = choose|i: int| disagrees_at(found, name, i);
            if i < last {
                assert(before[i].name == name);
            }
        }
    } else {
        if disagree(before, name) {
            let i = choose|i: int| disagrees_at(before, name, i);
            assert(found.take(i) =~= before.take(i));
            assert(disagrees_at(found, name, i));
        }
        if !json::same_option(first_type(before, name), found.last().spec.get("type"@)) {
            assert(disagrees_at(found, name, last));
        }
        if disagree(found, name) {
            let i = choose|i: int| disagrees_at(found, name, i);
            if i < last {
                assert(found.take(i) =~= before.take(i));
                assert(disagrees_at(before, name, i));
            }
        }
    }
}

/// What merging keeps: the keys are those declared, the conflicts are the
/// properties whose types disagree, and a property has the type of its first
/// declaration unless its types disagree.
proof fn lemma_merged(found: Seq<Declaration>, tools: Seq<Tool>, name: Seq<char>)
    ensures
        ({
            let merge = single::merged(found, tools);
            &&& json::distinct_keys(merge.properties)
            &&& json::has_key(merge.properties, name) == is_declared(found, name)
            &&& merge.conflicts.contains(name) == disagree(found, name)
            &&& is_declared(found, name) && !disagree(found, name) ==> json::lookup(
                merge.properties,
                name,
            )->0.get("type"@) == first_type(found, name)
            &&& disagree(found, name) ==> is_declared(found, name) && json::lookup(
                merge.properties,
                name,
            )->0.get("type"@) is None
        }),
    decreases found.len(),
{
    let merge = single::merged(found, tools);
    if found.len() == 0 {
        lemma_selector(tools);
        assert(merge.properties[0].0 == "tool"@);
        if name == "tool"@ {
            json::lemma_lookup_first(merge.properties, name, 0);
        }
    } else {
        let before = found.drop_last();
        let one = found.last();
        let earlier = single::merged(before, tools);
        lemma_merged(before, tools, name);
        lemma_merged(before, tools, one.name);
        lemma_key_names();
        let value = match json::lookup(earlier.properties, one.name) {
            None => single::described(one.spec, single::owned_text(single::description_of(one.spec), one.owner)),
            Some(existing) => if single::agree(existing, one.spec) {
                single::described(existing, single::shared_text(single::description_of(existing), one.owner))
            } else {
                single::widened_property(one.name, tools)
            },
        };
        assert(merge.properties == json::with_entry(earlier.properties, one.name, value));
        json::lemma_with_entry(earlier.properties, one.name, value, name);
        if one.name != name {
            lemma_other_declaration(found, name);
            lemma_pushed(earlier.conflicts, one.name, name);
        } else {
            lemma_same_declaration(found, name);
            match json::lookup(earlier.properties, name) {
                None => {
                    lemma_described(
                        one.spec,
                        single::owned_text(single::description_of(one.spec), one.owner),
                        "type"@,
                    );
                },
                Some(existing) => {
                    lemma_described(
                        existing,
                        single::shared_text(single::description_of(existing), one.owner),
                        "type"@,
                    );
                    lemma_widened(name, tools);
                    lemma_pushed(earlier.conflicts, name, name);
                },
            }
        }
    }
}

proof fn lemma_pushed(names: Seq<Seq<char>>, added: Seq<char>, name: Seq<char>)
    ensures
        names.push(added).contains(name) == (name == added || names.contains(name)),
{
    let after = names.push(added);
    assert(after[names.len() as int] == added);
    if names.contains(name) {
        let i = choose|i: int| 0 <= i < names.len() && names[i] == name;
        assert(after[i] == name);
    }
}

/// A property that a tool declares is among the declarations, under the tool's
/// name.
proof fn lemma_declared(tools: Seq<Tool>, t: int, k: int) -> (at: int)
    requires
        0 <= t < tools.len(),
        0 <= k < tools[t].properties().len(),
    ensures
        0 <= at < single::declarations(tools).len(),
        single::declarations(tools)[at] == single::declared_by(tools[t])[k],
    decreases tools.len(),
{
    let rest = single::declarations(tools.drop_last());
    if t == tools.len() - 1 {
        rest.len() + k
    } else {
        assert(tools.drop_last()[t] == tools[t]);
        lemma_declared(tools.drop_last(), t, k)
    }
}

/// What stands among the declarations was declared by some tool.
proof fn lemma_declarer(tools: Seq<Tool>, at: int) -> (place: (int, int))
    requires
        0 <= at < single::declarations(tools).len(),
    ensures
        0 <= place.0 < tools.len(),
        0 <= place.1 < tools[place.0].properties().len(),
        single::declarations(tools)[at] == single::declared_by(tools[place.0])[place.1],
    decreases tools.len(),
{
    let rest = single::declarations(tools.drop_last());
    if at < rest.len() {
        let place = lemma_declarer(tools.drop_last(), at);
        assert(tools.drop_last()[place.0] == tools[place.0]);
        place
    } else {
        (tools.len() - 1, at - rest.len())
    }
}

/// The properties that the dispatching tool declares.
proof fn lemma_squashed(server_name: Seq<char>, tools: Seq<Tool>)
    ensures
        single::squashed(server_name, tools).properties() == single::merged(single::declarations(tools), tools).properties,
        single::squashed(server_name, tools).schema.get("type"@) == Some(Tree::Text("object"@)),
        single::squashed(server_name, tools).schema.get("required"@) == Some(
            Tree::Array(seq![Tree::Text("tool"@)]),
        ),
{
    lemma_key_names();
    let entries = single::squashed(server_name, tools).schema->Object_0;
    json::lemma_lookup_first(entries, "type"@, 0);
    json::lemma_lookup_first(entries, "properties"@, 1);
    json::lemma_lookup_first(entries, "required"@, 2);
}

/// The dispatching tool is named after the server, takes an object, and requires
/// exactly the argument that picks the operation.
pub proof fn only_the_operation_is_required(server_name: Seq<char>, tools: Seq<Tool>)
    ensures
        single::squashed(server_name, tools).name == server_name + "_tool"@,
        single::squashed(server_name, tools).schema.get("type"@) == Some(Tree::Text("object"@)),
        single::squashed(server_name, tools).required() == seq!["tool"@],
{
    lemma_squashed(server_name, tools);
    let items = seq![Tree::Text("tool"@)];
    assert(items.drop_last() =~= Seq::<Tree>::empty());
    reveal_with_fuel(tool::texts_in, 2);
    assert(tool::texts_in(items) =~= seq!["tool"@]);
}

/// A property is an argument of the dispatching tool if and only if some
/// operation declares it or it is the one that picks the operation, and none is
/// there twice.
pub proof fn the_arguments_are_those_of_the_operations(
    server_name: Seq<char>,
    tools: Seq<Tool>,
    name: Seq<char>,
)
    ensures
        json::has_key(single::squashed(server_name, tools).properties(), name) == (name == "tool"@ || exists|
            t: int,
        |
            0 <= t < tools.len() && json::has_key((#[trigger] tools[t]).properties(), name)),
        json::distinct_keys(single::squashed(server_name, tools).properties()),
{
    lemma_squashed(server_name, tools);
    let found = single::declarations(tools);
    lemma_merged(found, tools, name);
    if exists|i: int| 0 <= i < found.len() && (#[trigger] found[i]).name == name {
        let i = choose|i: int| 0 <= i < found.len() && (#[trigger] found[i]).name == name;
        let (t, k) = lemma_declarer(tools, i);
        assert(tools[t].properties()[k].0 == name);
        assert(json::has_key(tools[t].properties(), name));
    }
    if exists|t: int| 0 <= t < tools.len() && json::has_key((#[trigger] tools[t]).properties(), name) {
        let t = choose|t: int|
            0 <= t < tools.len() && json::has_key((#[trigger] tools[t]).properties(), name);
        let k = choose|k: int|
            0 <= k < tools[t].properties().len() && (#[trigger] tools[t].properties()[k]).0
                == name;
        let at = lemma_declared(tools, t, k);
        assert(found[at].name == name);
    }
}

/// A type that the merged schema asserts for a property is the one that every
/// operation declaring the property gives it.
pub proof fn an_asserted_type_fits_every_operation(
    server_name: Seq<char>,
    tools: Seq<Tool>,
    t: int,
    name: Seq<char>,
)
    requires
        0 <= t < tools.len(),
        json::distinct_keys(tools[t].properties()),
        json::has_key(tools[t].properties(), name),
        json::lookup(single::squashed(server_name, tools).properties(), name)->0.get("type"@) is Some,
    ensures
        ({
            let asserted = json::lookup(single::squashed(server_name, tools).properties(), name)->0.get("type"@);
            let expected = json::lookup(tools[t].properties(), name)->0.get("type"@);
            expected == asserted || json::same_option(asserted, expected)
        }),
{
    lemma_squashed(server_name, tools);
    let found = single::declarations(tools);
    lemma_merged(found, tools, name);
    let properties = tools[t].properties();
    json::lemma_first_exists(properties, name);
    let k = json::key_index(properties, name);
    let at = lemma_declared(tools, t, k);
    assert(found[at].name == name);
    if is_declared(found.take(at), name) {
        assert(!disagrees_at(found, name, at));
    } else {
        lemma_first_at(found, name, at);
    }
}

/// The first declaration of a property decides its first type.
proof fn lemma_first_at(found: Seq<Declaration>, name: Seq<char>, at: int)
    requires
        0 <= at < found.len(),
        found[at].name == name,
        !is_declared(found.take(at), name),
    ensures
        first_type(found, name) == found[at].spec.get("type"@),
    decreases found.len(),
{
    let before = found.drop_last();
    if at == found.len() - 1 {
        assert(found.take(at) =~= before);
    } else {
        assert(before[at].name == name);
        assert(before.take(at) =~= found.take(at));
        lemma_first_at(before, name, at);
    }
}

/// Where two operations give a property different types, the merged schema
/// asserts none and the property is among those that the description names.
pub proof fn a_type_conflict_is_reported(
    server_name: Seq<char>,
    tools: Seq<Tool>,
    name: Seq<char>,
)
    requires
        disagree(single::declarations(tools), name),
    ensures
        json::lookup(single::squashed(server_name, tools).properties(), name) is Some,
        json::lookup(single::squashed(server_name, tools).properties(), name)->0.get("type"@) is None,
        ({
            let conflicts = single::merged(single::declarations(tools), tools).conflicts;
            &&& conflicts.contains(name)
            &&& single::squashed(server_name, tools).description == single::dispatcher_text(
                server_name,
                tools,
                conflicts,
            )
        }),
{
    lemma_squashed(server_name, tools);
    lemma_merged(single::declarations(tools), tools, name);
}

/// The properties that the description names as taking different types are
/// exactly those whose declarations disagree, each named once.
pub proof fn only_type_conflicts_are_reported(tools: Seq<Tool>, name: Seq<char>)
    ensures
        single::merged(single::declarations(tools), tools).conflicts.contains(name) == disagree(
            single::declarations(tools),
            name,
        ),
        single::merged(single::declarations(tools), tools).conflicts.no_duplicates(),
{
    lemma_merged(single::declarations(tools), tools, name);
    lemma_conflicts_distinct(single::declarations(tools), tools);
}

proof fn lemma_conflicts_distinct(found: Seq<Declaration>, tools: Seq<Tool>)
    ensures
        single::merged(found, tools).conflicts.no_duplicates(),
    decreases found.len(),
{
    if found.len() > 0 {
        lemma_conflicts_distinct(found.drop_last(), tools);
        let earlier = single::merged(found.drop_last(), tools).conflicts;
        let name = found.last().name;
        if !earlier.contains(name) {
            let after = earlier.push(name);
            assert forall|i: int, j: int|
                0 <= i < after.len() && 0 <= j < after.len() && i != j implies after[i]
                != after[j] by {
                if i < earlier.len() && j == earlier.len() {
                    assert(earlier.contains(earlier[i]));
                }
                if j < earlier.len() && i == earlier.len() {
                    assert(earlier.contains(earlier[j]));
                }
            }
        }
    }
}

/// Whether a text ends with an explanation: the explanation alone, or behind a
/// list in square brackets.
pub open spec fn explained(text: Seq<char>, explanation: Seq<char>) -> bool {
    let behind = text.len() - explanation.len();
    &&& explanation.is_suffix_of(text)
    &&& behind > 0 ==> text[0] == '[' && exists|i: int| 0 < i < behind && text[i] == ']'
}

/// Where the types of a property differ, the property is an object without a type
/// whose description ends with what each operation expects; only the operations
/// that came later and give no type are listed in front of that. Where every
/// operation gives a type, the property is the widened one and nothing else.
pub proof fn a_type_conflict_is_explained(
    server_name: Seq<char>,
    tools: Seq<Tool>,
    name: Seq<char>,
)
    requires
        disagree(single::declarations(tools), name),
    ensures
        ({
            let property = json::lookup(single::squashed(server_name, tools).properties(), name);
            let wide = single::widened_property(name, tools);
            &&& property is Some
            &&& property->0 is Object
            &&& property->0.get("type"@) is None
            &&& explained(single::description_of(property->0), single::description_of(wide))
            &&& (forall|i: int|
                #![trigger single::declarations(tools)[i]]
                0 <= i < single::declarations(tools).len() && single::declarations(tools)[i].name
                    == name ==> single::declarations(tools)[i].spec.get("type"@) is Some)
                ==> property->0 == wide
        }),
{
    let found = single::declarations(tools);
    lemma_squashed(server_name, tools);
    lemma_explained(found, tools, name);
    lemma_merged(found, tools, name);
    if forall|i: int|
        #![trigger found[i]]
        0 <= i < found.len() && found[i].name == name ==> found[i].spec.get("type"@) is Some {
        lemma_widened_stays(found, tools, name);
    }
}

/// A description that ends with an explanation still does with one more owner.
proof fn lemma_shared_explained(current: Seq<char>, owner: Seq<char>, explanation: Seq<char>)
    requires
        explained(current, explanation),
        explanation.len() > 0,
        explanation[0] != '[',
    ensures
        explained(single::shared_text(current, owner), explanation),
{
    reveal_strlit("[");
    reveal_strlit("]");
    reveal_strlit("] ");
    reveal_strlit(", ");
    let behind = current.len() - explanation.len();
    let tail = current.subrange(behind, current.len() as int);
    assert(explanation == tail);
    let after = single::shared_text(current, owner);
    if behind == 0 {
        assert(current =~= explanation);
        assert(after[1 + owner.len() as int] == ']');
        assert(explanation =~= after.subrange(after.len() - explanation.len(), after.len() as int));
    } else {
        let i = choose|i: int| 0 < i < behind && current[i] == ']';
        let inner = current.skip(1);
        let close = text::find_char(inner, ']');
        assert(inner[i - 1] == ']');
        text::lemma_found_char(inner, ']', i - 1);
        if after != current {
            let at = 1 + close + 2 + owner.len();
            assert(after[at] == ']');
            assert(explanation =~= after.subrange(
                after.len() - explanation.len(),
                after.len() as int,
            ));
        }
    }
}

/// What the widened property says.
proof fn lemma_widened_text(name: Seq<char>, tools: Seq<Tool>)
    ensures
        ({
            let said = single::description_of(single::widened_property(name, tools));
            said.len() > 0 && said[0] == 'T'
        }),
{
    reveal_strlit("Type depends on the chosen tool (");
    let entries = single::widened_property(name, tools)->Object_0;
    json::lemma_lookup_first(entries, "description"@, 0);
}

/// A property whose types differ is an object whose description ends with the
/// explanation.
proof fn lemma_explained(found: Seq<Declaration>, tools: Seq<Tool>, name: Seq<char>)
    requires
        disagree(found, name),
    ensures
        lookup_object(merged_properties(found, tools), name),
        explained(
            single::description_of(json::lookup(merged_properties(found, tools), name)->0),
            single::description_of(single::widened_property(name, tools)),
        ),
    decreases found.len(),
{
    let before = found.drop_last();
    let one = found.last();
    let earlier = single::merged(before, tools);
    let wide = single::widened_property(name, tools);
    let said = single::description_of(wide);
    if one.name != name {
        lemma_other_declaration(found, name);
        lemma_other_property(found, tools, name);
        lemma_explained(before, tools, name);
    } else {
        lemma_same_declaration(found, name);
        lemma_merged(before, tools, name);
        lemma_widened_text(name, tools);
        json::lemma_with_entry(earlier.properties, name, wide, name);
        let existing = json::lookup(earlier.properties, name)->0;
        if disagree(before, name) && single::agree(existing, one.spec) {
            lemma_explained(before, tools, name);
            let current = single::description_of(existing);
            let text = single::shared_text(current, one.owner);
            lemma_shared_explained(current, one.owner, said);
            lemma_described(existing, text, name);
            json::lemma_with_entry(
                earlier.properties,
                name,
                single::described(existing, text),
                name,
            );
        } else {
            assert(json::lookup(merged_properties(found, tools), name) == Some(wide));
            assert(said =~= said.subrange(0, said.len() as int));
        }
    }
}

proof fn lemma_widened_stays(found: Seq<Declaration>, tools: Seq<Tool>, name: Seq<char>)
    requires
        disagree(found, name),
        forall|i: int|
            0 <= i < found.len() && (#[trigger] found[i]).name == name
                ==> found[i].spec.get("type"@) is Some,
    ensures
        json::lookup(single::merged(found, tools).properties, name) == Some(single::widened_property(name, tools)),
    decreases found.len(),
{
    let before = found.drop_last();
    let one = found.last();
    let earlier = single::merged(before, tools);
    assert forall|i: int| 0 <= i < before.len() && (#[trigger] before[i]).name == name implies
        before[i].spec.get("type"@) is Some by {
        assert(found[i].name == name);
    }
    if one.name != name {
        lemma_other_declaration(found, name);
        lemma_other_property(found, tools, name);
        lemma_widened_stays(before, tools, name);
    } else {
        lemma_same_declaration(found, name);
        lemma_merged(before, tools, name);
        assert(found[found.len() - 1].spec.get("type"@) is Some);
        json::lemma_with_entry(earlier.properties, name, single::widened_property(name, tools), name);
    }
}

/// The explanation of a type conflict has a note for every operation that
/// declares the property.
pub proof fn every_operation_is_noted(tools: Seq<Tool>, t: int, name: Seq<char>)
    requires
        0 <= t < tools.len(),
        single::type_note(tools[t], name) is Some,
    ensures
        single::type_notes(tools, name).contains(single::type_note(tools[t], name)->0),
    decreases tools.len(),
{
    let rest = tools.drop_last();
    let note = single::type_note(tools[t], name)->0;
    if t < tools.len() - 1 {
        assert(rest[t] == tools[t]);
        every_operation_is_noted(rest, t, name);
        if single::type_note(tools.last(), name) is Some {
            lemma_pushed(single::type_notes(rest, name), single::type_note(tools.last(), name)->0, note);
        }
    } else {
        lemma_pushed(single::type_notes(rest, name), note, note);
    }
}

/// The argument that picks the operation lists the name of every operation, in
/// order, unless an operation declares an argument of that name with another
/// type.
pub proof fn the_selector_lists_every_operation(server_name: Seq<char>, tools: Seq<Tool>)
    requires
        !disagree(single::declarations(tools), "tool"@),
    ensures
        json::lookup(single::squashed(server_name, tools).properties(), "tool"@)->0.get("enum"@) == Some(
            Tree::Array(single::tool_names(tools)),
        ),
{
    lemma_squashed(server_name, tools);
    lemma_selector_kept(single::declarations(tools), tools);
}

proof fn lemma_selector_kept(found: Seq<Declaration>, tools: Seq<Tool>)
    requires
        !disagree(found, "tool"@),
    ensures
        json::lookup(single::merged(found, tools).properties, "tool"@) is Some,
        json::lookup(single::merged(found, tools).properties, "tool"@)->0.get("enum"@) == Some(
            Tree::Array(single::tool_names(tools)),
        ),
    decreases found.len(),
{
    let name = "tool"@;
    lemma_key_names();
    if found.len() == 0 {
        lemma_selector(tools);
        json::lemma_lookup_first(single::merged(found, tools).properties, name, 0);
    } else {
        let before = found.drop_last();
        let one = found.last();
        let earlier = single::merged(before, tools);
        lemma_merged(before, tools, name);
        if one.name != name {
            lemma_other_declaration(found, name);
            lemma_other_property(found, tools, name);
            lemma_selector_kept(before, tools);
        } else {
            lemma_same_declaration(found, name);
            lemma_selector_kept(before, tools);
            let existing = json::lookup(earlier.properties, name)->0;
            let text = single::shared_text(single::description_of(existing), one.owner);
            lemma_described(existing, text, "enum"@);
            json::lemma_with_entry(earlier.properties, name, single::described(existing, text), name);
        }
    }
}

/// The operations that declare a property, each once, in order.
pub open spec fn owners(found: Seq<Declaration>, name: Seq<char>) -> Seq<Seq<char>>
    decreases found.len(),
{
    if found.len() == 0 {
        Seq::empty()
    } else {
        let earlier = owners(found.drop_last(), name);
        if found.last().name == name && !earlier.contains(found.last().owner) {
            earlier.push(found.last().owner)
        } else {
            earlier
        }
    }
}

/// A name that a list in square brackets can hold: it has no `]` and no `", "`.
pub open spec fn listable(name: Seq<char>) -> bool {
    &&& forall|i: int| 0 <= i < name.len() ==> name[i] != ']'
    &&& single::find_comma(name) == name.len()
}

/// The description that lists `names` in front of `base`.
pub open spec fn listing(names: Seq<Seq<char>>, base: Seq<char>) -> Seq<char> {
    "["@ + text::joined(names, ", "@) + "]"@ + (if base.len() == 0 {
        Seq::empty()
    } else {
        " "@ + base
    })
}

/// What follows the first `", "` after `head` is found where `head` ends.
proof fn lemma_find_comma_after(head: Seq<char>, tail: Seq<char>)
    ensures
        single::find_comma(head) == head.len() ==> single::find_comma(head + ", "@ + tail)
            == head.len(),
        single::find_comma(head) < head.len() ==> single::find_comma(head + ", "@ + tail)
            == single::find_comma(head),
    decreases head.len(),
{
    reveal_strlit(", ");
    let all = head + ", "@ + tail;
    if head.len() == 0 {
        assert(all[0] == ',' && all[1] == ' ');
    } else if head.len() == 1 {
        assert(all[1] == ',');
        assert(all.drop_first() =~= head.drop_first() + ", "@ + tail);
        lemma_find_comma_after(head.drop_first(), tail);
    } else if head[0] == ',' && head[1] == ' ' {
        assert(all[0] == ',' && all[1] == ' ');
    } else {
        assert(all[0] == head[0] && all[1] == head[1]);
        assert(all.drop_first() =~= head.drop_first() + ", "@ + tail);
        lemma_find_comma_after(head.drop_first(), tail);
    }
}

/// Adding a part to a list adds it to the parts of the list.
proof fn lemma_one_more_part(list: Seq<char>, part: Seq<char>)
    requires
        single::find_comma(part) == part.len(),
    ensures
        single::comma_parts(list + ", "@ + part) == single::comma_parts(list).push(part),
    decreases list.len(),
{
    reveal_strlit(", ");
    let all = list + ", "@ + part;
    let at = single::find_comma(list);
    single::lemma_find_comma_bounds(list);
    lemma_find_comma_after(list, part);
    if at == list.len() {
        assert(all.take(at) =~= list);
        assert(all.skip(at + 2) =~= part);
        assert(single::comma_parts(part) == seq![part]);
        assert(single::comma_parts(list) == seq![list]);
        assert(single::comma_parts(all) =~= seq![list].push(part));
    } else {
        assert(all.take(at) =~= list.take(at));
        assert(all.skip(at + 2) =~= list.skip(at + 2) + ", "@ + part);
        lemma_one_more_part(list.skip(at + 2), part);
        assert(single::comma_parts(all) =~= single::comma_parts(list).push(part));
    }
}

/// The parts of a list are what was joined.
proof fn lemma_parts_of_joined(names: Seq<Seq<char>>)
    requires
        names.len() > 0,
        forall|i: int| 0 <= i < names.len() ==> listable(#[trigger] names[i]),
    ensures
        single::comma_parts(text::joined(names, ", "@)) == names,
        forall|i: int|
            0 <= i < text::joined(names, ", "@).len() ==> text::joined(names, ", "@)[i] != ']',
    decreases names.len(),
{
    reveal_strlit(", ");
    if names.len() == 1 {
        assert(listable(names[0]));
        assert(single::comma_parts(names[0]) =~= names);
    } else {
        let rest = names.drop_last();
        assert forall|i: int| 0 <= i < rest.len() implies listable(#[trigger] rest[i]) by {
            assert(rest[i] == names[i]);
        }
        lemma_parts_of_joined(rest);
        assert(listable(names[names.len() - 1]));
        lemma_one_more_part(text::joined(rest, ", "@), names.last());
        assert(rest.push(names.last()) =~= names);
    }
}

/// Adding an owner to a list of owners.
proof fn lemma_listing_shared(names: Seq<Seq<char>>, base: Seq<char>, owner: Seq<char>)
    requires
        names.len() > 0,
        forall|i: int| 0 <= i < names.len() ==> listable(#[trigger] names[i]),
    ensures
        single::shared_text(listing(names, base), owner) == (if names.contains(owner) {
            listing(names, base)
        } else {
            listing(names.push(owner), base)
        }),
{
    reveal_strlit("[");
    reveal_strlit("]");
    let list = text::joined(names, ", "@);
    let tail = if base.len() == 0 {
        Seq::empty()
    } else {
        " "@ + base
    };
    let current = listing(names, base);
    lemma_parts_of_joined(names);
    let inner = current.skip(1);
    assert(inner =~= list + "]"@ + tail);
    assert(current[0] == '[');
    let close = list.len() as int;
    assert(inner[close] == ']');
    assert forall|i: int| 0 <= i < close implies inner[i] != ']' by {
        assert(inner[i] == list[i]);
    }
    text::lemma_find_char(inner, ']', close);
    assert(inner.take(close) =~= list);
    assert(inner.skip(close + 1) =~= tail);
    if !names.contains(owner) {
        let more = names.push(owner);
        assert(more.drop_last() =~= names);
        assert(text::joined(more, ", "@) == list + ", "@ + owner);
        assert(single::shared_text(current, owner) =~= listing(more, base));
    }
}

/// A description that names one owner lists that owner.
proof fn lemma_listing_first(base: Seq<char>, owner: Seq<char>)
    ensures
        single::owned_text(base, owner) == listing(seq![owner], base),
{
    reveal_strlit("] ");
    reveal_strlit("]");
    reveal_strlit(" ");
    assert(text::joined(seq![owner], ", "@) == owner);
    assert("] "@ =~= "]"@ + " "@);
    assert(single::owned_text(base, owner) =~= listing(seq![owner], base));
}

/// What the first declaration of a property specifies.
pub open spec fn first_spec(found: Seq<Declaration>, name: Seq<char>) -> Option<Tree>
    decreases found.len(),
{
    if found.len() == 0 {
        None
    } else {
        match first_spec(found.drop_last(), name) {
            Some(spec) => Some(spec),
            None => if found.last().name == name {
                Some(found.last().spec)
            } else {
                None
            },
        }
    }
}

proof fn lemma_first_spec(found: Seq<Declaration>, name: Seq<char>)
    requires
        name != "tool"@,
    ensures
        first_spec(found, name) is Some == is_declared(found, name),
    decreases found.len(),
{
    if found.len() > 0 {
        lemma_first_spec(found.drop_last(), name);
        if found.last().name == name {
            lemma_same_declaration(found, name);
        } else {
            lemma_other_declaration(found, name);
        }
    }
}

proof fn lemma_owners(found: Seq<Declaration>, tools: Seq<Tool>, name: Seq<char>)
    requires
        name != "tool"@,
        !disagree(found, name),
        first_spec(found, name) matches Some(spec) && spec is Object,
        forall|i: int| 0 <= i < found.len() ==> listable((#[trigger] found[i]).owner),
    ensures
        owners(found, name).len() > 0,
        forall|i: int| 0 <= i < owners(found, name).len() ==> listable(#[trigger] owners(found, name)[i]),
        lookup_object(merged_properties(found, tools), name),
        single::description_of(json::lookup(merged_properties(found, tools), name)->0) == listing(
            owners(found, name),
            single::description_of(first_spec(found, name)->0),
        ),
    decreases found.len(),
{
    let before = found.drop_last();
    let one = found.last();
    let earlier = single::merged(before, tools);
    lemma_merged(before, tools, name);
    lemma_first_spec(before, name);
    lemma_first_spec(found, name);
    assert(listable(found[found.len() - 1].owner));
    assert forall|i: int| 0 <= i < before.len() implies listable((#[trigger] before[i]).owner) by {
        assert(before[i] == found[i]);
    }
    if one.name != name {
        lemma_other_declaration(found, name);
        lemma_other_property(found, tools, name);
        lemma_owners(before, tools, name);
    } else {
        lemma_same_declaration(found, name);
        if !is_declared(before, name) {
            let base = single::description_of(one.spec);
            let text = single::owned_text(base, one.owner);
            lemma_no_owners(before, name);
            lemma_described(one.spec, text, name);
            json::lemma_with_entry(
                earlier.properties,
                name,
                single::described(one.spec, text),
                name,
            );
            lemma_listing_first(base, one.owner);
            assert(owners(found, name) =~= seq![one.owner]);
        } else {
            lemma_owners(before, tools, name);
            let existing = json::lookup(earlier.properties, name)->0;
            let base = single::description_of(first_spec(before, name)->0);
            let text = single::shared_text(single::description_of(existing), one.owner);
            lemma_listing_shared(owners(before, name), base, one.owner);
            lemma_described(existing, text, name);
            json::lemma_with_entry(
                earlier.properties,
                name,
                single::described(existing, text),
                name,
            );
        }
    }
}

/// The properties after merging.
pub open spec fn merged_properties(
    found: Seq<Declaration>,
    tools: Seq<Tool>,
) -> Seq<(Seq<char>, Tree)> {
    single::merged(found, tools).properties
}

/// Whether a key is there and its value is an object.
pub open spec fn lookup_object(entries: Seq<(Seq<char>, Tree)>, key: Seq<char>) -> bool {
    json::lookup(entries, key) matches Some(value) && value is Object
}

proof fn lemma_no_owners(found: Seq<Declaration>, name: Seq<char>)
    requires
        !is_declared(found, name),
    ensures
        owners(found, name).len() == 0,
    decreases found.len(),
{
    if found.len() > 0 {
        assert(found[found.len() - 1].name != name);
        lemma_other_declaration(found, name);
        lemma_no_owners(found.drop_last(), name);
    }
}

/// An operation that declares a property is among the property's owners.
proof fn lemma_owner_listed(found: Seq<Declaration>, i: int)
    requires
        0 <= i < found.len(),
    ensures
        owners(found, found[i].name).contains(found[i].owner),
    decreases found.len(),
{
    let name = found[i].name;
    let owner = found[i].owner;
    let before = found.drop_last();
    let earlier = owners(before, name);
    if i < found.len() - 1 {
        assert(before[i] == found[i]);
        lemma_owner_listed(before, i);
    }
    lemma_pushed(earlier, found.last().owner, owner);
}

/// A property that several operations accept lists every one of them: its
/// description starts with their names in square brackets, and what the first of
/// them says of it follows. (The names must be such that a list can hold them,
/// their types for the property must agree, and the first of them must describe
/// it by an object.)
pub proof fn a_shared_property_lists_its_operations(
    server_name: Seq<char>,
    tools: Seq<Tool>,
    t: int,
    name: Seq<char>,
)
    requires
        name != "tool"@,
        0 <= t < tools.len(),
        json::has_key(tools[t].properties(), name),
        forall|i: int| 0 <= i < tools.len() ==> listable((#[trigger] tools[i]).name),
        !disagree(single::declarations(tools), name),
        first_spec(single::declarations(tools), name) matches Some(spec) && spec is Object,
    ensures
        ({
            let found = single::declarations(tools);
            let property = json::lookup(single::squashed(server_name, tools).properties(), name)->0;
            &&& owners(found, name).contains(tools[t].name)
            &&& single::description_of(property) == listing(
                owners(found, name),
                single::description_of(first_spec(found, name)->0),
            )
        }),
{
    lemma_squashed(server_name, tools);
    let found = single::declarations(tools);
    assert forall|i: int| 0 <= i < found.len() implies listable((#[trigger] found[i]).owner) by {
        let (at, k) = lemma_declarer(tools, i);
        assert(found[i].owner == tools[at].name);
    }
    lemma_owners(found, tools, name);
    let k = choose|k: int|
        0 <= k < tools[t].properties().len() && (#[trigger] tools[t].properties()[k]).0 == name;
    let at = lemma_declared(tools, t, k);
    lemma_owner_listed(found, at);
}

/// Dispatching takes the operation's name out of the arguments and leaves every
/// other argument as it was.
pub proof fn dispatch_forwards_the_other_arguments(args: Tree, other: Seq<char>)
    requires
        args is Object,
        json::distinct_keys(args->Object_0),
    ensures
        tool::without_argument(args, "tool"@).get("tool"@) is None,
        other != "tool"@ ==> tool::without_argument(args, "tool"@).get(other) == args.get(other),
{
    tool::stripping_removes_only_that_argument(args, "tool"@, other);
}

/// Where the declaration of a tool's property stands.
spec fn declaration_place(tools: Seq<Tool>, t: int, k: int) -> int {
    single::declarations(tools.take(t)).len() + k
}

proof fn lemma_declarations_grow(tools: Seq<Tool>, t: int, u: int)
    requires
        0 <= t < u <= tools.len(),
    ensures
        single::declarations(tools.take(t)).len() + tools[t].properties().len()
            <= single::declarations(tools.take(u)).len(),
    decreases u - t,
{
    assert(tools.take(u).drop_last() =~= tools.take(u - 1));
    assert(tools.take(u).last() == tools[u - 1]);
    if t < u - 1 {
        lemma_declarations_grow(tools, t, u - 1);
    }
}

proof fn lemma_declaration_at(tools: Seq<Tool>, t: int, k: int)
    requires
        0 <= t < tools.len(),
        0 <= k < tools[t].properties().len(),
    ensures
        0 <= declaration_place(tools, t, k) < single::declarations(tools).len(),
        single::declarations(tools)[declaration_place(tools, t, k)] == single::declared_by(tools[t])[k],
    decreases tools.len(),
{
    let rest = tools.drop_last();
    if t == tools.len() - 1 {
        assert(tools.take(t) =~= rest);
    } else {
        assert(rest[t] == tools[t]);
        assert(rest.take(t) =~= tools.take(t));
        lemma_declaration_at(rest, t, k);
    }
}

proof fn lemma_declaration_origin(tools: Seq<Tool>, at: int) -> (origin: (int, int))
    requires
        0 <= at < single::declarations(tools).len(),
    ensures
        0 <= origin.0 < tools.len(),
        0 <= origin.1 < tools[origin.0].properties().len(),
        single::declarations(tools)[at] == single::declared_by(tools[origin.0])[origin.1],
        at == declaration_place(tools, origin.0, origin.1),
    decreases tools.len(),
{
    let rest = tools.drop_last();
    if at < single::declarations(rest).len() {
        let origin = lemma_declaration_origin(rest, at);
        assert(rest[origin.0] == tools[origin.0]);
        assert(rest.take(origin.0) =~= tools.take(origin.0));
        origin
    } else {
        assert(tools.take(tools.len() - 1) =~= rest);
        (tools.len() - 1, at - single::declarations(rest).len())
    }
}

/// In entries with distinct keys a key is looked up to the value next to it.
proof fn lemma_lookup_at(entries: Seq<(Seq<char>, Tree)>, k: int)
    requires
        json::distinct_keys(entries),
        0 <= k < entries.len(),
    ensures
        json::lookup(entries, entries[k].0) == Some(entries[k].1),
        json::key_index(entries, entries[k].0) == k,
{
    assert forall|j: int| 0 <= j < k implies (#[trigger] entries[j]).0 != entries[k].0 by {}
    json::lemma_lookup_first(entries, entries[k].0, k);
}

/// Whether `t` is the first of some tools that declares a property.
pub open spec fn declares_first(tools: Seq<Tool>, t: int, name: Seq<char>) -> bool {
    &&& 0 <= t < tools.len()
    &&& json::has_key(tools[t].properties(), name)
    &&& forall|s: int| 0 <= s < t ==> !json::has_key((#[trigger] tools[s]).properties(), name)
}

/// Whether no tool declares a property twice.
pub open spec fn well_declared(tools: Seq<Tool>) -> bool {
    forall|s: int| 0 <= s < tools.len() ==> json::distinct_keys((#[trigger] tools[s]).properties())
}

/// The type that a tool gives a property.
pub open spec fn type_given(tool: Tool, name: Seq<char>) -> Option<Tree> {
    match json::lookup(tool.properties(), name) {
        Some(spec) => spec.get("type"@),
        None => None,
    }
}

/// The first declaration of a property is that of the first tool that declares
/// it.
proof fn lemma_first_place(tools: Seq<Tool>, t: int, name: Seq<char>) -> (at: int)
    requires
        declares_first(tools, t, name),
        well_declared(tools),
    ensures
        0 <= at < single::declarations(tools).len(),
        single::declarations(tools)[at].name == name,
        single::declarations(tools)[at].owner == tools[t].name,
        Some(single::declarations(tools)[at].spec) == json::lookup(tools[t].properties(), name),
        forall|i: int|
            0 <= i < at ==> (#[trigger] single::declarations(tools)[i]).name != name,
        single::declarations(tools.take(t)).len() <= at < single::declarations(tools.take(t)).len()
            + tools[t].properties().len(),
{
    let found = single::declarations(tools);
    let properties = tools[t].properties();
    json::lemma_first_exists(properties, name);
    let k = json::key_index(properties, name);
    let at = declaration_place(tools, t, k);
    lemma_declaration_at(tools, t, k);
    assert forall|i: int| 0 <= i < at implies (#[trigger] found[i]).name != name by {
        let (s, l) = lemma_declaration_origin(tools, i);
        if s > t {
            lemma_declarations_grow(tools, t, s);
        } else if s < t {
            assert(tools[s].properties()[l].0 == found[i].name);
        } else {
            assert(properties[l].0 == found[i].name);
        }
    }
    at
}

proof fn lemma_first_spec_at(found: Seq<Declaration>, name: Seq<char>, at: int)
    requires
        0 <= at < found.len(),
        found[at].name == name,
        forall|i: int| 0 <= i < at ==> (#[trigger] found[i]).name != name,
    ensures
        first_spec(found, name) == Some(found[at].spec),
    decreases found.len(),
{
    let before = found.drop_last();
    if at == found.len() - 1 {
        lemma_no_spec(before, name);
    } else {
        assert(before[at] == found[at]);
        assert forall|i: int| 0 <= i < at implies (#[trigger] before[i]).name != name by {
            assert(before[i] == found[i]);
        }
        lemma_first_spec_at(before, name, at);
    }
}

proof fn lemma_no_spec(found: Seq<Declaration>, name: Seq<char>)
    requires
        forall|i: int| 0 <= i < found.len() ==> (#[trigger] found[i]).name != name,
    ensures
        first_spec(found, name) is None,
    decreases found.len(),
{
    if found.len() > 0 {
        let before = found.drop_last();
        assert forall|i: int| 0 <= i < before.len() implies (#[trigger] before[i]).name != name by {
            assert(before[i] == found[i]);
        }
        lemma_no_spec(before, name);
        assert(found[found.len() - 1].name != name);
    }
}

/// Whether the declarations of a property disagree shows in the types that the
/// tools give it: some tool behind the first that declares it gives it another.
pub proof fn a_conflict_is_between_two_tools(tools: Seq<Tool>, t: int, name: Seq<char>)
    requires
        name != "tool"@,
        declares_first(tools, t, name),
        well_declared(tools),
    ensures
        disagree(single::declarations(tools), name) <==> exists|u: int|
            t < u < tools.len() && json::has_key((#[trigger] tools[u]).properties(), name)
                && !json::same_option(type_given(tools[t], name), type_given(tools[u], name)),
{
    let found = single::declarations(tools);
    let at = lemma_first_place(tools, t, name);
    assert(!is_declared(found.take(at), name)) by {
        assert forall|i: int| 0 <= i < found.take(at).len() implies (
        #[trigger] found.take(at)[i]).name != name by {
            assert(found.take(at)[i] == found[i]);
        }
    }
    lemma_first_at(found, name, at);
    assert(first_type(found, name) == type_given(tools[t], name));
    if disagree(found, name) {
        let i = choose|i: int| disagrees_at(found, name, i);
        let (u, k) = lemma_declaration_origin(tools, i);
        assert(tools[u].properties()[k].0 == name);
        lemma_lookup_at(tools[u].properties(), k);
        assert(json::has_key(tools[u].properties(), name));
        assert(u >= t);
        if u == t {
            json::lemma_first_exists(tools[t].properties(), name);
            assert(i == at) by {
                if i > at {
                    let (v, l) = lemma_declaration_origin(tools, at);
                    assert(tools[v].properties()[l].0 == name);
                    assert(json::has_key(tools[v].properties(), name));
                    if v > t {
                        lemma_declarations_grow(tools, t, v);
                    } else if v < t {
                    } else {
                        lemma_lookup_at(tools[t].properties(), l);
                        assert(l == k);
                    }
                }
            }
            assert(false);
        }
    }
    if exists|u: int|
        t < u < tools.len() && json::has_key((#[trigger] tools[u]).properties(), name)
            && !json::same_option(type_given(tools[t], name), type_given(tools[u], name)) {
        let u = choose|u: int|
            t < u < tools.len() && json::has_key((#[trigger] tools[u]).properties(), name)
                && !json::same_option(type_given(tools[t], name), type_given(tools[u], name));
        json::lemma_first_exists(tools[u].properties(), name);
        let k = json::key_index(tools[u].properties(), name);
        let i = declaration_place(tools, u, k);
        lemma_declaration_at(tools, u, k);
        lemma_declarations_grow(tools, t, u);
        assert(found.take(i)[at].name == name);
        assert(disagrees_at(found, name, i));
    }
}

/// What merging leaves of a property whose types agree: what its first declaration
/// specifies, but for the description.
proof fn lemma_kept(
    found: Seq<Declaration>,
    tools: Seq<Tool>,
    name: Seq<char>,
    key: Seq<char>,
)
    requires
        name != "tool"@,
        !disagree(found, name),
        first_spec(found, name) is Some,
    ensures
        json::lookup(merged_properties(found, tools), name) matches Some(property) && {
            let spec = first_spec(found, name)->0;
            &&& key != "description"@ ==> property.get(key) == spec.get(key)
            &&& property is Object == spec is Object
            &&& !(spec is Object) ==> property == spec
        },
    decreases found.len(),
{
    let before = found.drop_last();
    let one = found.last();
    let earlier = single::merged(before, tools);
    lemma_merged(before, tools, name);
    lemma_first_spec(before, name);
    if one.name != name {
        lemma_other_declaration(found, name);
        lemma_other_property(found, tools, name);
        lemma_kept(before, tools, name, key);
    } else {
        lemma_same_declaration(found, name);
        if !is_declared(before, name) {
            let text = single::owned_text(single::description_of(one.spec), one.owner);
            let value = single::described(one.spec, text);
            lemma_described(one.spec, text, key);
            json::lemma_with_entry(earlier.properties, name, value, name);
        } else {
            lemma_kept(before, tools, name, key);
            let existing = json::lookup(earlier.properties, name)->0;
            let text = single::shared_text(single::description_of(existing), one.owner);
            let value = single::described(existing, text);
            lemma_described(existing, text, key);
            json::lemma_with_entry(earlier.properties, name, value, name);
        }
    }
}

/// The dispatching tool keeps what an operation says of an argument: where the
/// types that the operations give it agree, all that the first of them specifies,
/// its type, its allowed values, its default, what its items are, its bounds, is
/// there as it was declared. Only the description is changed.
pub proof fn a_property_keeps_what_was_declared(
    server_name: Seq<char>,
    tools: Seq<Tool>,
    t: int,
    name: Seq<char>,
    key: Seq<char>,
)
    requires
        name != "tool"@,
        well_declared(tools),
        declares_first(tools, t, name),
        forall|u: int|
            t < u < tools.len() && json::has_key((#[trigger] tools[u]).properties(), name)
                ==> json::same_option(type_given(tools[t], name), type_given(tools[u], name)),
    ensures
        json::lookup(single::squashed(server_name, tools).properties(), name) matches Some(
            property,
        ) && {
            let declared = json::lookup(tools[t].properties(), name)->0;
            &&& key != "description"@ ==> property.get(key) == declared.get(key)
            &&& property is Object == declared is Object
            &&& !(declared is Object) ==> property == declared
        },
{
    let found = single::declarations(tools);
    lemma_squashed(server_name, tools);
    a_conflict_is_between_two_tools(tools, t, name);
    let at = lemma_first_place(tools, t, name);
    lemma_first_spec_at(found, name, at);
    lemma_kept(found, tools, name, key);
}

/// The same by the first declaration among all of them.
pub proof fn a_property_keeps_its_first_declaration(
    server_name: Seq<char>,
    tools: Seq<Tool>,
    name: Seq<char>,
    key: Seq<char>,
)
    requires
        name != "tool"@,
        key != "description"@,
        !disagree(single::declarations(tools), name),
        first_spec(single::declarations(tools), name) is Some,
    ensures
        json::lookup(single::squashed(server_name, tools).properties(), name) matches Some(property)
            && property.get(key) == first_spec(single::declarations(tools), name)->0.get(key),
{
    lemma_squashed(server_name, tools);
    lemma_kept(single::declarations(tools), tools, name, key);
}

/// A text behind a list in square brackets stays there when the list grows.
proof fn lemma_shared_behind(current: Seq<char>, owner: Seq<char>, base: Seq<char>)
    requires
        explained(current, base),
        current.len() > base.len(),
    ensures
        explained(single::shared_text(current, owner), base),
        single::shared_text(current, owner).len() > base.len(),
        single::shared_text(current, owner)[0] == '[',
{
    reveal_strlit("[");
    reveal_strlit("]");
    reveal_strlit(", ");
    let behind = current.len() - base.len();
    assert(base == current.subrange(behind, current.len() as int));
    let after = single::shared_text(current, owner);
    let i = choose|i: int| 0 < i < behind && current[i] == ']';
    let inner = current.skip(1);
    let close = text::find_char(inner, ']');
    assert(inner[i - 1] == ']');
    text::lemma_found_char(inner, ']', i - 1);
    if after != current {
        let at = 1 + close + 2 + owner.len();
        assert(after[at] == ']');
        assert(base =~= after.subrange(after.len() - base.len(), after.len() as int));
    }
}

/// The description of a property whose types agree starts with a list in square
/// brackets and ends with the description that came first.
proof fn lemma_description_kept(found: Seq<Declaration>, tools: Seq<Tool>, name: Seq<char>)
    requires
        name != "tool"@,
        !disagree(found, name),
        first_spec(found, name) matches Some(spec) && spec is Object,
    ensures
        lookup_object(merged_properties(found, tools), name),
        ({
            let said = single::description_of(
                json::lookup(merged_properties(found, tools), name)->0,
            );
            let base = single::description_of(first_spec(found, name)->0);
            explained(said, base) && said.len() > base.len() && said[0] == '['
        }),
    decreases found.len(),
{
    let before = found.drop_last();
    let one = found.last();
    let earlier = single::merged(before, tools);
    lemma_merged(before, tools, name);
    lemma_first_spec(before, name);
    if one.name != name {
        lemma_other_declaration(found, name);
        lemma_other_property(found, tools, name);
        lemma_description_kept(before, tools, name);
    } else {
        lemma_same_declaration(found, name);
        if !is_declared(before, name) {
            let base = single::description_of(one.spec);
            let text = single::owned_text(base, one.owner);
            let value = single::described(one.spec, text);
            reveal_strlit("[");
            reveal_strlit("]");
            reveal_strlit("] ");
            assert(text[1 + one.owner.len() as int] == ']');
            assert(base =~= text.subrange(text.len() - base.len(), text.len() as int));
            lemma_described(one.spec, text, name);
            json::lemma_with_entry(earlier.properties, name, value, name);
        } else {
            lemma_description_kept(before, tools, name);
            let existing = json::lookup(earlier.properties, name)->0;
            let base = single::description_of(first_spec(before, name)->0);
            let current = single::description_of(existing);
            let text = single::shared_text(current, one.owner);
            let value = single::described(existing, text);
            lemma_shared_behind(current, one.owner, base);
            lemma_described(existing, text, name);
            json::lemma_with_entry(earlier.properties, name, value, name);
        }
    }
}

/// The description of an argument keeps what the first operation that declares it
/// says of it, behind a list in square brackets; where no other operation declares
/// the argument, the list holds that operation's name and nothing else.
pub proof fn a_property_keeps_its_description(
    server_name: Seq<char>,
    tools: Seq<Tool>,
    t: int,
    name: Seq<char>,
    base: Seq<char>,
)
    requires
        name != "tool"@,
        well_declared(tools),
        declares_first(tools, t, name),
        forall|u: int|
            t < u < tools.len() && json::has_key((#[trigger] tools[u]).properties(), name)
                ==> json::same_option(type_given(tools[t], name), type_given(tools[u], name)),
        json::lookup(tools[t].properties(), name)->0.get("description"@) == Some(Tree::Text(base)),
    ensures
        json::lookup(single::squashed(server_name, tools).properties(), name) matches Some(property)
            && property.get("description"@) matches Some(Tree::Text(said)) && {
            &&& base.is_suffix_of(said)
            &&& said.len() > base.len()
            &&& said[0] == '['
            &&& (forall|u: int|
                t < u < tools.len() ==> !json::has_key((#[trigger] tools[u]).properties(), name))
                && base.len() > 0 ==> said == seq!['['] + tools[t].name + seq![']', ' '] + base
        },
{
    let found = single::declarations(tools);
    lemma_squashed(server_name, tools);
    a_conflict_is_between_two_tools(tools, t, name);
    let at = lemma_first_place(tools, t, name);
    lemma_first_spec_at(found, name, at);
    lemma_description_kept(found, tools, name);
    if forall|u: int|
        t < u < tools.len() ==> !json::has_key((#[trigger] tools[u]).properties(), name) {
        assert forall|i: int| at < i < found.len() implies (#[trigger] found[i]).name != name by {
            let (u, k) = lemma_declaration_origin(tools, i);
            let (v, l) = lemma_declaration_origin(tools, at);
            assert(tools[u].properties()[k].0 == found[i].name);
            if found[i].name == name {
                assert(json::has_key(tools[u].properties(), name));
                assert(tools[v].properties()[l].0 == name);
                assert(json::has_key(tools[v].properties(), name));
                assert(u == t && v == t);
                lemma_lookup_at(tools[t].properties(), k);
                lemma_lookup_at(tools[t].properties(), l);
            }
        }
        lemma_only_owner(found, tools, name, at);
        if base.len() > 0 {
            reveal_strlit("[");
            reveal_strlit("] ");
            assert("["@ =~= seq!['[']);
            assert("] "@ =~= seq![']', ' ']);
        }
    }
}

/// A property that is declared once names the one operation that declares it.
proof fn lemma_only_owner(found: Seq<Declaration>, tools: Seq<Tool>, name: Seq<char>, at: int)
    requires
        name != "tool"@,
        0 <= at < found.len(),
        found[at].name == name,
        forall|i: int| 0 <= i < found.len() && i != at ==> (#[trigger] found[i]).name != name,
        found[at].spec is Object,
    ensures
        json::lookup(merged_properties(found, tools), name) == Some(
            single::described(
                found[at].spec,
                single::owned_text(single::description_of(found[at].spec), found[at].owner),
            ),
        ),
        single::description_of(json::lookup(merged_properties(found, tools), name)->0)
            == single::owned_text(single::description_of(found[at].spec), found[at].owner),
    decreases found.len(),
{
    let before = found.drop_last();
    let one = found.last();
    let earlier = single::merged(before, tools);
    if at < found.len() - 1 {
        assert(found[found.len() - 1].name != name);
        assert(before[at] == found[at]);
        assert forall|i: int| 0 <= i < before.len() && i != at implies (
        #[trigger] before[i]).name != name by {
            assert(before[i] == found[i]);
        }
        lemma_other_property(found, tools, name);
        lemma_only_owner(before, tools, name, at);
    } else {
        assert(!is_declared(before, name)) by {
            assert forall|i: int| 0 <= i < before.len() implies (#[trigger] before[i]).name
                != name by {
                assert(before[i] == found[i]);
            }
        }
        lemma_merged(before, tools, name);
        let text = single::owned_text(single::description_of(one.spec), one.owner);
        let value = single::described(one.spec, text);
        lemma_described(one.spec, text, name);
        json::lemma_with_entry(earlier.properties, name, value, name);
    }
}

/// How a tool's type for a property is noted: by the tool's name and the type, or
/// `any` where the type is no text.
pub open spec fn noted_type(tool: Tool, name: Seq<char>) -> Seq<char> {
    tool.name + seq![':', ' '] + (match type_given(tool, name) {
        Some(Tree::Text(kind)) => kind,
        _ => seq!['a', 'n', 'y'],
    })
}

/// Where two operations give an argument different types, the dispatching tool
/// asserts none, says in the argument's description what every operation that
/// declares it expects, and names the argument in its own description.
pub proof fn differing_types_are_explained(
    server_name: Seq<char>,
    tools: Seq<Tool>,
    t: int,
    u: int,
    name: Seq<char>,
    v: int,
)
    requires
        name != "tool"@,
        well_declared(tools),
        declares_first(tools, t, name),
        t < u < tools.len(),
        json::has_key(tools[u].properties(), name),
        !json::same_option(type_given(tools[t], name), type_given(tools[u], name)),
        0 <= v < tools.len(),
        json::has_key(tools[v].properties(), name),
    ensures
        ({
            let squashed = single::squashed(server_name, tools);
            &&& json::lookup(squashed.properties(), name) matches Some(property)
            &&& property.get("type"@) is None
            &&& property.get("description"@) matches Some(Tree::Text(said))
            &&& text::holds(said, noted_type(tools[v], name))
            &&& text::holds(squashed.description, name)
            &&& text::holds(squashed.description, "different types"@)
        }),
{
    a_conflict_is_between_two_tools(tools, t, name);
    a_type_conflict_is_explained(server_name, tools, name);
    a_type_conflict_is_reported(server_name, tools, name);
    let property = json::lookup(single::squashed(server_name, tools).properties(), name)->0;
    let wide = single::description_of(single::widened_property(name, tools));
    let said = single::description_of(property);
    lemma_widened_holds(tools, v, name);
    lemma_widened_text(name, tools);
    let nothing = Seq::<char>::empty();
    let front = said.take(said.len() - wide.len());
    assert(said =~= front + wide + nothing);
    text::lemma_holds_within(front, wide, nothing, noted_type(tools[v], name));
    let conflicts = single::merged(single::declarations(tools), tools).conflicts;
    let i = choose|i: int| 0 <= i < conflicts.len() && conflicts[i] == name;
    lemma_conflicts_named(server_name, tools, conflicts, i);
}

/// The widened property notes the type that each tool gives.
proof fn lemma_widened_holds(tools: Seq<Tool>, v: int, name: Seq<char>)
    requires
        0 <= v < tools.len(),
        json::has_key(tools[v].properties(), name),
    ensures
        text::holds(
            single::description_of(single::widened_property(name, tools)),
            noted_type(tools[v], name),
        ),
{
    let note = noted_type(tools[v], name);
    reveal_strlit(": ");
    reveal_strlit("any");
    assert(": "@ =~= seq![':', ' ']);
    assert("any"@ =~= seq!['a', 'n', 'y']);
    tool::every_declared_property_is_read(tools[v], name);
    assert(single::type_note(tools[v], name) == Some(note));
    every_operation_is_noted(tools, v, name);
    let notes = single::type_notes(tools, name);
    let k = choose|k: int| 0 <= k < notes.len() && notes[k] == note;
    text::lemma_joined_holds(notes, "; "@, k);
    text::lemma_holds_within(
        "Type depends on the chosen tool ("@,
        text::joined(notes, "; "@),
        "). Pass the type that tool expects."@,
        note,
    );
    let entries = single::widened_property(name, tools)->Object_0;
    json::lemma_lookup_first(entries, "description"@, 0);
}

/// The description of the dispatching tool names each conflict.
proof fn lemma_conflicts_named(
    server_name: Seq<char>,
    tools: Seq<Tool>,
    conflicts: Seq<Seq<char>>,
    i: int,
)
    requires
        0 <= i < conflicts.len(),
    ensures
        text::holds(single::dispatcher_text(server_name, tools, conflicts), conflicts[i]),
        text::holds(single::dispatcher_text(server_name, tools, conflicts), "different types"@),
{
    let whole = single::dispatcher_text(server_name, tools, conflicts);
    let list = text::joined(conflicts, ", "@);
    let tail =
        " take different types depending on the operation; see each property's description.\n"@;
    let note = "\nNote: "@ + list + tail;
    let front = whole.take(whole.len() - note.len());
    let nothing = Seq::<char>::empty();
    assert(whole =~= front + note + nothing);
    text::lemma_joined_holds(conflicts, ", "@, i);
    text::lemma_holds_within("\nNote: "@, list, tail, conflicts[i]);
    text::lemma_holds_within(front, note, nothing, conflicts[i]);
    let said = "different types"@;
    reveal_strlit("different types");
    reveal_strlit(
        " take different types depending on the operation; see each property's description.\n",
    );
    assert(tail.subrange(6, 21) =~= said);
    assert(text::stands(tail, said, 6));
    text::lemma_holds_within("\nNote: "@ + list, tail, nothing, said);
    assert("\nNote: "@ + list + tail + nothing =~= note);
    text::lemma_holds_within(front, note, nothing, said);
}

/// Where nothing conflicts the description says nothing of conflicts: it ends with
/// the lines of the operations.
pub proof fn agreeing_types_are_not_reported(server_name: Seq<char>, tools: Seq<Tool>)
    requires
        forall|name: Seq<char>| !#[trigger] disagree(single::declarations(tools), name),
    ensures
        single::operation_lines(tools).is_suffix_of(
            single::squashed(server_name, tools).description,
        ),
{
    let conflicts = single::merged(single::declarations(tools), tools).conflicts;
    assert(conflicts.len() == 0) by {
        if conflicts.len() > 0 {
            only_type_conflicts_are_reported(tools, conflicts[0]);
            assert(conflicts.contains(conflicts[0]));
        }
    }
    let said = single::squashed(server_name, tools).description;
    let lines = single::operation_lines(tools);
    assert(lines =~= said.subrange(said.len() - lines.len(), said.len() as int));
}

/// The line of an operation: its name, the arguments that it requires, if any, and
/// the first line of its description.
pub open spec fn described_line(tool: Tool) -> Seq<char> {
    if tool.required().len() == 0 {
        seq![' ', ' '] + tool.name + seq![':', ' '] + text::first_line_of(tool.description) + seq![
            '\n',
        ]
    } else {
        seq![' ', ' '] + tool.name + seq![' ', '(', 'r', 'e', 'q', 'u', 'i', 'r', 'e', 's', ' ']
            + text::joined(tool.required(), seq![',', ' ']) + seq![')', ':', ' ']
            + text::first_line_of(tool.description) + seq!['\n']
    }
}

proof fn lemma_described_line(tool: Tool)
    ensures
        single::operation_line(tool) == described_line(tool),
{
    reveal_strlit("  ");
    reveal_strlit(" (requires ");
    reveal_strlit(", ");
    reveal_strlit(")");
    reveal_strlit(": ");
    reveal_strlit("\n");
    assert(", "@ =~= seq![',', ' ']);
    assert(single::operation_line(tool) =~= described_line(tool));
}

/// The description of the dispatching tool has a line for every operation, which
/// says what the operation requires and what it does, and names the server.
pub proof fn every_operation_is_described(server_name: Seq<char>, tools: Seq<Tool>, t: int)
    requires
        0 <= t < tools.len(),
    ensures
        text::holds(
            single::squashed(server_name, tools).description,
            described_line(tools[t]),
        ),
        text::holds(single::squashed(server_name, tools).description, tools[t].name),
        text::holds(single::squashed(server_name, tools).description, server_name),
{
    let said = single::squashed(server_name, tools).description;
    let lines = single::operation_lines(tools);
    let conflicts = single::merged(single::declarations(tools), tools).conflicts;
    let intro =
        " operations behind one tool. Set `tool` to the operation you want and pass that operation's arguments alongside it.\n\nOperations:\n"@;
    let head = "All "@ + server_name + intro;
    let note = if conflicts.len() == 0 {
        Seq::empty()
    } else {
        "\nNote: "@ + text::joined(conflicts, ", "@)
            + " take different types depending on the operation; see each property's description.\n"@
    };
    assert(said =~= head + lines + note);
    lemma_lines_hold(tools, t);
    text::lemma_holds_within(head, lines, note, described_line(tools[t]));
    text::lemma_holds("All "@, server_name, intro + lines + note);
    assert("All "@ + server_name + (intro + lines + note) =~= said);
    let line = described_line(tools[t]);
    let rest = line.skip(2 + tools[t].name.len() as int);
    text::lemma_holds(seq![' ', ' '], tools[t].name, rest);
    assert(seq![' ', ' '] + tools[t].name + rest =~= line);
    text::lemma_holds_deep(said, line, tools[t].name);
}

proof fn lemma_lines_hold(tools: Seq<Tool>, t: int)
    requires
        0 <= t < tools.len(),
    ensures
        text::holds(single::operation_lines(tools), described_line(tools[t])),
    decreases tools.len(),
{
    let rest = tools.drop_last();
    let nothing = Seq::<char>::empty();
    lemma_described_line(tools.last());
    let line = described_line(tools.last());
    let before = single::operation_lines(rest);
    if t < rest.len() {
        assert(rest[t] == tools[t]);
        lemma_lines_hold(rest, t);
        text::lemma_holds_within(nothing, before, line, described_line(tools[t]));
        assert(nothing + before + line =~= single::operation_lines(tools));
    } else {
        text::lemma_holds(before, line, nothing);
        assert(before + line + nothing =~= single::operation_lines(tools));
    }
}

/// The operations are described in order: the lines of some tools and of others
/// behind them are the lines of the ones and then those of the others.
pub proof fn operations_are_described_in_order(first: Seq<Tool>, second: Seq<Tool>)
    ensures
        single::operation_lines(first + second) == single::operation_lines(first)
            + single::operation_lines(second),
        second.len() == 1 ==> single::operation_lines(second) == described_line(second[0]),
    decreases second.len(),
{
    if second.len() == 0 {
        assert(first + second =~= first);
        assert(single::operation_lines(first) + single::operation_lines(second)
            =~= single::operation_lines(first));
    } else {
        operations_are_described_in_order(first, second.drop_last());
        assert((first + second).drop_last() =~= first + second.drop_last());
        assert((first + second).last() == second.last());
        assert(single::operation_lines(first + second) =~= single::operation_lines(first)
            + single::operation_lines(second));
        if second.len() == 1 {
            lemma_described_line(second[0]);
            assert(single::operation_lines(second.drop_last()) =~= Seq::<char>::empty());
            assert(single::operation_lines(second) =~= described_line(second[0]));
        }
    }
}

/// The argument that picks the operation is a text, one of the operations' names:
/// each of them is allowed, in order, and nothing else.
pub proof fn the_operation_is_picked_by_name(server_name: Seq<char>, tools: Seq<Tool>)
    requires
        forall|t: int|
            0 <= t < tools.len() ==> !json::has_key((#[trigger] tools[t]).properties(), "tool"@),
    ensures
        ({
            let property = json::lookup(
                single::squashed(server_name, tools).properties(),
                "tool"@,
            );
            &&& property matches Some(selector)
            &&& selector.get("type"@) == Some(Tree::Text("string"@))
            &&& selector.get("enum"@) matches Some(Tree::Array(names))
            &&& names.len() == tools.len()
            &&& forall|t: int|
                0 <= t < tools.len() ==> #[trigger] names[t] == Tree::Text(tools[t].name)
        }),
{
    let found = single::declarations(tools);
    lemma_squashed(server_name, tools);
    assert(!disagree(found, "tool"@)) by {
        if disagree(found, "tool"@) {
            let i = choose|i: int| disagrees_at(found, "tool"@, i);
            let (u, k) = lemma_declarer(tools, i);
            assert(tools[u].properties()[k].0 == "tool"@);
            assert(json::has_key(tools[u].properties(), "tool"@));
        }
    }
    lemma_selector_kept(found, tools);
    lemma_merged(found, tools, "tool"@);
    assert(first_type(found, "tool"@) == Some(Tree::Text("string"@))) by {
        lemma_selector_type(found);
    }
}

proof fn lemma_selector_type(found: Seq<Declaration>)
    ensures
        first_type(found, "tool"@) == Some(Tree::Text("string"@)),
    decreases found.len(),
{
    if found.len() > 0 {
        lemma_selector_type(found.drop_last());
    }
}

/// The dispatching tool's schema says nothing but that it takes an object, which
/// properties it has, and which is required.
pub proof fn the_schema_says_nothing_else(
    server_name: Seq<char>,
    tools: Seq<Tool>,
    other: Seq<char>,
)
    requires
        other != "type"@,
        other != "properties"@,
        other != "required"@,
    ensures
        single::squashed(server_name, tools).schema.get(other) is None,
{
    let entries = single::squashed(server_name, tools).schema->Object_0;
    assert(!json::has_key(entries, other));
}

/// The arguments come in the order in which they are first declared, behind the
/// one that picks the operation: one more declaration adds its name at the end, or
/// nothing where the name is there.
pub proof fn arguments_come_in_the_order_of_their_declarations(
    found: Seq<Declaration>,
    one: Declaration,
    tools: Seq<Tool>,
)
    ensures
        json::keys_of(single::merged(Seq::<Declaration>::empty(), tools).properties) == seq![
            "tool"@,
        ],
        json::keys_of(single::merged(found.push(one), tools).properties) == (if json::has_key(
            single::merged(found, tools).properties,
            one.name,
        ) {
            json::keys_of(single::merged(found, tools).properties)
        } else {
            json::keys_of(single::merged(found, tools).properties).push(one.name)
        }),
{
    let more = found.push(one);
    assert(more.drop_last() =~= found);
    let before = single::merged(found, tools).properties;
    let after = single::merged(more, tools).properties;
    if json::has_key(before, one.name) {
        json::lemma_first_exists(before, one.name);
        assert(json::keys_of(after) =~= json::keys_of(before));
    } else {
        assert(json::keys_of(after) =~= json::keys_of(before).push(one.name));
    }
    assert(json::keys_of(single::merged(Seq::<Declaration>::empty(), tools).properties) =~= seq![
        "tool"@,
    ]);
}

/// One tool declares its properties in the order of its schema, and several tools
/// declare theirs one after the other.
pub proof fn declarations_follow_the_tools(first: Seq<Tool>, tool: Tool, k: int)
    ensures
        single::declarations(first.push(tool)).len() == single::declarations(first).len()
            + tool.properties().len(),
        forall|i: int|
            0 <= i < single::declarations(first).len() ==> #[trigger] single::declarations(
                first.push(tool),
            )[i] == single::declarations(first)[i],
        0 <= k < tool.properties().len() ==> {
            let one = single::declarations(first.push(tool))[single::declarations(first).len() + k];
            &&& one.owner == tool.name
            &&& one.name == tool.properties()[k].0
            &&& one.spec == tool.properties()[k].1
        },
{
    assert(first.push(tool).drop_last() =~= first);
    assert(first.push(tool).last() == tool);
}

/// Annotating a property changes its description and nothing else; what is no
/// object stays as it is.
pub proof fn annotating_changes_only_the_description(spec: Tree, said: Seq<char>, key: Seq<char>)
    ensures
        key != "description"@ ==> single::described(spec, said).get(key) == spec.get(key),
        spec is Object ==> single::described(spec, said).get("description"@) == Some(
            Tree::Text(said),
        ),
        !(spec is Object) ==> single::described(spec, said) == spec,
{
    lemma_described(spec, said, key);
}

/// A property with one owner names it in square brackets, in front of the
/// description that it had.
pub proof fn an_owner_is_named_in_front(base: Seq<char>, owner: Seq<char>)
    ensures
        base.len() == 0 ==> single::owned_text(base, owner) == seq!['['] + owner + seq![']'],
        base.len() > 0 ==> single::owned_text(base, owner) == seq!['['] + owner + seq![']', ' ']
            + base,
{
    reveal_strlit("[");
    reveal_strlit("]");
    reveal_strlit("] ");
    assert("["@ =~= seq!['[']);
    assert("]"@ =~= seq![']']);
    assert("] "@ =~= seq![']', ' ']);
}

/// A further owner of a property joins the list at the front of its description,
/// unless it is listed, and what follows the list stays.
pub proof fn a_further_owner_joins_the_list(
    list: Seq<char>,
    rest: Seq<char>,
    owner: Seq<char>,
)
    requires
        !list.contains(']'),
    ensures
        ({
            let current = seq!['['] + list + seq![']'] + rest;
            single::shared_text(current, owner) == (if single::comma_parts(list).contains(owner) {
                current
            } else {
                seq!['['] + list + seq![',', ' '] + owner + seq![']'] + rest
            })
        }),
{
    reveal_strlit("[");
    reveal_strlit("]");
    reveal_strlit(", ");
    let current = seq!['['] + list + seq![']'] + rest;
    let inner = current.skip(1);
    let close = list.len() as int;
    assert(inner =~= list + seq![']'] + rest);
    assert forall|i: int| 0 <= i < close implies inner[i] != ']' by {
        assert(inner[i] == list[i]);
        assert(list.contains(list[i]));
    }
    text::lemma_find_char(inner, ']', close);
    assert(inner.take(close) =~= list);
    assert(inner.skip(close + 1) =~= rest);
    if !single::comma_parts(list).contains(owner) {
        assert(single::shared_text(current, owner) =~= seq!['['] + list + seq![',', ' '] + owner
            + seq![']'] + rest);
    }
}

/// A description without a list gets one with the owner.
pub proof fn a_description_without_a_list_gets_one(current: Seq<char>, owner: Seq<char>)
    requires
        current.len() == 0 || current[0] != '[' || !current.skip(1).contains(']'),
    ensures
        single::shared_text(current, owner) == seq!['['] + owner + seq![']', ' '] + current,
{
    reveal_strlit("[");
    reveal_strlit("] ");
    assert("["@ =~= seq!['[']);
    assert("] "@ =~= seq![']', ' ']);
    if current.len() > 0 && current[0] == '[' {
        let inner = current.skip(1);
        assert forall|i: int| 0 <= i < inner.len() implies inner[i] != ']' by {
            assert(inner.contains(inner[i]));
        }
        text::lemma_find_char(inner, ']', inner.len() as int);
    }
}

/// The parts of a list are what stands between one `", "` and the next: put
/// together again they make the list, and none of them holds another `", "`.
pub proof fn the_parts_make_the_list(list: Seq<char>)
    ensures
        single::comma_parts(list).len() > 0,
        text::joined(single::comma_parts(list), seq![',', ' ']) == list,
        forall|i: int|
            0 <= i < single::comma_parts(list).len() ==> !text::holds(
                #[trigger] single::comma_parts(list)[i],
                seq![',', ' '],
            ),
    decreases list.len(),
{
    let sep = seq![',', ' '];
    let at = single::find_comma(list);
    let parts = single::comma_parts(list);
    single::lemma_find_comma_bounds(list);
    lemma_no_comma_before(list);
    if at + 2 <= list.len() {
        let rest = list.skip(at + 2);
        let more = single::comma_parts(rest);
        the_parts_make_the_list(rest);
        lemma_joined_front(list.take(at), more, sep);
        assert(list.take(at) + sep + rest =~= list);
        assert(!text::holds(list.take(at), sep)) by {
            if text::holds(list.take(at), sep) {
                let i = choose|i: int| text::stands(list.take(at), sep, i);
                let pair = list.take(at).subrange(i, i + 2);
                assert(pair[0] == list[i] && pair[1] == list[i + 1]);
            }
        }
        assert forall|i: int| 0 <= i < parts.len() implies !text::holds(#[trigger] parts[i], sep) by {
            if i > 0 {
                assert(parts[i] == more[i - 1]);
            }
        }
    } else {
        assert(parts =~= seq![list]);
        assert(!text::holds(list, sep)) by {
            if text::holds(list, sep) {
                let i = choose|i: int| text::stands(list, sep, i);
                let pair = list.subrange(i, i + 2);
                assert(pair[0] == list[i] && pair[1] == list[i + 1]);
            }
        }
    }
}

/// No `", "` stands before the first one that is found.
proof fn lemma_no_comma_before(list: Seq<char>)
    ensures
        forall|i: int|
            0 <= i < single::find_comma(list) && i + 1 < list.len() ==> !(#[trigger] list[i] == ','
                && list[i + 1] == ' '),
        single::find_comma(list) < list.len() ==> list[single::find_comma(list)] == ','
            && list[single::find_comma(list) + 1] == ' ',
    decreases list.len(),
{
    if list.len() >= 2 && !(list[0] == ',' && list[1] == ' ') {
        let rest = list.drop_first();
        let found = single::find_comma(rest);
        lemma_no_comma_before(rest);
        single::lemma_find_comma_bounds(rest);
        assert(single::find_comma(list) == 1 + found);
        if found < rest.len() {
            assert(rest[found] == list[found + 1] && rest[found + 1] == list[found + 2]);
        }
        assert forall|i: int|
            0 <= i < single::find_comma(list) && i + 1 < list.len() implies !(#[trigger] list[i]
            == ',' && list[i + 1] == ' ') by {
            if i > 0 {
                assert(rest[i - 1] == list[i] && rest[i] == list[i + 1]);
            }
        }
    }
}

/// One more text in front of others that are joined.
proof fn lemma_joined_front(first: Seq<char>, rest: Seq<Seq<char>>, sep: Seq<char>)
    requires
        rest.len() > 0,
    ensures
        text::joined(seq![first] + rest, sep) == first + sep + text::joined(rest, sep),
    decreases rest.len(),
{
    let all = seq![first] + rest;
    assert(all.drop_last() =~= seq![first] + rest.drop_last());
    assert(all.last() == rest.last());
    if rest.len() == 1 {
        assert(all.drop_last() =~= seq![first]);
        assert(text::joined(all.drop_last(), sep) == first);
    } else {
        lemma_joined_front(first, rest.drop_last(), sep);
        assert(first + sep + text::joined(rest.drop_last(), sep) + sep + rest.last() =~= first + sep
            + text::joined(rest, sep));
    }
}

/// A widened property says nothing but what its description says.
pub proof fn a_widened_property_only_describes(name: Seq<char>, tools: Seq<Tool>, key: Seq<char>)
    requires
        key != "description"@,
    ensures
        single::widened_property(name, tools) is Object,
        single::widened_property(name, tools).get(key) is None,
{
    let entries = single::widened_property(name, tools)->Object_0;
    assert(!json::has_key(entries, key));
}

/// Two declarations agree if and only if both give a type and the types are equal,
/// or neither gives one.
pub proof fn declarations_agree_by_their_types(a: Tree, b: Tree)
    ensures
        a.get("type"@) is None && b.get("type"@) is None ==> single::agree(a, b),
        a.get("type"@) is None != b.get("type"@) is None ==> !single::agree(a, b),
        a.get("type"@) matches Some(m) ==> (b.get("type"@) matches Some(n) ==> single::agree(a, b)
            == json::same_tree(m, n)),
{
}

} // verus!
