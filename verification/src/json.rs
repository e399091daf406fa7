//! JSON values as the tools' schemas and arguments hold them.
//!
//! An object keeps its entries in the order in which their keys first came, and
//! holds each key once. Removing an entry moves the last one into its place.
//! The text of a value is `serde_json`'s.

use vstd::prelude::*;

use crate::text::same_text;

verus! {

/// A JSON number.
#[derive(Debug)]
pub enum JsonNumber {
    /// An integer that is not negative.
    Unsigned(u64),
    /// Any other number.
    Other(OtherNumber),
}

/// A negative number or one with a fraction, carried along as `serde_json` holds
/// it.
#[derive(Debug)]
pub struct OtherNumber {
    number: serde_json::Number,
}

/// A JSON value.
#[derive(Debug)]
pub enum Json {
    Null,
    Bool(bool),
    Number(JsonNumber),
    Text(String),
    Array(Vec<Json>),
    Object(JsonObject),
}

/// A JSON object: its entries in the order in which their keys came, each key
/// once. (`serde_json::Map` has operations for `serde_json::Value` alone.)
#[derive(Debug)]
pub struct JsonObject {
    entries: Vec<(String, Json)>,
}

/// What a JSON value holds.
pub enum Tree {
    Null,
    Bool(bool),
    Number(JsonNumber),
    Text(Seq<char>),
    Array(Seq<Tree>),
    Object(Seq<(Seq<char>, Tree)>),
}

/// Whether one of the entries has this key.
pub open spec fn has_key(entries: Seq<(Seq<char>, Tree)>, key: Seq<char>) -> bool {
    exists|i: int| 0 <= i < entries.len() && (#[trigger] entries[i]).0 == key
}

/// Whether the first entry with this key stands at `i`.
pub open spec fn first_with_key(entries: Seq<(Seq<char>, Tree)>, key: Seq<char>, i: int) -> bool {
    &&& 0 <= i < entries.len()
    &&& entries[i].0 == key
    &&& forall|j: int| 0 <= j < i ==> (#[trigger] entries[j]).0 != key
}

/// Where the entry with this key stands.
pub open spec fn key_index(entries: Seq<(Seq<char>, Tree)>, key: Seq<char>) -> int {
    choose|i: int| first_with_key(entries, key, i)
}

/// The value that the entries give to a key.
pub open spec fn lookup(entries: Seq<(Seq<char>, Tree)>, key: Seq<char>) -> Option<Tree> {
    if has_key(entries, key) {
        Some(entries[key_index(entries, key)].1)
    } else {
        None
    }
}

/// The entries with `key` set to `value`: in its place if it was there, else at
/// the end.
pub open spec fn with_entry(
    entries: Seq<(Seq<char>, Tree)>,
    key: Seq<char>,
    value: Tree,
) -> Seq<(Seq<char>, Tree)> {
    if has_key(entries, key) {
        entries.update(key_index(entries, key), (key, value))
    } else {
        entries.push((key, value))
    }
}

/// The entries without `key`; the last entry takes its place.
pub open spec fn without_key(
    entries: Seq<(Seq<char>, Tree)>,
    key: Seq<char>,
) -> Seq<(Seq<char>, Tree)> {
    if has_key(entries, key) {
        entries.update(key_index(entries, key), entries.last()).drop_last()
    } else {
        entries
    }
}

/// No key stands twice.
pub open spec fn distinct_keys(entries: Seq<(Seq<char>, Tree)>) -> bool {
    forall|i: int, j: int|
        0 <= i < j < entries.len() ==> (#[trigger] entries[i]).0 != (#[trigger] entries[j]).0
}

/// The keys, in order.
pub open spec fn keys_of(entries: Seq<(Seq<char>, Tree)>) -> Seq<Seq<char>> {
    Seq::new(entries.len(), |i: int| entries[i].0)
}

impl Tree {
    /// The entries, if this is an object.
    pub open spec fn entries(self) -> Option<Seq<(Seq<char>, Tree)>> {
        match self {
            Tree::Object(entries) => Some(entries),
            _ => None,
        }
    }

    /// The value at `key`, if this is an object that has it.
    pub open spec fn get(self, key: Seq<char>) -> Option<Tree> {
        match self {
            Tree::Object(entries) => lookup(entries, key),
            _ => None,
        }
    }

    /// The text, if this is one.
    pub open spec fn text(self) -> Option<Seq<char>> {
        match self {
            Tree::Text(text) => Some(text),
            _ => None,
        }
    }

    /// The number, if this is one that is not negative and has no fraction.
    pub open spec fn unsigned(self) -> Option<u64> {
        match self {
            Tree::Number(JsonNumber::Unsigned(n)) => Some(n),
            _ => None,
        }
    }
}

/// The text found by looking up a key.
pub open spec fn text_at(tree: Tree, key: Seq<char>) -> Option<Seq<char>> {
    match tree.get(key) {
        Some(value) => value.text(),
        None => None,
    }
}

/// The number found by looking up a key.
pub open spec fn unsigned_at(tree: Tree, key: Seq<char>) -> Option<u64> {
    match tree.get(key) {
        Some(value) => value.unsigned(),
        None => None,
    }
}

/// The entries found by looking up a key.
pub open spec fn entries_at(tree: Tree, key: Seq<char>) -> Option<Seq<(Seq<char>, Tree)>> {
    match tree.get(key) {
        Some(value) => value.entries(),
        None => None,
    }
}

/// The first entry with a key that occurs can be found.
pub proof fn lemma_first_exists(entries: Seq<(Seq<char>, Tree)>, key: Seq<char>)
    requires
        has_key(entries, key),
    ensures
        first_with_key(entries, key, key_index(entries, key)),
{
    let i = choose|i: int| 0 <= i < entries.len() && (#[trigger] entries[i]).0 == key;
    lemma_first_below(entries, key, i);
}

proof fn lemma_first_below(entries: Seq<(Seq<char>, Tree)>, key: Seq<char>, i: int)
    requires
        0 <= i < entries.len(),
        entries[i].0 == key,
    ensures
        exists|k: int| first_with_key(entries, key, k),
    decreases i,
{
    if forall|j: int| 0 <= j < i ==> (#[trigger] entries[j]).0 != key {
        assert(first_with_key(entries, key, i));
    } else {
        let j = choose|j: int| 0 <= j < i && (#[trigger] entries[j]).0 == key;
        lemma_first_below(entries, key, j);
    }
}

/// What a key that stands first at `i` is looked up to.
pub proof fn lemma_lookup_first(entries: Seq<(Seq<char>, Tree)>, key: Seq<char>, i: int)
    requires
        first_with_key(entries, key, i),
    ensures
        has_key(entries, key),
        key_index(entries, key) == i,
        lookup(entries, key) == Some(entries[i].1),
{
    lemma_first_exists(entries, key);
    let k = key_index(entries, key);
    assert(entries[k].0 == key);
    assert(!(k < i));
    assert(!(i < k));
}

/// Setting a key makes it look up to the new value and leaves every other key
/// as it was.
pub proof fn lemma_with_entry(
    entries: Seq<(Seq<char>, Tree)>,
    key: Seq<char>,
    value: Tree,
    other: Seq<char>,
)
    ensures
        lookup(with_entry(entries, key, value), key) == Some(value),
        other != key ==> lookup(with_entry(entries, key, value), other) == lookup(entries, other),
        has_key(with_entry(entries, key, value), other) == (other == key || has_key(
            entries,
            other,
        )),
        distinct_keys(entries) ==> distinct_keys(with_entry(entries, key, value)),
{
    let after = with_entry(entries, key, value);
    if has_key(entries, key) {
        lemma_first_exists(entries, key);
        let at = key_index(entries, key);
        assert(first_with_key(after, key, at)) by {
            assert forall|j: int| 0 <= j < at implies (#[trigger] after[j]).0 != key by {
                assert(after[j] == entries[j]);
            }
        }
        lemma_lookup_first(after, key, at);
    } else {
        let at = entries.len() as int;
        assert(first_with_key(after, key, at)) by {
            assert forall|j: int| 0 <= j < at implies (#[trigger] after[j]).0 != key by {
                assert(after[j] == entries[j]);
            }
        }
        lemma_lookup_first(after, key, at);
    }
    if other != key {
        if has_key(entries, other) {
            lemma_first_exists(entries, other);
            let i = key_index(entries, other);
            assert(after[i] == entries[i]);
            assert(first_with_key(after, other, i)) by {
                assert forall|j: int| 0 <= j < i implies (#[trigger] after[j]).0 != other by {
                    assert(entries[j].0 != other);
                }
            }
            lemma_lookup_first(after, other, i);
        } else {
            assert(!has_key(after, other)) by {
                if has_key(after, other) {
                    let i = choose|i: int|
                        0 <= i < after.len() && (#[trigger] after[i]).0 == other;
                    assert(i < entries.len() && entries[i] == after[i]);
                }
            }
        }
    }
    if distinct_keys(entries) {
        assert forall|i: int, j: int| 0 <= i < j < after.len() implies (#[trigger] after[i]).0
            != (#[trigger] after[j]).0 by {
            if has_key(entries, key) {
                assert(after[i].0 == entries[i].0);
                assert(after[j].0 == entries[j].0);
            } else if j < entries.len() {
                assert(after[i] == entries[i] && after[j] == entries[j]);
            } else {
                assert(after[i] == entries[i]);
            }
        }
    }
}

/// Removing a key makes it absent and leaves every other key as it was.
pub proof fn lemma_without_key(
    entries: Seq<(Seq<char>, Tree)>,
    key: Seq<char>,
    other: Seq<char>,
)
    requires
        distinct_keys(entries),
    ensures
        !has_key(without_key(entries, key), key),
        other != key ==> lookup(without_key(entries, key), other) == lookup(entries, other),
        distinct_keys(without_key(entries, key)),
{
    let after = without_key(entries, key);
    if has_key(entries, key) {
        lemma_first_exists(entries, key);
        let at = key_index(entries, key);
        let n = entries.len() as int;
        assert forall|i: int| 0 <= i < after.len() implies #[trigger] after[i] == entries[if i == at {
            n - 1
        } else {
            i
        }] by {}
        assert(!has_key(after, key)) by {
            if has_key(after, key) {
                let i = choose|i: int| 0 <= i < after.len() && (#[trigger] after[i]).0 == key;
                if i == at {
                    assert(entries[n - 1].0 == key);
                } else {
                    assert(entries[i].0 == key);
                }
                assert(entries[at].0 == key);
            }
        }
        assert forall|i: int, j: int| 0 <= i < j < after.len() implies (#[trigger] after[i]).0
            != (#[trigger] after[j]).0 by {
            let a = if i == at { n - 1 } else { i };
            let b = if j == at { n - 1 } else { j };
            assert(entries[a].0 == after[i].0 && entries[b].0 == after[j].0);
        }
        if other != key {
            if has_key(entries, other) {
                lemma_first_exists(entries, other);
                let i = key_index(entries, other);
                let moved = if i == n - 1 { at } else { i };
                assert(after[moved] == entries[i]);
                assert(first_with_key(after, other, moved));
                lemma_lookup_first(after, other, moved);
            } else {
                assert(!has_key(after, other)) by {
                    if has_key(after, other) {
                        let i = choose|i: int|
                            0 <= i < after.len() && (#[trigger] after[i]).0 == other;
                        assert(entries[if i == at { n - 1 } else { i }].0 == other);
                    }
                }
            }
        }
    }
}

/// What `serde_json::Number::as_u64` reads from a number.
pub uninterp spec fn unsigned_value(number: serde_json::Number) -> Option<u64>;

/// Whether `serde_json` takes two of its numbers for equal.
pub uninterp spec fn equal_numbers(a: serde_json::Number, b: serde_json::Number) -> bool;

impl OtherNumber {
    /// The number as `serde_json` holds it.
    pub closed spec fn number(self) -> serde_json::Number {
        self.number
    }

    #[verifier::type_invariant]
    spec fn not_unsigned(self) -> bool {
        unsigned_value(self.number) is None
    }
}

/// Whether two numbers are equal.
pub open spec fn same_number(a: JsonNumber, b: JsonNumber) -> bool {
    match (a, b) {
        (JsonNumber::Unsigned(m), JsonNumber::Unsigned(n)) => m == n,
        (JsonNumber::Other(m), JsonNumber::Other(n)) => equal_numbers(m.number(), n.number()),
        _ => false,
    }
}

/// Whether two values are equal. The order of an object's entries does not
/// matter.
pub open spec fn same_tree(a: Tree, b: Tree) -> bool
    decreases a,
{
    match (a, b) {
        (Tree::Null, Tree::Null) => true,
        (Tree::Bool(m), Tree::Bool(n)) => m == n,
        (Tree::Number(m), Tree::Number(n)) => same_number(m, n),
        (Tree::Text(m), Tree::Text(n)) => m == n,
        (Tree::Array(m), Tree::Array(n)) => {
            &&& m.len() == n.len()
            &&& forall|i: int| 0 <= i < m.len() ==> same_tree(#[trigger] m[i], n[i])
        },
        (Tree::Object(m), Tree::Object(n)) => {
            &&& m.len() == n.len()
            &&& forall|i: int|
                0 <= i < m.len() ==> lookup(n, (#[trigger] m[i]).0) is Some && same_tree(
                    m[i].1,
                    lookup(n, m[i].0)->0,
                )
        },
        _ => false,
    }
}

/// Whether two values that may be absent are equal.
pub open spec fn same_option(a: Option<Tree>, b: Option<Tree>) -> bool {
    match (a, b) {
        (None, None) => true,
        (Some(x), Some(y)) => same_tree(x, y),
        _ => false,
    }
}

/// A number of `serde_json`.
#[verifier::external_type_specification]
#[verifier::external_body]
pub struct ExNumber(serde_json::Number);

/// `serde_json::Number::as_u64`: the integer that a number holds, if it is not
/// negative and has no fraction. Fixed by the number and named only.
#[verifier::external_body]
fn number_as_u64(number: &serde_json::Number) -> (n: Option<u64>)
    ensures
        n == unsigned_value(*number),
{
    number.as_u64()
}

/// `==` on `serde_json::Number`, fixed by the two numbers and named only.
#[verifier::external_body]
fn number_eq(a: &serde_json::Number, b: &serde_json::Number) -> (same: bool)
    ensures
        same == equal_numbers(*a, *b),
{
    a == b
}

/// `serde_json::Number::clone` gives the number itself.
#[verifier::external_body]
fn number_clone(number: &serde_json::Number) -> (copy: serde_json::Number)
    ensures
        copy == *number,
{
    number.clone()
}

impl JsonNumber {
    /// The number that `serde_json` holds.
    pub fn from_serde(number: serde_json::Number) -> (n: JsonNumber)
        ensures
            match unsigned_value(number) {
                Some(k) => n == JsonNumber::Unsigned(k),
                None => n is Other && n->Other_0.number() == number,
            },
    {
        match number_as_u64(&number) {
            Some(k) => JsonNumber::Unsigned(k),
            None => JsonNumber::Other(OtherNumber { number }),
        }
    }

    fn same(&self, other: &JsonNumber) -> (same: bool)
        ensures
            same == same_number(*self, *other),
    {
        match (self, other) {
            (JsonNumber::Unsigned(m), JsonNumber::Unsigned(n)) => *m == *n,
            (JsonNumber::Other(m), JsonNumber::Other(n)) => number_eq(&m.number, &n.number),
            _ => false,
        }
    }
}

impl Clone for JsonNumber {
    fn clone(&self) -> (copy: JsonNumber)
        ensures
            copy == *self,
    {
        match self {
            JsonNumber::Unsigned(n) => JsonNumber::Unsigned(*n),
            JsonNumber::Other(other) => {
                proof {
                    use_type_invariant(other);
                }
                JsonNumber::Other(OtherNumber { number: number_clone(&other.number) })
            },
        }
    }
}

/// What the values of a sequence hold.
pub open spec fn trees(items: Seq<Json>) -> Seq<Tree>
    decreases items,
{
    Seq::new(
        items.len(),
        |i: int|
            if 0 <= i < items.len() {
                items[i].tree()
            } else {
                Tree::Null
            },
    )
}

impl Json {
    /// What this value holds.
    pub open spec fn tree(self) -> Tree
        decreases self,
    {
        match self {
            Json::Null => Tree::Null,
            Json::Bool(b) => Tree::Bool(b),
            Json::Number(n) => Tree::Number(n),
            Json::Text(text) => Tree::Text(text@),
            Json::Array(items) => Tree::Array(trees(items@)),
            Json::Object(object) => Tree::Object(object.entries()),
        }
    }
}

impl View for Json {
    type V = Tree;

    open spec fn view(&self) -> Tree {
        self.tree()
    }
}

impl View for JsonObject {
    type V = Seq<(Seq<char>, Tree)>;

    open spec fn view(&self) -> Seq<(Seq<char>, Tree)> {
        self.entries()
    }
}

impl JsonObject {
    /// What the entries hold, in order.
    pub closed spec fn entries(self) -> Seq<(Seq<char>, Tree)>
        decreases self,
    {
        Seq::new(
            self.entries@.len(),
            |i: int|
                if 0 <= i < self.entries@.len() {
                    (self.entries@[i].0@, self.entries@[i].1.tree())
                } else {
                    (Seq::empty(), Tree::Null)
                },
        )
    }

    #[verifier::type_invariant]
    spec fn keys_distinct(self) -> bool {
        distinct_keys(self.entries())
    }

    /// An object without entries.
    pub fn new() -> (object: JsonObject)
        ensures
            object@ == Seq::<(Seq<char>, Tree)>::empty(),
    {
        let object = JsonObject { entries: Vec::new() };
        assert(object@ =~= Seq::<(Seq<char>, Tree)>::empty());
        object
    }

    /// How many entries there are.
    pub fn len(&self) -> (n: usize)
        ensures
            n == self@.len(),
            distinct_keys(self@),
    {
        proof {
            use_type_invariant(self);
        }
        self.entries.len()
    }

    /// The key of one entry.
    pub fn key_at(&self, i: usize) -> (key: &str)
        requires
            i < self@.len(),
        ensures
            key@ == self@[i as int].0,
    {
        self.entries[i].0.as_str()
    }

    /// The value of one entry.
    pub fn value_at(&self, i: usize) -> (value: &Json)
        requires
            i < self@.len(),
        ensures
            value@ == self@[i as int].1,
    {
        &self.entries[i].1
    }

    /// Where the entry with this key stands.
    fn position(&self, key: &str) -> (at: Option<usize>)
        ensures
            at is Some == has_key(self@, key@),
            at is Some ==> first_with_key(self@, key@, at->0 as int) && key_index(self@, key@)
                == at->0,
    {
        for i in 0..self.entries.len()
            invariant
                forall|j: int| 0 <= j < i ==> (#[trigger] self@[j]).0 != key@,
        {
            assert(self@[i as int].0 == self.entries@[i as int].0@);
            if same_text(self.entries[i].0.as_str(), key) {
                proof {
                    lemma_lookup_first(self@, key@, i as int);
                }
                return Some(i);
            }
        }
        None
    }

    /// The value at a key.
    pub fn get(&self, key: &str) -> (value: Option<&Json>)
        ensures
            value is Some == lookup(self@, key@) is Some,
            value is Some ==> value->0@ == lookup(self@, key@)->0,
            distinct_keys(self@),
    {
        proof {
            use_type_invariant(self);
        }
        match self.position(key) {
            Some(i) => Some(&self.entries[i].1),
            None => None,
        }
    }

    /// Whether there is an entry with this key.
    pub fn contains_key(&self, key: &str) -> (found: bool)
        ensures
            found == has_key(self@, key@),
    {
        self.position(key).is_some()
    }

    /// Sets a key: in its place if it is there, else at the end.
    pub fn insert(&mut self, key: String, value: Json)
        ensures
            final(self)@ == with_entry(old(self)@, key@, value@),
    {
        proof {
            use_type_invariant(&*self);
            lemma_with_entry(self@, key@, value@, key@);
        }
        let ghost before = *self;
        let at = self.position(key.as_str());
        let mut entries: Vec<(String, Json)> = Vec::new();
        assert(JsonObject { entries }@ =~= Seq::<(Seq<char>, Tree)>::empty());
        core::mem::swap(&mut entries, &mut self.entries);
        let ghost key_text = key@;
        let ghost tree = value@;
        match at {
            Some(i) => {
                entries[i] = (key, value);
            },
            None => {
                entries.push((key, value));
            },
        }
        assert(JsonObject { entries }@ =~= with_entry(before@, key_text, tree));
        self.entries = entries;
    }

    /// Removes a key; the last entry takes its place.
    pub fn remove(&mut self, key: &str)
        ensures
            final(self)@ == without_key(old(self)@, key@),
            distinct_keys(old(self)@),
    {
        proof {
            use_type_invariant(&*self);
            lemma_without_key(self@, key@, key@);
        }
        let ghost before = *self;
        match self.position(key) {
            Some(i) => {
                let mut entries: Vec<(String, Json)> = Vec::new();
                assert(JsonObject { entries }@ =~= Seq::<(Seq<char>, Tree)>::empty());
                core::mem::swap(&mut entries, &mut self.entries);
                entries.swap_remove(i);
                assert(JsonObject { entries }@ =~= without_key(before@, key@));
                self.entries = entries;
            },
            None => {},
        }
    }
}

impl Clone for JsonObject {
    fn clone(&self) -> (copy: JsonObject)
        ensures
            copy@ == self@,
        decreases self,
    {
        proof {
            use_type_invariant(self);
        }
        let mut entries: Vec<(String, Json)> = Vec::new();
        for i in 0..self.entries.len()
            invariant
                entries.len() == i,
                forall|j: int|
                    0 <= j < i ==> (#[trigger] entries@[j]).0@ == self.entries@[j].0@
                        && entries@[j].1@ == self.entries@[j].1@,
        {
            entries.push((self.entries[i].0.clone(), self.entries[i].1.clone()));
        }
        let ghost made = JsonObject { entries };
        assert(made@ =~= self@);
        JsonObject { entries }
    }
}

fn clone_items(items: &Vec<Json>) -> (copies: Vec<Json>)
    ensures
        trees(copies@) == trees(items@),
    decreases items,
{
    let mut copies: Vec<Json> = Vec::new();
    for i in 0..items.len()
        invariant
            copies.len() == i,
            forall|j: int| 0 <= j < i ==> (#[trigger] copies@[j])@ == items@[j]@,
    {
        copies.push(items[i].clone());
    }
    assert(trees(copies@) =~= trees(items@));
    copies
}

impl Clone for Json {
    fn clone(&self) -> (copy: Json)
        ensures
            copy@ == self@,
        decreases self,
    {
        match self {
            Json::Null => Json::Null,
            Json::Bool(b) => Json::Bool(*b),
            Json::Number(n) => Json::Number(n.clone()),
            Json::Text(text) => Json::Text(text.clone()),
            Json::Array(items) => Json::Array(clone_items(items)),
            Json::Object(object) => Json::Object(object.clone()),
        }
    }
}

fn same_items(a: &Vec<Json>, b: &Vec<Json>) -> (same: bool)
    ensures
        same == same_tree(Tree::Array(trees(a@)), Tree::Array(trees(b@))),
    decreases a,
{
    if a.len() != b.len() {
        return false;
    }
    for i in 0..a.len()
        invariant
            a@.len() == b@.len(),
            forall|j: int| 0 <= j < i ==> same_tree(#[trigger] trees(a@)[j], trees(b@)[j]),
    {
        if !a[i].same(&b[i]) {
            assert(!same_tree(trees(a@)[i as int], trees(b@)[i as int]));
            return false;
        }
    }
    true
}

impl JsonObject {
    fn same(&self, other: &JsonObject) -> (same: bool)
        ensures
            same == same_tree(Tree::Object(self@), Tree::Object(other@)),
        decreases self,
    {
        if self.entries.len() != other.entries.len() {
            return false;
        }
        for i in 0..self.entries.len()
            invariant
                self@.len() == other@.len(),
                forall|j: int|
                    0 <= j < i ==> lookup(other@, (#[trigger] self@[j]).0) is Some && same_tree(
                        self@[j].1,
                        lookup(other@, self@[j].0)->0,
                    ),
        {
            let ghost entry = self@[i as int];
            match other.get(self.entries[i].0.as_str()) {
                Some(value) => {
                    if !self.entries[i].1.same(value) {
                        assert(!same_tree(entry.1, lookup(other@, entry.0)->0));
                        return false;
                    }
                },
                None => {
                    assert(lookup(other@, entry.0) is None);
                    return false;
                },
            }
        }
        true
    }
}

impl Json {
    /// Whether two values are equal.
    pub fn same(&self, other: &Json) -> (same: bool)
        ensures
            same == same_tree(self@, other@),
        decreases self,
    {
        match (self, other) {
            (Json::Null, Json::Null) => true,
            (Json::Bool(m), Json::Bool(n)) => *m == *n,
            (Json::Number(m), Json::Number(n)) => m.same(n),
            (Json::Text(m), Json::Text(n)) => same_text(m.as_str(), n.as_str()),
            (Json::Array(m), Json::Array(n)) => same_items(m, n),
            (Json::Object(m), Json::Object(n)) => m.same(n),
            _ => false,
        }
    }

    /// A text value.
    pub fn text(text: &str) -> (value: Json)
        ensures
            value@ == Tree::Text(text@),
    {
        Json::Text(text.to_owned())
    }

    /// The value at `key`, if this is an object that has it.
    pub fn get(&self, key: &str) -> (value: Option<&Json>)
        ensures
            value is Some == self@.get(key@) is Some,
            value is Some ==> value->0@ == self@.get(key@)->0,
    {
        match self {
            Json::Object(object) => object.get(key),
            _ => None,
        }
    }

    /// The object, if this is one.
    pub fn as_object(&self) -> (object: Option<&JsonObject>)
        ensures
            object is Some == self@.entries() is Some,
            object is Some ==> object->0@ == self@.entries()->0 && distinct_keys(object->0@),
    {
        match self {
            Json::Object(object) => {
                proof {
                    use_type_invariant(object);
                }
                Some(object)
            },
            _ => None,
        }
    }

    /// The items, if this is an array.
    pub fn as_array(&self) -> (items: Option<&Vec<Json>>)
        ensures
            items is Some == self@ is Array,
            items is Some ==> self@ == Tree::Array(trees(items->0@)),
    {
        match self {
            Json::Array(items) => Some(items),
            _ => None,
        }
    }

    /// The text, if this is one.
    pub fn as_str(&self) -> (text: Option<&str>)
        ensures
            text is Some == self@.text() is Some,
            text is Some ==> text->0@ == self@.text()->0,
    {
        match self {
            Json::Text(text) => Some(text.as_str()),
            _ => None,
        }
    }

    /// The number, if this is one that is not negative and has no fraction.
    pub fn as_u64(&self) -> (n: Option<u64>)
        ensures
            n == self@.unsigned(),
    {
        match self {
            Json::Number(JsonNumber::Unsigned(n)) => Some(*n),
            _ => None,
        }
    }
}

/// A value of `serde_json`.
#[verifier::external_type_specification]
#[verifier::external_body]
pub struct ExValue(serde_json::Value);

/// What a value of `serde_json` holds, its object entries in insertion order.
pub uninterp spec fn json_tree(value: serde_json::Value) -> Tree;

/// Why `serde_json` could not write a value.
#[verifier::external_type_specification]
#[verifier::external_body]
pub struct ExError(serde_json::Error);

/// `serde_json::Value::Null`.
#[verifier::external_body]
fn serde_null() -> (value: serde_json::Value)
    ensures
        json_tree(value) == Tree::Null,
{
    serde_json::Value::Null
}

/// `serde_json::Value::Bool` holds the truth value.
#[verifier::external_body]
fn serde_bool(b: bool) -> (value: serde_json::Value)
    ensures
        json_tree(value) == Tree::Bool(b),
{
    serde_json::Value::Bool(b)
}

/// `serde_json::Value::from` of a `u64` holds that integer.
#[verifier::external_body]
fn serde_unsigned(n: u64) -> (value: serde_json::Value)
    ensures
        json_tree(value) == Tree::Number(JsonNumber::Unsigned(n)),
{
    serde_json::Value::from(n)
}

/// `serde_json::Value::Number` holds the number that was carried along.
#[verifier::external_body]
fn serde_number(number: serde_json::Number) -> (value: serde_json::Value)
    requires
        unsigned_value(number) is None,
    ensures
        json_tree(value) == Tree::Number(JsonNumber::Other(OtherNumber { number })),
{
    serde_json::Value::Number(number)
}

/// `serde_json::Value::String` holds the text.
#[verifier::external_body]
fn serde_text(text: String) -> (value: serde_json::Value)
    ensures
        json_tree(value) == Tree::Text(text@),
{
    serde_json::Value::String(text)
}

/// `serde_json::Value::Array` holds the items, in order.
#[verifier::external_body]
fn serde_array(items: Vec<serde_json::Value>) -> (array: serde_json::Value)
    ensures
        json_tree(array) == Tree::Array(Seq::new(items@.len(), |i: int| json_tree(items@[i]))),
{
    serde_json::Value::Array(items)
}

/// `serde_json::Value::Object` of a `serde_json::Map` collected from entries
/// with distinct keys holds those entries, in order: with the `preserve_order`
/// feature a map keeps the order of insertion.
#[verifier::external_body]
fn serde_object(entries: Vec<(String, serde_json::Value)>) -> (object: serde_json::Value)
    requires
        forall|i: int, j: int|
            0 <= i < j < entries@.len() ==> (#[trigger] entries@[i]).0@ != (
            #[trigger] entries@[j]).0@,
    ensures
        json_tree(object) == Tree::Object(
            Seq::new(entries@.len(), |i: int| (entries@[i].0@, json_tree(entries@[i].1))),
        ),
{
    serde_json::Value::Object(entries.into_iter().collect())
}

/// What `serde_json::to_string_pretty` writes for a value, if it can write it.
pub uninterp spec fn pretty_json(tree: Tree) -> Option<Seq<char>>;

/// What a value of `serde_json` is displayed as: its text on one line.
pub uninterp spec fn compact_json(tree: Tree) -> Seq<char>;

/// `serde_json::to_string_pretty` on a value: the indented text, or an error,
/// both fixed by what the value holds and named only.
#[verifier::external_body]
fn serde_pretty(value: &serde_json::Value) -> (text: Result<String, serde_json::Error>)
    ensures
        text is Ok == pretty_json(json_tree(*value)) is Some,
        text is Ok ==> text->Ok_0@ == pretty_json(json_tree(*value))->0,
{
    serde_json::to_string_pretty(value)
}

/// `serde_json::Value::to_string`: the text on one line, fixed by what the value
/// holds and named only.
#[verifier::external_body]
fn serde_compact(value: &serde_json::Value) -> (text: String)
    ensures
        text@ == compact_json(json_tree(*value)),
{
    value.to_string()
}

fn items_to_serde(items: &Vec<Json>) -> (values: Vec<serde_json::Value>)
    ensures
        Seq::new(values@.len(), |i: int| json_tree(values@[i])) == trees(items@),
    decreases items,
{
    let mut values: Vec<serde_json::Value> = Vec::new();
    for i in 0..items.len()
        invariant
            values.len() == i,
            forall|j: int| 0 <= j < i ==> json_tree(#[trigger] values@[j]) == items@[j]@,
    {
        values.push(items[i].to_serde());
    }
    assert(Seq::new(values@.len(), |i: int| json_tree(values@[i])) =~= trees(items@));
    values
}

impl JsonObject {
    fn to_serde(&self) -> (object: serde_json::Value)
        ensures
            json_tree(object) == Tree::Object(self@),
        decreases self,
    {
        proof {
            use_type_invariant(self);
        }
        let mut entries: Vec<(String, serde_json::Value)> = Vec::new();
        for i in 0..self.entries.len()
            invariant
                entries.len() == i,
                forall|j: int|
                    0 <= j < i ==> (#[trigger] entries@[j]).0@ == self@[j].0 && json_tree(
                        entries@[j].1,
                    ) == self@[j].1,
        {
            entries.push((self.entries[i].0.clone(), self.entries[i].1.to_serde()));
        }
        assert(Seq::new(entries@.len(), |i: int| (entries@[i].0@, json_tree(entries@[i].1)))
            =~= self@);
        serde_object(entries)
    }
}

/// The text that `serde_json` gives a value: indented, or on one line where it
/// cannot be indented.
pub open spec fn rendered(tree: Tree) -> Seq<char> {
    match pretty_json(tree) {
        Some(text) => text,
        None => compact_json(tree),
    }
}

impl Json {
    /// The same value as `serde_json` holds it.
    pub fn to_serde(&self) -> (value: serde_json::Value)
        ensures
            json_tree(value) == self@,
        decreases self,
    {
        match self {
            Json::Null => serde_null(),
            Json::Bool(b) => serde_bool(*b),
            Json::Number(JsonNumber::Unsigned(n)) => serde_unsigned(*n),
            Json::Number(JsonNumber::Other(other)) => {
                proof {
                    use_type_invariant(other);
                }
                serde_number(number_clone(&other.number))
            },
            Json::Text(text) => serde_text(text.clone()),
            Json::Array(items) => serde_array(items_to_serde(items)),
            Json::Object(object) => object.to_serde(),
        }
    }

    /// The indented text of this value, if it can be written.
    pub fn to_pretty(&self) -> (text: Option<String>)
        ensures
            text is Some == pretty_json(self@) is Some,
            text is Some ==> text->0@ == pretty_json(self@)->0,
    {
        match serde_pretty(&self.to_serde()) {
            Ok(text) => Some(text),
            Err(_) => None,
        }
    }

    /// The text of this value.
    pub fn render(&self) -> (text: String)
        ensures
            text@ == rendered(self@),
    {
        match self.to_pretty() {
            Some(text) => text,
            None => serde_compact(&self.to_serde()),
        }
    }
}

impl PartialEq for Json {
    fn eq(&self, other: &Json) -> (same: bool) {
        self.same(other)
    }
}

impl vstd::std_specs::cmp::PartialEqSpecImpl for Json {
    open spec fn obeys_eq_spec() -> bool {
        true
    }

    open spec fn eq_spec(&self, other: &Json) -> bool {
        same_tree(self@, other@)
    }
}

/// A key is looked up to the value that stands next to it, and a key that does not
/// occur to nothing.
pub proof fn every_entry_is_found(entries: Seq<(Seq<char>, Tree)>, key: Seq<char>)
    requires
        distinct_keys(entries),
    ensures
        forall|i: int|
            0 <= i < entries.len() ==> lookup(entries, (#[trigger] entries[i]).0) == Some(
                entries[i].1,
            ),
        (forall|i: int| 0 <= i < entries.len() ==> (#[trigger] entries[i]).0 != key) ==> lookup(
            entries,
            key,
        ) is None,
{
    assert forall|i: int| 0 <= i < entries.len() implies lookup(
        entries,
        (#[trigger] entries[i]).0,
    ) == Some(entries[i].1) by {
        assert forall|j: int| 0 <= j < i implies (#[trigger] entries[j]).0 != entries[i].0 by {}
        lemma_lookup_first(entries, entries[i].0, i);
    }
}

/// Setting a key keeps the order of the keys: one that is there keeps its place,
/// and a new one comes last.
pub proof fn setting_a_key_keeps_the_order(
    entries: Seq<(Seq<char>, Tree)>,
    key: Seq<char>,
    value: Tree,
)
    ensures
        has_key(entries, key) ==> keys_of(with_entry(entries, key, value)) == keys_of(entries),
        !has_key(entries, key) ==> keys_of(with_entry(entries, key, value)) == keys_of(
            entries,
        ).push(key),
{
    if has_key(entries, key) {
        lemma_first_exists(entries, key);
        assert(keys_of(with_entry(entries, key, value)) =~= keys_of(entries));
    } else {
        assert(keys_of(with_entry(entries, key, value)) =~= keys_of(entries).push(key));
    }
}

/// What is found under a key is read by its kind: a text as a text, a number that
/// is not negative as a number, an object as its entries, and nothing else as any
/// of these.
pub proof fn values_are_read_by_their_kind(tree: Tree, key: Seq<char>)
    ensures
        forall|text: Seq<char>| #[trigger]
            text_at(tree, key) == Some(text) <==> tree.get(key) == Some(Tree::Text(text)),
        forall|n: u64| #[trigger]
            unsigned_at(tree, key) == Some(n) <==> tree.get(key) == Some(
                Tree::Number(JsonNumber::Unsigned(n)),
            ),
        forall|entries: Seq<(Seq<char>, Tree)>| #[trigger]
            entries_at(tree, key) == Some(entries) <==> tree.get(key) == Some(
                Tree::Object(entries),
            ),
{
}

/// A value that is no object has nothing under any key.
pub proof fn only_objects_have_keys(tree: Tree, key: Seq<char>)
    requires
        tree.get(key) is Some,
    ensures
        tree matches Tree::Object(entries) && has_key(entries, key),
{
}

/// Plain values are equal if they are the same, and a value is equal to none of
/// another kind.
pub proof fn plain_values_are_equal_if_the_same(a: Tree, b: Tree)
    ensures
        same_tree(a, b) ==> (a is Null == b is Null && a is Bool == b is Bool && a is Number
            == b is Number && a is Text == b is Text && a is Array == b is Array && a is Object
            == b is Object),
        a is Null && b is Null ==> same_tree(a, b),
        a matches Tree::Bool(m) ==> (b matches Tree::Bool(n) ==> same_tree(a, b) == (m == n)),
        a matches Tree::Text(m) ==> (b matches Tree::Text(n) ==> same_tree(a, b) == (m == n)),
        a matches Tree::Number(JsonNumber::Unsigned(m)) ==> (b matches Tree::Number(
            JsonNumber::Unsigned(n),
        ) ==> same_tree(a, b) == (m == n)),
{
}

/// Two lists are equal if and only if they are as long and equal item by item.
pub proof fn lists_are_equal_item_by_item(a: Seq<Tree>, b: Seq<Tree>)
    ensures
        same_tree(Tree::Array(a), Tree::Array(b)) <==> a.len() == b.len() && forall|i: int|
            0 <= i < a.len() ==> same_tree(#[trigger] a[i], b[i]),
{
}

/// The keys, each once.
spec fn key_set(entries: Seq<(Seq<char>, Tree)>) -> Set<Seq<char>> {
    keys_of(entries).to_set()
}

proof fn lemma_key_set(entries: Seq<(Seq<char>, Tree)>)
    requires
        distinct_keys(entries),
    ensures
        key_set(entries).finite(),
        key_set(entries).len() == entries.len(),
        forall|key: Seq<char>| #[trigger] key_set(entries).contains(key) == has_key(entries, key),
{
    let keys = keys_of(entries);
    assert(keys.no_duplicates()) by {
        assert forall|i: int, j: int|
            0 <= i < keys.len() && 0 <= j < keys.len() && i != j implies keys[i] != keys[j] by {
            if i < j {
                assert(entries[i].0 != entries[j].0);
            } else {
                assert(entries[j].0 != entries[i].0);
            }
        }
    }
    keys.unique_seq_to_set();
    vstd::seq_lib::seq_to_set_is_finite(keys);
    assert forall|key: Seq<char>| #[trigger] key_set(entries).contains(key) == has_key(
        entries,
        key,
    ) by {
        if has_key(entries, key) {
            let i = choose|i: int| 0 <= i < entries.len() && (#[trigger] entries[i]).0 == key;
            assert(keys[i] == key);
        }
        if keys.contains(key) {
            let i = choose|i: int| 0 <= i < keys.len() && keys[i] == key;
            assert(entries[i].0 == key);
        }
    }
}

/// Two objects are equal if and only if they have the same keys and equal values
/// under each; the order of the keys does not matter.
pub proof fn objects_are_equal_key_by_key(
    a: Seq<(Seq<char>, Tree)>,
    b: Seq<(Seq<char>, Tree)>,
)
    requires
        distinct_keys(a),
        distinct_keys(b),
    ensures
        same_tree(Tree::Object(a), Tree::Object(b)) <==> forall|key: Seq<char>|
            same_option(#[trigger] lookup(a, key), lookup(b, key)),
{
    lemma_key_set(a);
    lemma_key_set(b);
    every_entry_is_found(a, Seq::empty());
    if same_tree(Tree::Object(a), Tree::Object(b)) {
        assert(key_set(a).subset_of(key_set(b))) by {
            assert forall|key: Seq<char>| #[trigger] key_set(a).contains(key) implies key_set(
                b,
            ).contains(key) by {
                let i = choose|i: int| 0 <= i < a.len() && (#[trigger] a[i]).0 == key;
                assert(lookup(b, a[i].0) is Some);
            }
        }
        vstd::set_lib::lemma_subset_equality(key_set(a), key_set(b));
        assert forall|key: Seq<char>| same_option(#[trigger] lookup(a, key), lookup(b, key)) by {
            assert(key_set(a).contains(key) == key_set(b).contains(key));
            if has_key(a, key) {
                let i = choose|i: int| 0 <= i < a.len() && (#[trigger] a[i]).0 == key;
                assert(same_tree(a[i].1, lookup(b, a[i].0)->0));
                assert(lookup(a, a[i].0) == Some(a[i].1));
            }
        }
    }
    if forall|key: Seq<char>| same_option(#[trigger] lookup(a, key), lookup(b, key)) {
        assert(key_set(a) =~= key_set(b)) by {
            assert forall|key: Seq<char>| #[trigger] key_set(a).contains(key) == key_set(
                b,
            ).contains(key) by {
                assert(same_option(lookup(a, key), lookup(b, key)));
            }
        }
        assert forall|i: int| 0 <= i < a.len() implies lookup(b, (#[trigger] a[i]).0) is Some
            && same_tree(a[i].1, lookup(b, a[i].0)->0) by {
            assert(same_option(lookup(a, a[i].0), lookup(b, a[i].0)));
        }
    }
}

/// Removing a key takes one entry out, into whose place the last one moves; every
/// other entry stays where it is. A key that does not occur changes nothing.
pub proof fn removing_a_key_moves_the_last_entry(
    entries: Seq<(Seq<char>, Tree)>,
    key: Seq<char>,
    at: int,
    other: int,
)
    requires
        distinct_keys(entries),
        0 <= at < entries.len(),
        entries[at].0 == key,
    ensures
        without_key(entries, key).len() == entries.len() - 1,
        0 <= other < entries.len() - 1 ==> without_key(entries, key)[other] == entries[if other
            == at {
            entries.len() - 1
        } else {
            other
        }],
{
    lemma_first_exists(entries, key);
    let found = key_index(entries, key);
    assert(found == at) by {
        if found < at {
            assert(entries[found].0 != entries[at].0);
        } else if at < found {
            assert(entries[at].0 != entries[found].0);
        }
    }
}

/// A key that does not occur can be removed without a change.
pub proof fn removing_no_key_changes_nothing(entries: Seq<(Seq<char>, Tree)>, key: Seq<char>)
    requires
        forall|i: int| 0 <= i < entries.len() ==> (#[trigger] entries[i]).0 != key,
    ensures
        without_key(entries, key) == entries,
{
}

/// A value is rendered indented where that can be, and else on one line.
pub proof fn a_value_is_rendered_indented(tree: Tree)
    ensures
        match pretty_json(tree) {
            Some(indented) => rendered(tree) == indented,
            None => rendered(tree) == compact_json(tree),
        },
{
}

/// A number that is not negative equals no number of another kind, and two numbers
/// of another kind are equal if `serde_json` holds them to be.
pub proof fn numbers_are_equal_within_their_kind(n: u64, a: OtherNumber, b: OtherNumber)
    ensures
        !same_tree(Tree::Number(JsonNumber::Unsigned(n)), Tree::Number(JsonNumber::Other(a))),
        !same_tree(Tree::Number(JsonNumber::Other(a)), Tree::Number(JsonNumber::Unsigned(n))),
        same_tree(Tree::Number(JsonNumber::Other(a)), Tree::Number(JsonNumber::Other(b)))
            == equal_numbers(a.number(), b.number()),
{
}

/// What may be absent is equal to what is absent too, or to an equal value.
pub proof fn absent_values_are_equal(a: Tree, b: Tree)
    ensures
        same_option(None, None),
        !same_option(None, Some(a)),
        !same_option(Some(a), None),
        same_option(Some(a), Some(b)) == same_tree(a, b),
{
}

} // verus!
