//! A JSON document model: the executable `JsonValue`, its mathematical view
//! `JsonTree`, and the lookups that the response handling reads through.

use vstd::prelude::*;
use serde_json::Value;

verus! {

/// A JSON value. Numbers are kept as their textual form.
#[derive(Debug, PartialEq)]
pub enum JsonValue {
    Null,
    Bool(bool),
    Number(String),
    Str(String),
    Array(Vec<JsonValue>),
    Object(Vec<(String, JsonValue)>),
}

/// The mathematical view of a `JsonValue`.
pub enum JsonTree {
    Null,
    Bool(bool),
    Number(Seq<char>),
    Str(Seq<char>),
    Array(Seq<JsonTree>),
    Object(Seq<(Seq<char>, JsonTree)>),
}

/// The mathematical value of a JSON value.
pub open spec fn tree_of(v: JsonValue) -> JsonTree
    decreases v, 0nat,
{
    match v {
        JsonValue::Null => JsonTree::Null,
        JsonValue::Bool(b) => JsonTree::Bool(b),
        JsonValue::Number(n) => JsonTree::Number(n@),
        JsonValue::Str(s) => JsonTree::Str(s@),
        JsonValue::Array(items) => JsonTree::Array(trees_of(items@)),
        JsonValue::Object(entries) => JsonTree::Object(entry_trees(entries@)),
    }
}

/// The mathematical values of a sequence of JSON values.
pub open spec fn trees_of(s: Seq<JsonValue>) -> Seq<JsonTree>
    decreases s, 1nat,
{
    if s.len() == 0 {
        Seq::empty()
    } else {
        seq![tree_of(s[0])] + trees_of(s.subrange(1, s.len() as int))
    }
}

/// The mathematical values of an object's entries.
pub open spec fn entry_trees(s: Seq<(String, JsonValue)>) -> Seq<(Seq<char>, JsonTree)>
    decreases s, 1nat,
{
    if s.len() == 0 {
        Seq::empty()
    } else {
        seq![(s[0].0@, tree_of(s[0].1))] + entry_trees(s.subrange(1, s.len() as int))
    }
}

impl View for JsonValue {
    type V = JsonTree;

    open spec fn view(&self) -> JsonTree {
        tree_of(*self)
    }
}


/// `trees_of` maps each value to its tree, position by position.
pub proof fn lemma_trees_of(s: Seq<JsonValue>)
    ensures
        trees_of(s).len() == s.len(),
        forall|i: int| 0 <= i < s.len() ==> #[trigger] trees_of(s)[i] == tree_of(s[i]),
    decreases s.len(),
{
    if s.len() > 0 {
        let rest = s.subrange(1, s.len() as int);
        lemma_trees_of(rest);
        assert forall|i: int| 0 <= i < s.len() implies #[trigger] trees_of(s)[i] == tree_of(s[i]) by {
            if i > 0 {
                assert(rest[i - 1] == s[i]);
            }
        }
    }
}

/// `entry_trees` maps each entry to its key text and tree, position by
/// position.
pub proof fn lemma_entry_trees(s: Seq<(String, JsonValue)>)
    ensures
        entry_trees(s).len() == s.len(),
        forall|i: int| 0 <= i < s.len() ==> #[trigger] entry_trees(s)[i] == (s[i].0@, tree_of(s[i].1)),
    decreases s.len(),
{
    if s.len() > 0 {
        let rest = s.subrange(1, s.len() as int);
        lemma_entry_trees(rest);
        assert forall|i: int| 0 <= i < s.len() implies #[trigger] entry_trees(s)[i] == (s[i].0@, tree_of(s[i].1)) by {
            if i > 0 {
                assert(rest[i - 1] == s[i]);
            }
        }
    }
}

/// The first entry index at or after `i` whose key is `key`.
pub open spec fn key_index(es: Seq<(Seq<char>, JsonTree)>, key: Seq<char>, i: int) -> Option<int>
    decreases es.len() - i,
{
    if i < 0 || i >= es.len() {
        None
    } else if es[i].0 == key {
        Some(i)
    } else {
        key_index(es, key, i + 1)
    }
}

/// The member `key` of an object (`Value::get` with a string key); `None`
/// for a missing key and for anything but an object.
pub open spec fn get(t: JsonTree, key: Seq<char>) -> Option<JsonTree> {
    match t {
        JsonTree::Object(es) => match key_index(es, key, 0) {
            Some(i) => Some(es[i].1),
            None => None,
        },
        _ => None,
    }
}

/// The text of a string value (`Value::as_str`).
pub open spec fn str_of(t: Option<JsonTree>) -> Option<Seq<char>> {
    match t {
        Some(JsonTree::Str(s)) => Some(s),
        _ => None,
    }
}

/// The items of an array value (`Value::as_array`).
pub open spec fn items_of(t: Option<JsonTree>) -> Option<Seq<JsonTree>> {
    match t {
        Some(JsonTree::Array(items)) => Some(items),
        _ => None,
    }
}

/// `get(t, key)` read as a string.
pub open spec fn str_field(t: JsonTree, key: Seq<char>) -> Option<Seq<char>> {
    str_of(get(t, key))
}

impl JsonValue {
    /// The member `key` of this object; `None` for a missing key and for
    /// anything but an object.
    pub fn get(&self, key: &str) -> (r: Option<&JsonValue>)
        ensures
            r matches Some(x) ==> get(self@, key@) == Some(x@),
            r is None ==> get(self@, key@) is None,
    {
        match self {
            JsonValue::Object(entries) => {
                let k = String::from_str(key);
                let ghost es = entry_trees(entries@);
                proof {
                    lemma_entry_trees(entries@);
                }
                let mut i: usize = 0;
                while i < entries.len()
                    invariant
                        i <= entries.len(),
                        es == entry_trees(entries@),
                        es.len() == entries.len(),
                        k@ == key@,
                        self@ == JsonTree::Object(es),
                        key_index(es, key@, 0) == key_index(es, key@, i as int),
                        forall|j: int| 0 <= j < entries.len() ==> #[trigger] es[j] == (entries@[j].0@, tree_of(entries@[j].1)),
                    decreases entries.len() - i,
                {
                    if entries[i].0 == k {
                        assert(es[i as int].0 == key@);
                        return Some(&entries[i].1);
                    }
                    i = i + 1;
                }
                None
            },
            _ => None,
        }
    }

    /// The text of a string value.
    pub fn as_str(&self) -> (r: Option<&String>)
        ensures
            r matches Some(s) ==> self@ == JsonTree::Str(s@),
            r is None ==> !(self@ is Str),
    {
        match self {
            JsonValue::Str(s) => Some(s),
            _ => None,
        }
    }

    /// The items of an array value.
    pub fn as_array(&self) -> (r: Option<&Vec<JsonValue>>)
        ensures
            r matches Some(v) ==> self@ == JsonTree::Array(trees_of(v@)),
            r is None ==> !(self@ is Array),
    {
        match self {
            JsonValue::Array(v) => Some(v),
            _ => None,
        }
    }

    /// A string value holding `s`.
    pub fn text(s: &str) -> (r: JsonValue)
        ensures
            r@ == JsonTree::Str(s@),
    {
        JsonValue::Str(String::from_str(s))
    }
}

/// An object value from its entries.
pub fn object(entries: Vec<(String, JsonValue)>) -> (r: JsonValue)
    ensures
        r@ == JsonTree::Object(entry_trees(entries@)),
{
    JsonValue::Object(entries)
}

/// An array value from its items.
pub fn array(items: Vec<JsonValue>) -> (r: JsonValue)
    ensures
        r@ == JsonTree::Array(trees_of(items@)),
{
    JsonValue::Array(items)
}

/// A one-entry object.
pub fn object1(k0: &str, v0: JsonValue) -> (r: JsonValue)
    ensures
        r@ == JsonTree::Object(seq![(k0@, v0@)]),
{
    let e = vec![(String::from_str(k0), v0)];
    proof {
        lemma_entry_trees(e@);
    }
    let r = JsonValue::Object(e);
    assert(entry_trees(e@) == seq![(k0@, e@[0].1@)]);
    r
}

/// A two-entry object.
pub fn object2(k0: &str, v0: JsonValue, k1: &str, v1: JsonValue) -> (r: JsonValue)
    ensures
        r@ == JsonTree::Object(seq![(k0@, v0@), (k1@, v1@)]),
{
    let e = vec![(String::from_str(k0), v0), (String::from_str(k1), v1)];
    proof {
        lemma_entry_trees(e@);
    }
    let r = JsonValue::Object(e);
    assert(entry_trees(e@) == seq![(k0@, e@[0].1@), (k1@, e@[1].1@)]);
    r
}

/// A three-entry object.
pub fn object3(k0: &str, v0: JsonValue, k1: &str, v1: JsonValue, k2: &str, v2: JsonValue) -> (r: JsonValue)
    ensures
        r@ == JsonTree::Object(seq![(k0@, v0@), (k1@, v1@), (k2@, v2@)]),
{
    let e = vec![(String::from_str(k0), v0), (String::from_str(k1), v1), (String::from_str(k2), v2)];
    proof {
        lemma_entry_trees(e@);
    }
    let r = JsonValue::Object(e);
    assert(entry_trees(e@) == seq![(k0@, e@[0].1@), (k1@, e@[1].1@), (k2@, e@[2].1@)]);
    r
}

/// A four-entry object.
pub fn object4(k0: &str, v0: JsonValue, k1: &str, v1: JsonValue, k2: &str, v2: JsonValue, k3: &str, v3: JsonValue) -> (r: JsonValue)
    ensures
        r@ == JsonTree::Object(seq![(k0@, v0@), (k1@, v1@), (k2@, v2@), (k3@, v3@)]),
{
    let e = vec![(String::from_str(k0), v0), (String::from_str(k1), v1), (String::from_str(k2), v2), (String::from_str(k3), v3)];
    proof {
        lemma_entry_trees(e@);
    }
    let r = JsonValue::Object(e);
    assert(entry_trees(e@) == seq![(k0@, e@[0].1@), (k1@, e@[1].1@), (k2@, e@[2].1@), (k3@, e@[3].1@)]);
    r
}

/// A one-item array.
pub fn array1(v0: JsonValue) -> (r: JsonValue)
    ensures
        r@ == JsonTree::Array(seq![v0@]),
{
    let e = vec![v0];
    proof {
        lemma_trees_of(e@);
    }
    let r = JsonValue::Array(e);
    assert(trees_of(e@) == seq![e@[0]@]);
    r
}

/// A two-item array.
pub fn array2(v0: JsonValue, v1: JsonValue) -> (r: JsonValue)
    ensures
        r@ == JsonTree::Array(seq![v0@, v1@]),
{
    let e = vec![v0, v1];
    proof {
        lemma_trees_of(e@);
    }
    let r = JsonValue::Array(e);
    assert(trees_of(e@) == seq![e@[0]@, e@[1]@]);
    r
}


/// An array of strings.
pub fn text_array(texts: &[&str]) -> (r: JsonValue)
    ensures
        r@ == JsonTree::Array(Seq::new(texts@.len(), |i: int| JsonTree::Str(texts@[i]@))),
{
    let mut items: Vec<JsonValue> = Vec::new();
    let mut i: usize = 0;
    while i < texts.len()
        invariant
            i <= texts.len(),
            items@.len() == i,
            forall|k: int| 0 <= k < i ==> (#[trigger] items@[k])@ == JsonTree::Str(texts@[k]@),
        decreases texts.len() - i,
    {
        items.push(JsonValue::text(texts[i]));
        i = i + 1;
    }
    proof {
        lemma_trees_of(items@);
    }
    let r = JsonValue::Array(items);
    assert(trees_of(items@) == Seq::new(texts@.len(), |i: int| JsonTree::Str(texts@[i]@)));
    r
}


impl JsonValue {
    /// A copy of this value.
    #[verifier::loop_isolation(false)]
    pub fn deep_copy(&self) -> (r: JsonValue)
        ensures
            r@ == self@,
        decreases self,
    {
        match self {
            JsonValue::Null => JsonValue::Null,
            JsonValue::Bool(b) => JsonValue::Bool(*b),
            JsonValue::Number(n) => JsonValue::Number(n.clone()),
            JsonValue::Str(s) => JsonValue::Str(s.clone()),
            JsonValue::Array(items) => {
                let mut out: Vec<JsonValue> = Vec::new();
                let mut i: usize = 0;
                while i < items.len()
                    invariant
                        i <= items.len(),
                        out@.len() == i,
                        forall|k: int| 0 <= k < i ==> (#[trigger] out@[k])@ == items@[k]@,
                    decreases items.len() - i,
                {
                    assert(decreases_to!(*self => (*self)->Array_0));
                    assert(decreases_to!((*self)->Array_0 => items@));
                    assert(decreases_to!(items@ => items@[i as int]));
                    let c = items[i].deep_copy();
                    out.push(c);
                    i = i + 1;
                }
                proof {
                    lemma_trees_of(out@);
                    lemma_trees_of(items@);
                }
                assert(trees_of(out@) == trees_of(items@));
                JsonValue::Array(out)
            },
            JsonValue::Object(entries) => {
                let mut out: Vec<(String, JsonValue)> = Vec::new();
                let mut i: usize = 0;
                while i < entries.len()
                    invariant
                        i <= entries.len(),
                        out@.len() == i,
                        forall|k: int| 0 <= k < i ==> (#[trigger] out@[k]).0@ == entries@[k].0@ && out@[k].1@ == entries@[k].1@,
                    decreases entries.len() - i,
                {
                    assert(decreases_to!(*self => (*self)->Object_0));
                    assert(decreases_to!((*self)->Object_0 => entries@));
                    assert(decreases_to!(entries@ => entries@[i as int]));
                    assert(decreases_to!(entries@[i as int] => entries@[i as int].1));
                    let c = entries[i].1.deep_copy();
                    out.push((entries[i].0.clone(), c));
                    i = i + 1;
                }
                proof {
                    lemma_entry_trees(out@);
                    lemma_entry_trees(entries@);
                }
                assert(entry_trees(out@) == entry_trees(entries@));
                JsonValue::Object(out)
            },
        }
    }
}

/// The member `key` of an object, or null (`value[key]`).
pub open spec fn field_or_null(t: JsonTree, key: Seq<char>) -> JsonTree {
    match get(t, key) {
        Some(v) => v,
        None => JsonTree::Null,
    }
}

/// The item `i` of an array (`Value::get(i)`).
pub open spec fn item(t: JsonTree, i: int) -> Option<JsonTree> {
    match t {
        JsonTree::Array(items) => if 0 <= i < items.len() { Some(items[i]) } else { None },
        _ => None,
    }
}

impl JsonValue {
    /// The item `i` of an array; `None` out of range and for anything but
    /// an array.
    pub fn item(&self, i: usize) -> (r: Option<&JsonValue>)
        ensures
            r matches Some(x) ==> item(self@, i as int) == Some(x@),
            r is None ==> item(self@, i as int) is None,
    {
        match self {
            JsonValue::Array(items) => {
                proof {
                    lemma_trees_of(items@);
                }
                if i < items.len() {
                    Some(&items[i])
                } else {
                    None
                }
            },
            _ => None,
        }
    }
}


/// A five-entry object.
pub fn object5(k0: &str, v0: JsonValue, k1: &str, v1: JsonValue, k2: &str, v2: JsonValue, k3: &str, v3: JsonValue, k4: &str, v4: JsonValue) -> (r: JsonValue)
    ensures
        r@ == JsonTree::Object(seq![(k0@, v0@), (k1@, v1@), (k2@, v2@), (k3@, v3@), (k4@, v4@)]),
{
    let e = vec![(String::from_str(k0), v0), (String::from_str(k1), v1), (String::from_str(k2), v2), (String::from_str(k3), v3), (String::from_str(k4), v4)];
    proof {
        lemma_entry_trees(e@);
    }
    let r = JsonValue::Object(e);
    assert(entry_trees(e@) == seq![(k0@, e@[0].1@), (k1@, e@[1].1@), (k2@, e@[2].1@), (k3@, e@[3].1@), (k4@, e@[4].1@)]);
    r
}

/// A six-entry object.
pub fn object6(k0: &str, v0: JsonValue, k1: &str, v1: JsonValue, k2: &str, v2: JsonValue, k3: &str, v3: JsonValue, k4: &str, v4: JsonValue, k5: &str, v5: JsonValue) -> (r: JsonValue)
    ensures
        r@ == JsonTree::Object(seq![(k0@, v0@), (k1@, v1@), (k2@, v2@), (k3@, v3@), (k4@, v4@), (k5@, v5@)]),
{
    let e = vec![(String::from_str(k0), v0), (String::from_str(k1), v1), (String::from_str(k2), v2), (String::from_str(k3), v3), (String::from_str(k4), v4), (String::from_str(k5), v5)];
    proof {
        lemma_entry_trees(e@);
    }
    let r = JsonValue::Object(e);
    assert(entry_trees(e@) == seq![(k0@, e@[0].1@), (k1@, e@[1].1@), (k2@, e@[2].1@), (k3@, e@[3].1@), (k4@, e@[4].1@), (k5@, e@[5].1@)]);
    r
}

/// A three-item array.
pub fn array3(v0: JsonValue, v1: JsonValue, v2: JsonValue) -> (r: JsonValue)
    ensures
        r@ == JsonTree::Array(seq![v0@, v1@, v2@]),
{
    let e = vec![v0, v1, v2];
    proof {
        lemma_trees_of(e@);
    }
    let r = JsonValue::Array(e);
    assert(trees_of(e@) == seq![e@[0]@, e@[1]@, e@[2]@]);
    r
}

/// The JSON value that `serde_json::from_str::<serde_json::Value>` reads
/// from a text, when the text is JSON; numbers are kept as the text that
/// `serde_json::Number` displays.
pub uninterp spec fn json_of(text: Seq<char>) -> Option<JsonTree>;

/// Parses `text` with `serde_json::from_str::<serde_json::Value>` and
/// converts the value variant by variant (each member and item converted
/// the same way, from its own text). The contract claims only that the
/// result is `json_of` of the text: the JSON grammar is not stated.
#[verifier::external_body]
pub(crate) fn parse_json(text: &str) -> (r: Option<JsonValue>)
    ensures
        match r {
            Some(v) => json_of(text@) == Some(v@),
            None => json_of(text@) is None,
        },
{
    let value = serde_json::from_str::<Value>(text).ok()?;
    Some(match value {
        Value::Null => JsonValue::Null,
        Value::Bool(b) => JsonValue::Bool(b),
        Value::Number(n) => JsonValue::Number(n.to_string()),
        Value::String(s) => JsonValue::Str(s),
        Value::Array(xs) => JsonValue::Array(
            xs.iter().map(|x| parse_json(&x.to_string())).collect::<Option<Vec<JsonValue>>>()?,
        ),
        Value::Object(m) => JsonValue::Object(
            m.iter().map(|(k, x)| Some((k.clone(), parse_json(&x.to_string())?))).collect::<Option<Vec<(String, JsonValue)>>>()?,
        ),
    })
}


/// An object's member `key` is the value of its first entry with that key;
/// there is none when no entry has it.
pub proof fn law_get_first(es: Seq<(Seq<char>, JsonTree)>, key: Seq<char>, i: int)
    requires
        0 <= i <= es.len(),
    ensures
        key_index(es, key, i) matches Some(k) ==> i <= k < es.len() && es[k].0 == key
            && forall|j: int| i <= j < k ==> (#[trigger] es[j]).0 != key,
        key_index(es, key, i) is None ==> forall|j: int| i <= j < es.len() ==> (#[trigger] es[j]).0 != key,
    decreases es.len() - i,
{
    if i < es.len() && es[i].0 != key {
        law_get_first(es, key, i + 1);
    }
}

} // verus!
