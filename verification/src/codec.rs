//! Documents as text: parsing and printing are `serde_json`'s, and the
//! conversion between its values and `Json` is verified against one-level
//! statements of what such a value holds.

use crate::json::items_view;
use crate::json::Json;
use crate::json::JsonValue;
use crate::json::lemma_members_map_dom;
use crate::json::lemma_members_map_last;
use crate::json::lemma_members_map_push;
use crate::json::members_map;
use crate::json::members_view;
use vstd::pervasive::unreached;
use vstd::prelude::*;

verus! {

/// `serde_json`'s own tree of a JSON document.
#[verifier::external_type_specification]
#[verifier::external_body]
pub struct ExValue(serde_json::Value);

/// `serde_json`'s map from member keys to values, which an object holds.
#[verifier::external_type_specification]
#[verifier::external_body]
#[verifier::reject_recursive_types(K)]
#[verifier::reject_recursive_types(V)]
pub struct ExMap<K, V>(serde_json::Map<K, V>);

/// What `serde_json` reports when a text is not JSON.
#[verifier::external_type_specification]
#[verifier::external_body]
pub struct ExError(serde_json::Error);

/// The JSON value that a `serde_json::Value` holds.
pub uninterp spec fn value_model(value: serde_json::Value) -> JsonValue;

/// The members that a `serde_json::Map` holds.
pub uninterp spec fn map_model(members: serde_json::Map<String, serde_json::Value>) -> Map<
    Seq<char>,
    JsonValue,
>;

/// The value that `serde_json::from_str` reads from a text; `None` where it
/// reports an error.
pub uninterp spec fn json_parse(text: Seq<char>) -> Option<JsonValue>;

/// The text that `serde_json::to_string` prints for a value.
pub uninterp spec fn json_text(value: JsonValue) -> Seq<char>;

/// The map of an object without members.
spec fn empty_members() -> Map<Seq<char>, JsonValue> {
    Map::empty()
}

/// One level of a `serde_json::Value`: its variant, with what the variant holds.
enum Shape {
    Null,
    Bool(bool),
    Number(serde_json::Number),
    String(String),
    Array(Vec<serde_json::Value>),
    Object(serde_json::Map<String, serde_json::Value>),
}

/// The values that a list of `serde_json` values holds.
spec fn values_model(items: Seq<serde_json::Value>) -> Seq<JsonValue> {
    Seq::new(items.len(), |i: int| value_model(items[i]))
}

/// The members that a list of keys with `serde_json` values stands for.
spec fn entries_model(entries: Seq<(String, serde_json::Value)>) -> Seq<
    (Seq<char>, JsonValue),
> {
    Seq::new(entries.len(), |i: int| (entries[i].0@, value_model(entries[i].1)))
}

/// The JSON value that a `Shape` stands for.
spec fn shape_model(shape: Shape) -> JsonValue {
    match shape {
        Shape::Null => JsonValue::Null,
        Shape::Bool(b) => JsonValue::Bool(b),
        Shape::Number(n) => JsonValue::Number(n),
        Shape::String(s) => JsonValue::String(s@),
        Shape::Array(items) => JsonValue::Array(values_model(items@)),
        Shape::Object(members) => JsonValue::Object(map_model(members)),
    }
}

/// Takes a `serde_json::Value` apart by its variant. The shape holds what the
/// value held: the same scalar, the same items, the same members.
#[verifier::external_body]
fn open(value: serde_json::Value) -> (shape: Shape)
    ensures
        shape_model(shape) == value_model(value),
{
    match value {
        serde_json::Value::Null => Shape::Null,
        serde_json::Value::Bool(b) => Shape::Bool(b),
        serde_json::Value::Number(n) => Shape::Number(n),
        serde_json::Value::String(s) => Shape::String(s),
        serde_json::Value::Array(items) => Shape::Array(items),
        serde_json::Value::Object(members) => Shape::Object(members),
    }
}

/// Builds the `serde_json::Value` of a variant from what the variant holds.
#[verifier::external_body]
fn close(shape: Shape) -> (value: serde_json::Value)
    ensures
        value_model(value) == shape_model(shape),
{
    match shape {
        Shape::Null => serde_json::Value::Null,
        Shape::Bool(b) => serde_json::Value::Bool(b),
        Shape::Number(n) => serde_json::Value::Number(n),
        Shape::String(s) => serde_json::Value::String(s),
        Shape::Array(items) => serde_json::Value::Array(items),
        Shape::Object(members) => serde_json::Value::Object(members),
    }
}

/// `serde_json::Map::new`: a map without members.
#[verifier::external_body]
fn map_new() -> (members: serde_json::Map<String, serde_json::Value>)
    ensures
        map_model(members) == empty_members(),
{
    serde_json::Map::new()
}

/// `serde_json::Map::insert`: the key then stands for the value, whether or not
/// it stood for one before; no other member changes.
#[verifier::external_body]
fn map_insert(
    members: &mut serde_json::Map<String, serde_json::Value>,
    key: String,
    value: serde_json::Value,
)
    ensures
        map_model(*final(members)) == map_model(*old(members)).insert(key@, value_model(value)),
{
    members.insert(key, value);
}

/// The iterator of a `serde_json::Map`, collected: every member once, so no
/// key comes twice and the list stands for the same map.
#[verifier::external_body]
fn map_entries(members: serde_json::Map<String, serde_json::Value>) -> (entries: Vec<
    (String, serde_json::Value),
>)
    ensures
        members_map(entries_model(entries@)) == map_model(members),
        forall|i: int, j: int|
            0 <= i < j < entries@.len() ==> entries@[i].0@ != entries@[j].0@,
{
    members.into_iter().collect()
}

/// `serde_json::from_str` at `serde_json::Value`: the value that the text
/// reads as, or the error.
#[verifier::external_body]
fn read_value(text: &str) -> (outcome: Result<serde_json::Value, serde_json::Error>)
    ensures
        match outcome {
            Ok(value) => json_parse(text@) == Some(value_model(value)),
            Err(_) => json_parse(text@) is None,
        },
{
    serde_json::from_str::<serde_json::Value>(text)
}

/// `serde_json::to_string` at `serde_json::Value`: the text of the value. It
/// reports an error only for a map with keys that are no strings or a type
/// whose own serialization fails, and a `Value` is neither.
#[verifier::external_body]
fn print_value(value: &serde_json::Value) -> (outcome: Result<String, serde_json::Error>)
    ensures
        match outcome {
            Ok(text) => text@ == json_text(value_model(*value)),
            Err(_) => false,
        },
{
    serde_json::to_string(value)
}

/// The `serde_json::Value` of a document.
pub fn to_value(doc: &Json) -> (value: serde_json::Value)
    ensures
        value_model(value) == doc@,
    decreases doc,
{
    match doc {
        Json::Null => close(Shape::Null),
        Json::Bool(b) => close(Shape::Bool(*b)),
        Json::Number(n) => close(Shape::Number(n.clone())),
        Json::String(s) => close(Shape::String(s.clone())),
        Json::Array(items) => {
            let mut out: Vec<serde_json::Value> = Vec::new();
            let mut i: usize = 0;
            while i < items.len()
                invariant
                    *doc == Json::Array(*items),
                    i <= items@.len(),
                    out@.len() == i,
                    forall|j: int| 0 <= j < i ==> value_model(out@[j]) == items@[j]@,
                decreases items@.len() - i,
            {
                proof {
                    vstd::std_specs::vec::axiom_vec_index_decreases(*items, i as int);
                    assert(doc->Array_0 == *items);
                }
                let item = to_value(&items[i]);
                out.push(item);
                i += 1;
            }
            proof {
                assert(values_model(out@) =~= items_view(items@));
            }
            close(Shape::Array(out))
        },
        Json::Object(members) => {
            let mut out = map_new();
            let mut i: usize = 0;
            while i < members.len()
                invariant
                    *doc == Json::Object(*members),
                    i <= members@.len(),
                    map_model(out) == members_map(members_view(members@).subrange(0, i as int)),
                decreases members@.len() - i,
            {
                proof {
                    vstd::std_specs::vec::axiom_vec_index_decreases(*members, i as int);
                    assert(doc->Object_0 == *members);
                }
                let value = to_value(&members[i].1);
                proof {
                    let all = members_view(members@);
                    lemma_members_map_push(all.subrange(0, i as int), all[i as int]);
                    assert(all.subrange(0, i as int).push(all[i as int]) =~= all.subrange(
                        0,
                        i + 1,
                    ));
                }
                map_insert(&mut out, members[i].0.clone(), value);
                i += 1;
            }
            proof {
                let all = members_view(members@);
                assert(all.subrange(0, i as int) =~= all);
            }
            close(Shape::Object(out))
        },
    }
}

/// The document that a `serde_json::Value` holds.
pub fn from_value(value: serde_json::Value) -> (doc: Json)
    ensures
        doc@ == value_model(value),
    decreases value_model(value),
{
    let ghost whole = value_model(value);
    match open(value) {
        Shape::Null => Json::Null,
        Shape::Bool(b) => Json::Bool(b),
        Shape::Number(n) => Json::Number(n),
        Shape::String(s) => Json::String(s),
        Shape::Array(items) => {
            let ghost models = values_model(items@);
            let mut items = items;
            let mut out: Vec<Json> = Vec::new();
            while items.len() > 0
                invariant
                    whole == value_model(value),
                    whole == JsonValue::Array(models),
                    items@.len() + out@.len() == models.len(),
                    forall|j: int| 0 <= j < items@.len() ==> value_model(items@[j]) == models[j],
                    forall|j: int|
                        0 <= j < out@.len() ==> out@[j]@ == models[models.len() - 1 - j],
                decreases items@.len(),
            {
                let ghost at = items@.len() - 1;
                let item = items.pop().unwrap();
                proof {
                    assert(whole->Array_0 == models);
                    assert(value_model(item) == models[at]);
                }
                let decoded = from_value(item);
                out.push(decoded);
            }
            let out = reversed(out);
            proof {
                assert(items_view(out@) =~= models);
            }
            Json::Array(out)
        },
        Shape::Object(members) => {
            let ghost held = map_model(members);
            let mut entries = map_entries(members);
            let ghost models = entries_model(entries@);
            let mut out: Vec<(String, Json)> = Vec::new();
            while entries.len() > 0
                invariant
                    whole == value_model(value),
                    whole == JsonValue::Object(held),
                    held == members_map(models),
                    forall|i: int, j: int| 0 <= i < j < models.len() ==> models[i].0 != models[j].0,
                    entries@.len() + out@.len() == models.len(),
                    forall|j: int|
                        0 <= j < entries@.len() ==> entries@[j].0@ == models[j].0 && value_model(
                            entries@[j].1,
                        ) == models[j].1,
                    forall|j: int|
                        0 <= j < out@.len() ==> out@[j].0@ == models[models.len() - 1 - j].0
                            && out@[j].1@ == models[models.len() - 1 - j].1,
                decreases entries@.len(),
            {
                let ghost at = entries@.len() - 1;
                let entry = entries.pop().unwrap();
                proof {
                    assert(whole->Object_0 == held);
                    lemma_members_map_dom(models);
                    lemma_members_map_last(models, at);
                    vstd::map::axiom_map_index_decreases_finite(held, models[at].0);
                    assert(value_model(entry.1) == held[models[at].0]);
                }
                let decoded = from_value(entry.1);
                out.push((entry.0, decoded));
            }
            let out = reversed(out);
            proof {
                assert(members_view(out@) =~= models);
            }
            Json::Object(out)
        },
    }
}

/// The same items, last first.
fn reversed<T>(items: Vec<T>) -> (out: Vec<T>)
    ensures
        out@.len() == items@.len(),
        forall|j: int| 0 <= j < out@.len() ==> out@[j] == items@[items@.len() - 1 - j],
{
    let mut items = items;
    let ghost given = items@;
    let mut out: Vec<T> = Vec::new();
    while items.len() > 0
        invariant
            items@.len() + out@.len() == given.len(),
            forall|j: int| 0 <= j < items@.len() ==> items@[j] == given[j],
            forall|j: int| 0 <= j < out@.len() ==> out@[j] == given[given.len() - 1 - j],
        decreases items@.len(),
    {
        let item = items.pop().unwrap();
        out.push(item);
    }
    out
}

/// Reads a document from JSON text; `None` where the text is not JSON.
pub fn parse_json(text: &str) -> (doc: Option<Json>)
    ensures
        match doc {
            Some(doc) => json_parse(text@) == Some(doc@),
            None => json_parse(text@) is None,
        },
{
    match read_value(text) {
        Ok(value) => Some(from_value(value)),
        Err(_) => None,
    }
}

/// The JSON text of a document, on one line.
pub fn to_text(doc: &Json) -> (text: String)
    ensures
        text@ == json_text(doc@),
{
    let value = to_value(doc);
    match print_value(&value) {
        Ok(text) => text,
        Err(_) => unreached(),
    }
}

} // verus!
