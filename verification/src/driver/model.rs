//! The module model as plugins see it.

use vstd::prelude::*;
use crate::json;
use crate::json::Json;
use crate::text_map;
use crate::text_map::TextMap;
use crate::value::{Number, Value};

verus! {

/// Whether a document is the JSON of a value: scalars have their natural
/// types (versions and coordinates are strings), a list is an array, and a
/// block is an object with the same members in the same order.
pub open spec fn is_json(document: Json, value: Value) -> bool
    decreases value,
{
    match value {
        Value::Str(s) => json::is_str(document, s@),
        Value::Number(Number::Int(n)) => document == Json::Int(n),
        Value::Number(Number::Float { shown, finite }) => finite && (document matches Json::Float(
            number,
        ) && number@ == shown@),
        Value::Bool(b) => document == Json::Bool(b),
        Value::List(items) => document matches Json::Array(array) && array@.len() == items@.len()
            && forall|i: int|
            0 <= i < items@.len() ==> is_json(#[trigger] array@[i], items@[i]),
        Value::Version(s) => json::is_str(document, s@),
        Value::Coordinate(s) => json::is_str(document, s@),
        Value::Properties(map) => document matches Json::Object(object) && object.entries@.len()
            == map.entries@.len() && forall|i: int|
            0 <= i < map.entries@.len() ==> (#[trigger] object.entries@[i]).0@
                == map.entries@[i].0@ && json::is_str(object.entries@[i].1, map.entries@[i].1@),
        Value::Block(map) => document matches Json::Object(object) && object.entries@.len()
            == map.entries@.len() && forall|i: int|
            0 <= i < map.entries@.len() ==> (#[trigger] object.entries@[i]).0@
                == map.entries@[i].0@ && is_json(object.entries@[i].1, map.entries@[i].1),
        Value::Invalid(_) => false,
        Value::ProjectRef(path) => document matches Json::Object(object) && object.entries@.len()
            == 1 && object.entries@[0].0@ == "project"@ && json::is_str(
            object.entries@[0].1,
            path@,
        ),
    }
}

/// Why a value has no JSON, where it has none: it holds a value that could not
/// be evaluated or a number that is not finite. The first one counts.
pub open spec fn fault_of(value: Value) -> Option<Seq<char>>
    decreases value, 0int,
{
    match value {
        Value::Number(Number::Float { shown, finite }) => if finite {
            None
        } else {
            Some("cannot serialize number "@ + shown@)
        },
        Value::List(items) => item_fault(items@, 0),
        Value::Block(map) => entry_fault(map.entries@, 0),
        Value::Invalid(message) => Some("cannot serialize an unresolved value: "@ + message@),
        _ => None,
    }
}

/// The first fault of the values from `from` on.
pub open spec fn item_fault(items: Seq<Value>, from: int) -> Option<Seq<char>>
    decreases items, items.len() - from,
{
    if 0 <= from < items.len() {
        match fault_of(items[from]) {
            Some(message) => Some(message),
            None => item_fault(items, from + 1),
        }
    } else {
        None
    }
}

/// The first fault of the members from `from` on.
pub open spec fn entry_fault(entries: Seq<(String, Value)>, from: int) -> Option<Seq<char>>
    decreases entries, entries.len() - from,
{
    if 0 <= from < entries.len() {
        match fault_of(entries[from].1) {
            Some(message) => Some(message),
            None => entry_fault(entries, from + 1),
        }
    } else {
        None
    }
}

fn properties_json(values: &TextMap<String>) -> (document: Json)
    ensures
        is_json(document, Value::Properties(*values)),
{
    let mut entries: Vec<(String, Json)> = Vec::new();
    let mut i: usize = 0;
    while i < values.entries.len()
        invariant
            i <= values.entries@.len(),
            entries@.len() == i,
            forall|j: int|
                0 <= j < i ==> (#[trigger] entries@[j]).0@ == values.entries@[j].0@
                    && json::is_str(entries@[j].1, values.entries@[j].1@),
        decreases values.entries.len() - i,
    {
        entries.push((values.entries[i].0.clone(), Json::Str(values.entries[i].1.clone())));
        i += 1;
    }
    Json::Object(TextMap { entries })
}

/// Serializes a resolved module model value to JSON.
///
/// Scalars map to their natural JSON types (`Version`/`Coordinate`/
/// `Properties` flatten to strings), blocks to objects, and lists to
/// arrays. Repeated scalar pair keys accumulate into a list upstream, so a key
/// that appears twice in a block becomes an array rather than silently losing
/// an entry.
///
/// # Errors
///
/// Returns a description when the model holds a value that could not be
/// evaluated or a number that JSON cannot write.
pub fn module_model_to_json(model: &Value) -> (result: Result<Json, String>)
    ensures
        match fault_of(*model) {
            None => result matches Ok(document) && is_json(document, *model),
            Some(message) => result matches Err(error) && error@ == message,
        },
    decreases model,
{
    match model {
        Value::Str(value) => Ok(Json::Str(value.clone())),
        Value::Number(number) => match number {
            Number::Int(value) => Ok(Json::Int(*value)),
            Number::Float { shown, finite } => if *finite {
                Ok(Json::Float(shown.clone()))
            } else {
                Err("cannot serialize number ".to_owned().concat(shown))
            },
        },
        Value::Bool(value) => Ok(Json::Bool(*value)),
        Value::List(items) => {
            let mut array: Vec<Json> = Vec::new();
            let mut i: usize = 0;
            while i < items.len()
                invariant
                    *model == (Value::List(*items)),
                    i <= items@.len(),
                    array@.len() == i,
                    forall|j: int| 0 <= j < i ==> is_json(#[trigger] array@[j], items@[j]),
                    fault_of(*model) == item_fault(items@, i as int),
                decreases items.len() - i,
            {
                match module_model_to_json(&items[i]) {
                    Ok(item) => array.push(item),
                    Err(message) => return Err(message),
                }
                i += 1;
            }
            Ok(Json::Array(array))
        },
        Value::Version(value) => Ok(Json::Str(value.clone())),
        Value::Coordinate(value) => Ok(Json::Str(value.clone())),
        Value::Properties(values) => Ok(properties_json(values)),
        Value::Block(map) => {
            let mut entries: Vec<(String, Json)> = Vec::new();
            let mut i: usize = 0;
            while i < map.entries.len()
                invariant
                    *model == (Value::Block(*map)),
                    i <= map.entries@.len(),
                    entries@.len() == i,
                    forall|j: int|
                        0 <= j < i ==> (#[trigger] entries@[j]).0@ == map.entries@[j].0@
                            && is_json(entries@[j].1, map.entries@[j].1),
                    fault_of(*model) == entry_fault(map.entries@, i as int),
                decreases map.entries.len() - i,
            {
                match module_model_to_json(&map.entries[i].1) {
                    Ok(member) => entries.push((map.entries[i].0.clone(), member)),
                    Err(message) => return Err(message),
                }
                i += 1;
            }
            Ok(Json::Object(TextMap { entries }))
        },
        Value::Invalid(message) => Err(
            "cannot serialize an unresolved value: ".to_owned().concat(message),
        ),
        Value::ProjectRef(path) => {
            let mut entries: Vec<(String, Json)> = Vec::new();
            entries.push(("project".to_owned(), Json::Str(path.clone())));
            Ok(Json::Object(TextMap { entries }))
        },
    }
}

proof fn lemma_same_fault(a: Seq<(String, Value)>, b: Seq<(String, Value)>, from: int)
    requires
        a.len() == b.len(),
        forall|i: int| 0 <= i < a.len() ==> (#[trigger] a[i]).1 == b[i].1,
        0 <= from <= a.len(),
    ensures
        entry_fault(a, from) == entry_fault(b, from),
    decreases a.len() - from,
{
    if from < a.len() {
        assert(a[from].1 == b[from].1);
        lemma_same_fault(a, b, from + 1);
    }
}

/// The order in which a block's entries were given does not show in its JSON:
/// two blocks with the same contents have the same documents, and where one
/// has none, the other has none for the same reason.
pub proof fn law_key_order_is_irrelevant(a: TextMap<Value>, b: TextMap<Value>, document: Json)
    requires
        a.wf(),
        b.wf(),
        a@ == b@,
    ensures
        is_json(document, Value::Block(a)) == is_json(document, Value::Block(b)),
        fault_of(Value::Block(a)) == fault_of(Value::Block(b)),
{
    text_map::law_order_is_canonical(a, b);
    lemma_same_fault(a.entries@, b.entries@, 0);
    if let Json::Object(object) = document {
        if is_json(document, Value::Block(a)) {
            assert forall|i: int| 0 <= i < b.entries@.len() implies (
            #[trigger] object.entries@[i]).0@ == b.entries@[i].0@ && is_json(
                object.entries@[i].1,
                b.entries@[i].1,
            ) by {
                assert(a.entries@[i].0@ == b.entries@[i].0@);
            }
        }
        if is_json(document, Value::Block(b)) {
            assert forall|i: int| 0 <= i < a.entries@.len() implies (
            #[trigger] object.entries@[i]).0@ == a.entries@[i].0@ && is_json(
                object.entries@[i].1,
                a.entries@[i].1,
            ) by {
                assert(a.entries@[i].0@ == b.entries@[i].0@);
            }
        }
    }
}

} // verus!
