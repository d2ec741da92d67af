//! What a model becomes as a document, told by what is found in it.

use vstd::prelude::*;
use crate::driver::model;
use crate::json::Json;
use crate::value::{Number, Value};

verus! {

/// The value that steps into lists and blocks lead to.
pub open spec fn value_at(value: Value, steps: Seq<int>) -> Option<Value>
    decreases steps.len(),
{
    if steps.len() == 0 {
        Some(value)
    } else {
        match value {
            Value::List(items) => if 0 <= steps[0] < items@.len() {
                value_at(items@[steps[0]], steps.drop_first())
            } else {
                None
            },
            Value::Block(map) => if 0 <= steps[0] < map.entries@.len() {
                value_at(map.entries@[steps[0]].1, steps.drop_first())
            } else {
                None
            },
            _ => None,
        }
    }
}

/// The document that steps into arrays and objects lead to.
pub open spec fn json_at(document: Json, steps: Seq<int>) -> Option<Json>
    decreases steps.len(),
{
    if steps.len() == 0 {
        Some(document)
    } else {
        match document {
            Json::Array(items) => if 0 <= steps[0] < items@.len() {
                json_at(items@[steps[0]], steps.drop_first())
            } else {
                None
            },
            Json::Object(map) => if 0 <= steps[0] < map.entries@.len() {
                json_at(map.entries@[steps[0]].1, steps.drop_first())
            } else {
                None
            },
            _ => None,
        }
    }
}

/// Whether a document shows a value: texts, versions and coordinates as strings,
/// lists as arrays of as many items, blocks and properties as objects with the
/// same keys, and references to modules as objects that name the module.
pub open spec fn shows(document: Json, value: Value) -> bool {
    match value {
        Value::Str(s) => document matches Json::Str(t) && t@ == s@,
        Value::Version(s) => document matches Json::Str(t) && t@ == s@,
        Value::Coordinate(s) => document matches Json::Str(t) && t@ == s@,
        Value::Number(Number::Int(n)) => document == Json::Int(n),
        Value::Number(Number::Float { shown, .. }) => document matches Json::Float(t) && t@
            == shown@,
        Value::Bool(b) => document == Json::Bool(b),
        Value::List(items) => document matches Json::Array(array) && array@.len() == items@.len(),
        Value::Block(map) => document matches Json::Object(object) && object.entries@.len()
            == map.entries@.len() && forall|i: int|
            0 <= i < map.entries@.len() ==> (#[trigger] object.entries@[i]).0@
                == map.entries@[i].0@,
        Value::Properties(map) => document matches Json::Object(object) && object.entries@.len()
            == map.entries@.len() && forall|i: int|
            0 <= i < map.entries@.len() ==> (#[trigger] object.entries@[i]).0@
                == map.entries@[i].0@ && (object.entries@[i].1 matches Json::Str(t) && t@
                == map.entries@[i].1@),
        Value::ProjectRef(path) => document matches Json::Object(object) && object.entries@.len()
            == 1 && object.entries@[0].0@ == "project"@ && (
        object.entries@[0].1 matches Json::Str(t) && t@ == path@),
        Value::Invalid(_) => false,
    }
}

/// Everything in a model is found in its document at the same place.
pub proof fn law_documents_show_their_model(document: Json, value: Value, steps: Seq<int>)
    requires
        model::is_json(document, value),
        value_at(value, steps) is Some,
    ensures
        json_at(document, steps) matches Some(found) && shows(found, value_at(value, steps)->0),
    decreases steps.len(),
{
    if steps.len() == 0 {
        assert(shows(document, value));
    } else {
        let at = steps[0];
        match value {
            Value::List(items) => {
                let array = document->Array_0;
                assert(model::is_json(array@[at], items@[at]));
                law_documents_show_their_model(array@[at], items@[at], steps.drop_first());
            },
            Value::Block(map) => {
                let object = document->Object_0;
                assert(object.entries@[at].0@ == map.entries@[at].0@);
                law_documents_show_their_model(
                    object.entries@[at].1,
                    map.entries@[at].1,
                    steps.drop_first(),
                );
            },
            _ => {},
        }
    }
}

/// Whether a value has no document: it could not be evaluated, or is a number
/// that JSON cannot write.
pub open spec fn cannot_be_shown(value: Value) -> bool {
    value is Invalid || (value matches Value::Number(Number::Float { finite, .. }) && !finite)
}

proof fn lemma_item_fault(items: Seq<Value>, from: int, i: int)
    requires
        0 <= from <= i < items.len(),
        model::fault_of(items[i]) is Some,
    ensures
        model::item_fault(items, from) is Some,
    decreases i - from,
{
    if from < i {
        lemma_item_fault(items, from + 1, i);
    }
}

proof fn lemma_entry_fault(entries: Seq<(String, Value)>, from: int, i: int)
    requires
        0 <= from <= i < entries.len(),
        model::fault_of(entries[i].1) is Some,
    ensures
        model::entry_fault(entries, from) is Some,
    decreases i - from,
{
    if from < i {
        lemma_entry_fault(entries, from + 1, i);
    }
}

/// A model is refused where anything in it cannot be shown, however deep.
pub proof fn law_unresolved_values_are_refused(value: Value, steps: Seq<int>)
    requires
        value_at(value, steps) matches Some(inner) && cannot_be_shown(inner),
    ensures
        model::fault_of(value) is Some,
    decreases steps.len(),
{
    if steps.len() > 0 {
        let at = steps[0];
        match value {
            Value::List(items) => {
                law_unresolved_values_are_refused(items@[at], steps.drop_first());
                lemma_item_fault(items@, 0, at);
            },
            Value::Block(map) => {
                law_unresolved_values_are_refused(map.entries@[at].1, steps.drop_first());
                lemma_entry_fault(map.entries@, 0, at);
            },
            _ => {},
        }
    }
}

proof fn lemma_item_found(items: Seq<Value>, from: int) -> (i: int)
    requires
        0 <= from,
        model::item_fault(items, from) is Some,
    ensures
        from <= i < items.len(),
        model::fault_of(items[i]) is Some,
    decreases items.len() - from,
{
    if model::fault_of(items[from]) is Some {
        from
    } else {
        lemma_item_found(items, from + 1)
    }
}

proof fn lemma_entry_found(entries: Seq<(String, Value)>, from: int) -> (i: int)
    requires
        0 <= from,
        model::entry_fault(entries, from) is Some,
    ensures
        from <= i < entries.len(),
        model::fault_of(entries[i].1) is Some,
    decreases entries.len() - from,
{
    if model::fault_of(entries[from].1) is Some {
        from
    } else {
        lemma_entry_found(entries, from + 1)
    }
}

/// Nothing else is refused: what is refused holds something that cannot be shown.
pub proof fn law_only_unresolved_values_are_refused(value: Value) -> (steps: Seq<int>)
    requires
        model::fault_of(value) is Some,
    ensures
        value_at(value, steps) matches Some(inner) && cannot_be_shown(inner),
    decreases value,
{
    match value {
        Value::List(items) => {
            let i = lemma_item_found(items@, 0);
            assert(decreases_to!(items@ => items@[i]));
            let inner = law_only_unresolved_values_are_refused(items@[i]);
            let steps = seq![i] + inner;
            assert(steps.drop_first() =~= inner);
            steps
        },
        Value::Block(map) => {
            let i = lemma_entry_found(map.entries@, 0);
            assert(decreases_to!(map.entries@ => map.entries@[i]));
            let inner = law_only_unresolved_values_are_refused(map.entries@[i].1);
            let steps = seq![i] + inner;
            assert(steps.drop_first() =~= inner);
            steps
        },
        _ => Seq::empty(),
    }
}

} // verus!
