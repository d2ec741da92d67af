//! JSON documents.

use vstd::prelude::*;
use crate::text_map::TextMap;
use crate::text;

verus! {

/// A JSON document.
#[derive(Debug, PartialEq, Eq)]
pub enum Json {
    /// `true` or `false`.
    Bool(bool),
    /// A whole number.
    Int(i64),
    /// A finite number with a fraction or an exponent, as JSON writes it.
    Float(String),
    /// A string.
    Str(String),
    /// An array.
    Array(Vec<Json>),
    /// An object, its members in the order of their names.
    Object(TextMap<Json>),
}

/// Whether a document is the given string.
pub open spec fn is_str(json: Json, value: Seq<char>) -> bool {
    json matches Json::Str(s) && s@ == value
}

/// Whether a document is an array of the given strings.
pub open spec fn is_str_list(json: Json, values: Seq<Seq<char>>) -> bool {
    &&& json matches Json::Array(items)
    &&& items@.len() == values.len()
    &&& forall|i: int| 0 <= i < values.len() ==> is_str(#[trigger] items@[i], values[i])
}

/// The array of a list of strings.
pub fn str_list(values: &Vec<String>) -> (json: Json)
    ensures
        is_str_list(json, text::texts(values@)),
{
    let mut items: Vec<Json> = Vec::new();
    let mut i: usize = 0;
    while i < values.len()
        invariant
            i <= values.len(),
            items@.len() == i,
            forall|j: int| 0 <= j < i ==> is_str(#[trigger] items@[j], values@[j]@),
        decreases values.len() - i,
    {
        items.push(Json::Str(values[i].clone()));
        i += 1;
    }
    Json::Array(items)
}

/// A character as a JSON string holds it.
pub open spec fn char_text(c: char) -> Seq<char> {
    if c == '"' {
        seq!['\\', '"']
    } else if c == '\\' {
        seq!['\\', '\\']
    } else if c == '\u{8}' {
        seq!['\\', 'b']
    } else if c == '\t' {
        seq!['\\', 't']
    } else if c == '\n' {
        seq!['\\', 'n']
    } else if c == '\u{c}' {
        seq!['\\', 'f']
    } else if c == '\r' {
        seq!['\\', 'r']
    } else if (c as u32) < 32 {
        seq!['\\', 'u', '0', '0'] + text::hex_text(seq![c as u8])
    } else {
        seq![c]
    }
}

/// The characters of a text as a JSON string holds them.
pub open spec fn escaped(s: Seq<char>) -> Seq<char>
    decreases s.len(),
{
    if s.len() == 0 {
        Seq::empty()
    } else {
        escaped(s.drop_last()) + char_text(s.last())
    }
}

/// A text as a JSON string.
pub open spec fn quoted(s: Seq<char>) -> Seq<char> {
    seq!['"'] + escaped(s) + seq!['"']
}

/// `<serde_json::Value as Display>::fmt` on `serde_json::Value::String`: the text
/// between quotes, with quotes, backslashes and the control characters below a
/// space escaped, and nothing else.
#[verifier::external_body]
fn quote(s: &str) -> (json: String)
    ensures
        json@ == quoted(s@),
{
    serde_json::Value::String(s.to_owned()).to_string()
}

/// A whole number in base ten.
pub open spec fn int_text(value: int) -> Seq<char> {
    if value < 0 {
        "-"@ + text::decimal_text((-value) as nat)
    } else {
        text::decimal_text(value as nat)
    }
}

/// The text of a document, without any space.
pub open spec fn json_text(json: Json) -> Seq<char>
    decreases json, 0int,
{
    match json {
        Json::Bool(true) => "true"@,
        Json::Bool(false) => "false"@,
        Json::Int(value) => int_text(value as int),
        Json::Float(number) => number@,
        Json::Str(s) => quoted(s@),
        Json::Array(items) => "["@ + items_text(items@, 0) + "]"@,
        Json::Object(map) => "{"@ + members_text(map.entries@, 0) + "}"@,
    }
}

/// The text of an object, without any space.
pub open spec fn object_text(map: TextMap<Json>) -> Seq<char> {
    "{"@ + members_text(map.entries@, 0) + "}"@
}

/// The items of an array from `from` on.
pub open spec fn items_text(items: Seq<Json>, from: int) -> Seq<char>
    decreases items, items.len() - from,
{
    if 0 <= from < items.len() {
        let comma = if from == 0 {
            ""@
        } else {
            ","@
        };
        comma + json_text(items[from]) + items_text(items, from + 1)
    } else {
        Seq::empty()
    }
}

/// The members of an object from `from` on.
pub open spec fn members_text(entries: Seq<(String, Json)>, from: int) -> Seq<char>
    decreases entries, entries.len() - from,
{
    if 0 <= from < entries.len() {
        let comma = if from == 0 {
            ""@
        } else {
            ","@
        };
        comma + quoted(entries[from].0@) + ":"@ + json_text(entries[from].1) + members_text(
            entries,
            from + 1,
        )
    } else {
        Seq::empty()
    }
}

fn write_int(value: i64) -> (s: String)
    ensures
        s@ == int_text(value as int),
{
    if value < 0 {
        let size: u64 = (-(value + 1)) as u64 + 1;
        "-".to_owned().concat(&text::decimal(size))
    } else {
        text::decimal(value as u64)
    }
}

/// The text of a document, without any space, the members of an object in their
/// order.
pub fn to_text(json: &Json) -> (s: String)
    ensures
        s@ == json_text(*json),
    decreases json,
{
    match json {
        Json::Bool(value) => if *value {
            "true".to_owned()
        } else {
            "false".to_owned()
        },
        Json::Int(value) => write_int(*value),
        Json::Float(number) => number.clone(),
        Json::Str(s) => quote(s),
        Json::Array(items) => {
            let mut s = "[".to_owned();
            let ghost all = "["@ + items_text(items@, 0);
            let mut i: usize = 0;
            while i < items.len()
                invariant
                    *json == (Json::Array(*items)),
                    i <= items@.len(),
                    all == "["@ + items_text(items@, 0),
                    s@ + items_text(items@, i as int) == all,
                decreases items.len() - i,
            {
                let comma = if i == 0 {
                    ""
                } else {
                    ","
                };
                assert(decreases_to!(*json => json->Array_0));
                assert(decreases_to!(*items => items@));
                assert(decreases_to!(items@ => items@[i as int]));
                let item = to_text(&items[i]);
                let ghost rest = items_text(items@, i + 1);
                assert(s@ + (comma@ + item@ + rest) == s@ + comma@ + item@ + rest);
                s = s.concat(comma).concat(&item);
                i += 1;
            }
            assert(s@ + Seq::<char>::empty() == s@);
            s.concat("]")
        },
        Json::Object(map) => {
            assert(decreases_to!(*json => json->Object_0));
            object_to_text(map)
        },
    }
}

/// The text of an object, without any space, its members in their order.
pub fn object_to_text(map: &TextMap<Json>) -> (s: String)
    ensures
        s@ == object_text(*map),
    decreases map,
{
    let entries = &map.entries;
    let mut s = "{".to_owned();
    let ghost all = "{"@ + members_text(entries@, 0);
    let mut i: usize = 0;
    while i < entries.len()
        invariant
            *entries == map.entries,
            i <= entries@.len(),
            all == "{"@ + members_text(entries@, 0),
            s@ + members_text(entries@, i as int) == all,
        decreases entries.len() - i,
    {
        let comma = if i == 0 {
            ""
        } else {
            ","
        };
        let name = quote(&entries[i].0);
        assert(decreases_to!(*map => map.entries));
        assert(decreases_to!(*entries => entries@));
        assert(decreases_to!(entries@ => entries@[i as int]));
        assert(decreases_to!(entries@[i as int] => entries@[i as int].1));
        let value = to_text(&entries[i].1);
        let ghost rest = members_text(entries@, i + 1);
        assert(s@ + (comma@ + name@ + ":"@ + value@ + rest) == s@ + comma@ + name@ + ":"@ + value@
            + rest);
        s = s.concat(comma).concat(&name).concat(":").concat(&value);
        i += 1;
    }
    assert(s@ + Seq::<char>::empty() == s@);
    s.concat("}")
}

} // verus!
