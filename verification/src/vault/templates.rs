//! Where the vault keeps its templates: the folder that Obsidian's template
//! settings name.

use vstd::prelude::*;
use crate::text::{chars_eq, chars_of};

verus! {

/// A JSON value, as plain data.
pub enum JsonValue {
    Null,
    Bool(bool),
    /// A number, as `serde_json` prints it.
    Number(String),
    Str(String),
    Array(Vec<JsonValue>),
    /// An object's members, each key once.
    Object(Vec<(String, JsonValue)>),
}

/// What `serde_json::from_str::<serde_json::Value>` yields for `source`, or
/// `None` when the text is not JSON.
pub uninterp spec fn json_document(source: Seq<char>) -> Option<JsonValue>;

/// `serde_json::Value`, a JSON value, seen only by the conversion below.
#[verifier::external_type_specification]
#[verifier::external_body]
pub struct ExJsonValue(serde_json::Value);

/// Converts a `serde_json::Value` into a `JsonValue`, variant by variant.
#[verifier::external_body]
fn json_value(v: &serde_json::Value) -> JsonValue {
    match v {
        serde_json::Value::Null => JsonValue::Null,
        serde_json::Value::Bool(b) => JsonValue::Bool(*b),
        serde_json::Value::Number(n) => JsonValue::Number(n.to_string()),
        serde_json::Value::String(s) => JsonValue::Str(s.clone()),
        serde_json::Value::Array(a) => JsonValue::Array(a.iter().map(json_value).collect()),
        serde_json::Value::Object(m) => JsonValue::Object(
            m.iter().map(|(k, x)| (k.clone(), json_value(x))).collect(),
        ),
    }
}

/// Calls `serde_json::from_str` to read a JSON value (see `json_document`).
#[verifier::external_body]
fn load_json(source: &str) -> (r: Option<JsonValue>)
    ensures
        r == json_document(source@),
{
    match serde_json::from_str::<serde_json::Value>(source) {
        Ok(v) => Some(json_value(&v)),
        Err(_) => None,
    }
}

pub open spec fn folder_key() -> Seq<char> {
    seq!['f', 'o', 'l', 'd', 'e', 'r']
}

/// The string that the member `key` of the members `es` holds, if the first
/// member with that key holds a string.
pub open spec fn string_member(es: Seq<(String, JsonValue)>, key: Seq<char>) -> Option<Seq<char>>
    decreases es.len(),
{
    if es.len() == 0 {
        None
    } else if es[0].0@ == key {
        match es[0].1 {
            JsonValue::Str(s) => Some(s@),
            _ => None,
        }
    } else {
        string_member(es.drop_first(), key)
    }
}

/// The templates folder that Obsidian's template settings name: the string
/// under `folder` when the settings are a JSON object.
pub open spec fn configured_folder_spec(settings: Seq<char>) -> Option<Seq<char>> {
    match json_document(settings) {
        Some(doc) => folder_of_spec(doc),
        None => None,
    }
}

/// The templates folder that parsed template settings name: the string
/// under `folder` when the settings are an object.
pub open spec fn folder_of_spec(doc: JsonValue) -> Option<Seq<char>> {
    match doc {
        JsonValue::Object(es) => string_member(es@, folder_key()),
        _ => None,
    }
}

/// The templates folder named by parsed template settings (see
/// `folder_of_spec`).
pub fn templates_folder_of(doc: &JsonValue) -> (r: Option<String>)
    ensures
        match r {
            Some(f) => folder_of_spec(*doc) == Some(f@),
            None => folder_of_spec(*doc) is None,
        },
{
    match doc {
        JsonValue::Object(es) => {
            let key = ['f', 'o', 'l', 'd', 'e', 'r'];
            assert(key@ =~= folder_key());
            let mut i: usize = 0;
            assert(es@.skip(0) =~= es@);
            while i < es.len()
                invariant
                    i <= es@.len(),
                    key@ == folder_key(),
                    folder_of_spec(*doc) == string_member(es@, folder_key()),
                    string_member(es@, folder_key()) == string_member(es@.skip(i as int), folder_key()),
                decreases es@.len() - i,
            {
                assert(es@.skip(i as int).drop_first() =~= es@.skip(i + 1));
                assert(es@.skip(i as int)[0] == es@[i as int]);
                if chars_eq(&chars_of(es[i].0.as_str()), &key) {
                    return match &es[i].1 {
                        JsonValue::Str(s) => Some(s.clone()),
                        _ => None,
                    };
                }
                i += 1;
            }
            None
        },
        _ => None,
    }
}

/// Reads the templates folder from the text of `.obsidian/templates.json`.
pub fn configured_templates_folder(settings: &str) -> (r: Option<String>)
    ensures
        match r {
            Some(f) => configured_folder_spec(settings@) == Some(f@),
            None => configured_folder_spec(settings@) is None,
        },
{
    match load_json(settings) {
        Some(doc) => templates_folder_of(&doc),
        None => None,
    }
}

} // verus!
