//! A JSON document as the library reads it: the parts of a `tsconfig.json`
//! that alias resolution looks at.
use vstd::prelude::*;

verus! {

/// A JSON value. Object members keep the order in which the parser hands
/// them out; numbers are kept as their text.
pub enum JsonValue {
    Null,
    Bool(bool),
    Number(String),
    Str(String),
    Array(Vec<JsonValue>),
    Object(Vec<(String, JsonValue)>),
}

/// The value of the first member named `key`, when `v` is an object
/// (`serde_json::Value::get` with a string key).
pub open spec fn member(v: JsonValue, key: Seq<char>) -> Option<JsonValue> {
    match v {
        JsonValue::Object(members) => member_of(members@, key),
        _ => None,
    }
}

/// The value of the first member named `key`.
pub open spec fn member_of(members: Seq<(String, JsonValue)>, key: Seq<char>) -> Option<JsonValue>
    decreases members.len(),
{
    if members.len() == 0 {
        None
    } else if members[0].0@ == key {
        Some(members[0].1)
    } else {
        member_of(members.drop_first(), key)
    }
}

/// The first element, when `v` is a non-empty array (`serde_json::Value::get(0)`).
pub open spec fn first_element(v: JsonValue) -> Option<JsonValue> {
    match v {
        JsonValue::Array(items) => if items@.len() > 0 {
            Some(items@[0])
        } else {
            None
        },
        _ => None,
    }
}

/// The text, when `v` is a string (`serde_json::Value::as_str`).
pub open spec fn as_text(v: JsonValue) -> Option<Seq<char>> {
    match v {
        JsonValue::Str(s) => Some(s@),
        _ => None,
    }
}

/// The value of the first member named `key`, when `v` is an object.
pub fn get_member<'a>(v: &'a JsonValue, key: &str) -> (r: Option<&'a JsonValue>)
    ensures
        match r {
            Some(x) => member(*v, key@) == Some(*x),
            None => member(*v, key@) is None,
        },
{
    match v {
        JsonValue::Object(members) => {
            let k = key.to_owned();
            let n = members.len();
            assert(members@.skip(0) =~= members@);
            for i in 0..n
                invariant
                    n == members@.len(),
                    member(*v, key@) == member_of(members@, key@),
                    k@ == key@,
                    member_of(members@, key@) == member_of(members@.skip(i as int), key@),
            {
                assert(members@.skip(i as int).drop_first() =~= members@.skip(i + 1));
                assert(members@.skip(i as int)[0] == members@[i as int]);
                if members[i].0 == k {
                    return Some(&members[i].1);
                }
            }
            assert(members@.skip(n as int) =~= seq![]);
            None
        },
        _ => None,
    }
}

/// A JSON value as `serde_json` holds it (`serde_json::Value`).
#[verifier::external_type_specification]
#[verifier::external_body]
pub struct ExJsonValue(serde_json::Value);

/// The document that `serde_json` reads from `text`, member order as its map
/// hands it out; none when `text` is not JSON.
pub uninterp spec fn json_document(text: Seq<char>) -> Option<JsonValue>;

/// Turns a `serde_json::Value` into a `JsonValue`, variant by variant: numbers
/// by their text (`Number`'s `Display`), arrays element by element, objects
/// member by member in the order the map's iterator hands them out. Nothing
/// is claimed of the result here; `parse_json` names what the two give.
#[verifier::external_body]
fn json_of(v: &serde_json::Value) -> (r: JsonValue) {
    match v {
        serde_json::Value::Null => JsonValue::Null,
        serde_json::Value::Bool(b) => JsonValue::Bool(*b),
        serde_json::Value::Number(n) => JsonValue::Number(n.to_string()),
        serde_json::Value::String(s) => JsonValue::Str(s.clone()),
        serde_json::Value::Array(a) => JsonValue::Array(a.iter().map(json_of).collect()),
        serde_json::Value::Object(o) => JsonValue::Object(
            o.iter().map(|(k, x)| (k.clone(), json_of(x))).collect(),
        ),
    }
}

/// Parses `text` as JSON (`serde_json::from_str::<serde_json::Value>`) and
/// turns the value into a `JsonValue`. The contract claims that the result is
/// `json_document(text)`: it depends on the text alone.
#[verifier::external_body]
pub fn parse_json(text: &str) -> (r: Option<JsonValue>)
    ensures
        r == json_document(text@),
{
    match serde_json::from_str::<serde_json::Value>(text) {
        Ok(v) => Some(json_of(&v)),
        Err(_) => None,
    }
}

} // verus!
