//! JSON documents as plain values: the conversation file and the dates
//! sidecar, read and written through `serde_json`.
use vstd::prelude::*;

verus! {

/// `serde_json::Value`, carried opaquely between the parse and its
/// conversion.
#[verifier::external_type_specification]
#[verifier::external_body]
pub struct ExJsonValue(serde_json::Value);

/// A JSON value; a number keeps the text `serde_json` writes for it, an
/// object its members in the order `serde_json` yields them.
pub enum Json {
    Null,
    Bool(bool),
    Number(String),
    Str(String),
    Array(Vec<Json>),
    Object(Vec<(String, Json)>),
}

/// What `serde_json::from_str::<serde_json::Value>` yields for the text
/// `raw`, as a `Json`; `None` when `raw` is no JSON document.
pub uninterp spec fn json_of(raw: Seq<char>) -> Option<Json>;

/// Converts a `serde_json::Value` into a `Json`, one arm per variant.
#[verifier::external_body]
fn json_from_value(v: &serde_json::Value) -> Json {
    match v {
        serde_json::Value::Null => Json::Null,
        serde_json::Value::Bool(b) => Json::Bool(*b),
        serde_json::Value::Number(n) => Json::Number(n.to_string()),
        serde_json::Value::String(s) => Json::Str(s.clone()),
        serde_json::Value::Array(a) => Json::Array(a.iter().map(json_from_value).collect()),
        serde_json::Value::Object(o) => Json::Object(o.iter().map(|(k, x)| (k.clone(), json_from_value(x))).collect()),
    }
}

/// Calls `serde_json::from_str` for a `serde_json::Value` and converts the
/// value; the result is named by `json_of`.
#[verifier::external_body]
pub fn parse_json(raw: &str) -> (r: Option<Json>)
    ensures
        r == json_of(raw@),
{
    serde_json::from_str::<serde_json::Value>(raw).ok().map(|v| json_from_value(&v))
}

/// What `serde_json::from_str` yields for the text `raw` as a map from
/// strings to strings, its entries in ascending order of key; `None` when
/// `raw` is no such document.
pub uninterp spec fn dates_of_json(raw: Seq<char>) -> Option<Seq<(Seq<char>, Seq<char>)>>;

/// Calls `serde_json::from_str` for a `BTreeMap<String, String>` and lists
/// its entries; the result is named by `dates_of_json`.
#[verifier::external_body]
pub fn parse_dates(raw: &str) -> (r: Option<Vec<(String, String)>>)
    ensures
        r is None <==> dates_of_json(raw@) is None,
        r matches Some(v) ==> dates_of_json(raw@) == Some(v.deep_view()),
{
    serde_json::from_str::<std::collections::BTreeMap<String, String>>(raw).ok().map(|m| m.into_iter().collect())
}

/// The text `serde_json` writes for the JSON object with the string
/// members `d`.
pub uninterp spec fn dates_json(d: Seq<(Seq<char>, Seq<char>)>) -> Seq<char>;

/// Builds a `serde_json` object of the string members `d` and writes it
/// with `serde_json::Value`'s `Display`; the text is named by `dates_json`.
#[verifier::external_body]
pub fn dates_to_json(d: &Vec<(String, String)>) -> (s: String)
    ensures
        s@ == dates_json(d.deep_view()),
{
    let m: serde_json::Map<String, serde_json::Value> = d.iter().map(|(k, v)| (k.clone(), serde_json::Value::String(v.clone()))).collect();
    serde_json::Value::Object(m).to_string()
}

/// The value of the member `key` of an object, the first such member if
/// several; `None` for anything else.
pub open spec fn json_get(v: Json, key: Seq<char>) -> Option<Json> {
    match v {
        Json::Object(es) => member(es@, key),
        _ => None,
    }
}

/// The value of the first of `es` named `key`.
pub open spec fn member(es: Seq<(String, Json)>, key: Seq<char>) -> Option<Json>
    decreases es.len(),
{
    if es.len() == 0 {
        None
    } else if es[0].0@ == key {
        Some(es[0].1)
    } else {
        member(es.drop_first(), key)
    }
}

/// The string held by `v`, if it holds one.
pub open spec fn json_str(v: Option<Json>) -> Option<String> {
    match v {
        Some(Json::Str(s)) => Some(s),
        _ => None,
    }
}

/// The value of the member `key` of `v`, when `v` is an object that has
/// one.
pub fn get<'a>(v: &'a Json, key: &str) -> (r: Option<&'a Json>)
    ensures
        r is None <==> json_get(*v, key@) is None,
        r matches Some(x) ==> json_get(*v, key@) == Some(*x),
{
    match v {
        Json::Object(es) => {
            let k = String::from_str(key);
            let mut i: usize = 0;
            proof {
                assert(es@.skip(0) =~= es@);
                assert(json_get(*v, key@) == member(es@, key@));
            }
            while i < es.len()
                invariant
                    i <= es.len(),
                    k@ == key@,
                    json_get(*v, key@) == member(es@.skip(i as int), key@),
                decreases es.len() - i,
            {
                proof {
                    assert(es@.skip(i as int)[0] == es@[i as int]);
                    assert(es@.skip(i as int).drop_first() =~= es@.skip(i + 1));
                }
                if es[i].0 == k {
                    return Some(&es[i].1);
                }
                i = i + 1;
            }
            proof {
                assert(es@.skip(i as int) =~= Seq::<(String, Json)>::empty());
            }
            None
        },
        _ => None,
    }
}

/// A copy of the string held by `v`, if it holds one.
pub fn get_str(v: Option<&Json>) -> (r: Option<String>)
    ensures
        r == json_str(match v {
            Some(x) => Some(*x),
            None => None,
        }),
{
    match v {
        Some(Json::Str(s)) => Some(s.clone()),
        _ => None,
    }
}

} // verus!
