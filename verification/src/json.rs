//! Template nodes as plain values: the JSON of a rendered template, and the
//! lenient readers of numbers, flags, strings and arrays that the
//! processors use, each with its default.
use vstd::prelude::*;
use crate::chars::{to_chars, parse_i64, spec_parse_i64, ascii_lower, spec_ascii_lower_seq, chars_eq_str};

verus! {

/// A JSON number by what the readers take from it: its value as an `i64`
/// and as a `u64` where it is an integer in range, and its `f64` value
/// converted to `i64` (toward zero, saturating), which every number has.
#[derive(Clone, Copy, Debug, PartialEq, Eq, Structural)]
pub struct JsonNumber {
    pub as_i64: Option<i64>,
    pub as_u64: Option<u64>,
    pub truncated: i64,
}

/// A JSON value. A string also carries its text read as a JSON array,
/// where the text is one; object keys are distinct.
#[derive(Debug)]
pub enum Json {
    Null,
    Bool(bool),
    Number(JsonNumber),
    Str { text: String, as_array: Option<Vec<Json>> },
    Array(Vec<Json>),
    Object(Vec<(String, Json)>),
}

/// The value of the first member named `key` of an object.
pub open spec fn member(members: Seq<(String, Json)>, key: Seq<char>) -> Option<Json>
    decreases members.len(),
{
    if members.len() == 0 {
        None
    } else if members[0].0@ == key {
        Some(members[0].1)
    } else {
        member(members.drop_first(), key)
    }
}

/// The member `key` of a node, where the node is an object that has it.
pub open spec fn spec_get(node: Json, key: Seq<char>) -> Option<Json> {
    match node {
        Json::Object(members) => member(members@, key),
        _ => None,
    }
}

/// A value read as an `i64`: an integer as it is, another number toward
/// zero, a string that parses as a decimal `i64`; nothing otherwise.
pub open spec fn spec_as_int(v: Json) -> Option<i64> {
    match v {
        Json::Number(n) => match n.as_i64 {
            Some(i) => Some(i),
            None => Some(n.truncated),
        },
        Json::Str { text, .. } => match spec_parse_i64(text@) {
            Ok(i) => Some(i as i64),
            Err(_) => None,
        },
        _ => None,
    }
}

/// The member `key` read as an `i64`, or `default`.
pub open spec fn spec_value_i64(node: Json, key: Seq<char>, default: i64) -> i64 {
    match spec_get(node, key) {
        Some(v) => match spec_as_int(v) {
            Some(i) => i,
            None => default,
        },
        None => default,
    }
}

/// The member `key` read as a flag: a boolean as it is, a string as
/// whether it is `true` in any ASCII case; `default` otherwise.
pub open spec fn spec_value_bool(node: Json, key: Seq<char>, default: bool) -> bool {
    match spec_get(node, key) {
        Some(Json::Bool(b)) => b,
        Some(Json::Str { text, .. }) => spec_ascii_lower_seq(text@) == "true"@,
        _ => default,
    }
}

/// The member `key` where it is a string, or `default`.
pub open spec fn spec_value_string(node: Json, key: Seq<char>, default: Seq<char>) -> Seq<char> {
    match spec_get(node, key) {
        Some(Json::Str { text, .. }) => text@,
        _ => default,
    }
}

/// The member `key` where it is an array, or a string holding an array;
/// no items otherwise.
pub open spec fn spec_json_array(node: Json, key: Seq<char>) -> Seq<Json> {
    match spec_get(node, key) {
        Some(Json::Array(items)) => items@,
        Some(Json::Str { as_array: Some(items), .. }) => items@,
        _ => Seq::empty(),
    }
}

/// A value where it is a non-negative integer within `u64`.
pub open spec fn spec_as_u64(v: Json) -> Option<u64> {
    match v {
        Json::Number(n) => n.as_u64,
        _ => None,
    }
}

/// A value where it is an integer within `i64`.
pub open spec fn spec_as_i64(v: Json) -> Option<i64> {
    match v {
        Json::Number(n) => n.as_i64,
        _ => None,
    }
}

/// The member `key` of a node.
pub fn get<'a>(node: &'a Json, key: &str) -> (r: Option<&'a Json>)
    ensures
        match r {
            Some(v) => spec_get(*node, key@) == Some(*v),
            None => spec_get(*node, key@) is None,
        },
{
    match node {
        Json::Object(members) => {
            let k = key.to_owned();
            let mut i: usize = 0;
            proof {
                assert(members@.skip(0) =~= members@);
            }
            while i < members.len()
                invariant
                    i <= members.len(),
                    k@ == key@,
                    *node == Json::Object(*members),
                    member(members@, key@) == member(members@.skip(i as int), key@),
                decreases members.len() - i,
            {
                proof {
                    assert(members@.skip(i as int)[0] == members@[i as int]);
                    assert(members@.skip(i as int).drop_first() =~= members@.skip(i + 1));
                }
                if members[i].0 == k {
                    return Some(&members[i].1);
                }
                i = i + 1;
            }
            proof {
                assert(members@.skip(i as int).len() == 0);
            }
            None
        },
        _ => None,
    }
}

/// A value read as an `i64`: see `spec_as_int`.
pub fn as_int(v: &Json) -> (r: Option<i64>)
    ensures
        r == spec_as_int(*v),
{
    match v {
        Json::Number(n) => match n.as_i64 {
            Some(i) => Some(i),
            None => Some(n.truncated),
        },
        Json::Str { text, .. } => match parse_i64(to_chars(text.as_str()).as_slice()) {
            Ok(i) => Some(i),
            Err(_) => None,
        },
        _ => None,
    }
}

/// The member `key` read as an `i64`, or `default`.
pub fn value_i64(node: &Json, key: &str, default: i64) -> (r: i64)
    ensures
        r == spec_value_i64(*node, key@, default),
{
    match get(node, key) {
        Some(v) => match as_int(v) {
            Some(i) => i,
            None => default,
        },
        None => default,
    }
}

/// The member `key` read as a flag, or `default`.
pub fn value_bool(node: &Json, key: &str, default: bool) -> (r: bool)
    ensures
        r == spec_value_bool(*node, key@, default),
{
    match get(node, key) {
        Some(Json::Bool(b)) => *b,
        Some(Json::Str { text, .. }) => {
            let lower = ascii_lower(to_chars(text.as_str()).as_slice());
            chars_eq_str(lower.as_slice(), "true")
        },
        _ => default,
    }
}

/// The member `key` where it is a string, or `default`.
pub fn value_string(node: &Json, key: &str, default: &str) -> (r: String)
    ensures
        r@ == spec_value_string(*node, key@, default@),
{
    match get(node, key) {
        Some(Json::Str { text, .. }) => text.clone(),
        _ => default.to_owned(),
    }
}

/// A value where it is a non-negative integer within `u64`.
pub fn as_u64(v: &Json) -> (r: Option<u64>)
    ensures
        r == spec_as_u64(*v),
{
    match v {
        Json::Number(n) => n.as_u64,
        _ => None,
    }
}

/// A value where it is an integer within `i64`.
pub fn as_i64(v: &Json) -> (r: Option<i64>)
    ensures
        r == spec_as_i64(*v),
{
    match v {
        Json::Number(n) => n.as_i64,
        _ => None,
    }
}

/// The items of the member `key` where it is an array or a string holding
/// one; none otherwise.
pub fn json_array<'a>(node: &'a Json, key: &str) -> (r: &'a [Json])
    ensures
        r@ == spec_json_array(*node, key@),
{
    match get(node, key) {
        Some(Json::Array(items)) => items.as_slice(),
        Some(Json::Str { as_array: Some(items), .. }) => items.as_slice(),
        _ => &[],
    }
}

} // verus!
