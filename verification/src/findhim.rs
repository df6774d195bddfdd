//! Reading the suspect-location task's API replies: fields that may come
//! under several names, the access level, and the API's error codes.

use vstd::prelude::*;
use crate::json::{JsonValue, JsonTree, json_of, parse_json, get, trees_of, lemma_trees_of, object3, object4};
use crate::text::{parse_i32, chars_of, parse_i32_chars, signed_decimal, decimal_i32};

verus! {

/// An integer read from a JSON value: an integer number within `i32`, or
/// a string that parses as an `i32`.
pub open spec fn json_i32(v: JsonTree) -> Option<i32> {
    match v {
        JsonTree::Number(t) => if t.len() > 0 && t[0] == '+' { None } else { parse_i32(t) },
        JsonTree::Str(t) => parse_i32(t),
        _ => None,
    }
}

/// The first of the fields `names` that holds an integer.
pub open spec fn i32_field(t: JsonTree, names: Seq<Seq<char>>) -> Option<i32>
    decreases names.len(),
{
    if names.len() == 0 {
        None
    } else {
        match get(t, names[0]) {
            Some(v) => match json_i32(v) {
                Some(n) => Some(n),
                None => i32_field(t, names.drop_first()),
            },
            None => i32_field(t, names.drop_first()),
        }
    }
}

/// The first of the fields `names` that holds a string.
pub open spec fn string_field(t: JsonTree, names: Seq<Seq<char>>) -> Option<Seq<char>>
    decreases names.len(),
{
    if names.len() == 0 {
        None
    } else {
        match get(t, names[0]) {
            Some(JsonTree::Str(s)) => Some(s),
            _ => string_field(t, names.drop_first()),
        }
    }
}

/// The names as text.
pub open spec fn name_views(names: Seq<&str>) -> Seq<Seq<char>> {
    names.map_values(|n: &str| n@)
}

fn json_i32_of(v: &JsonValue) -> (r: Option<i32>)
    ensures
        r == json_i32(v@),
{
    match v {
        JsonValue::Number(t) => {
            let c = chars_of(t.as_str());
            if c.len() > 0 && c[0] == '+' {
                None
            } else {
                parse_i32_chars(&c)
            }
        },
        JsonValue::Str(t) => parse_i32_chars(&chars_of(t.as_str())),
        _ => None,
    }
}

/// The first of the fields `field_names` that holds an integer.
pub fn get_i32_field(object: &JsonValue, field_names: &[&str]) -> (r: Option<i32>)
    ensures
        r == i32_field(object@, name_views(field_names@)),
{
    let ghost ns = name_views(field_names@);
    let mut i: usize = 0;
    assert(ns.skip(0) == ns);
    while i < field_names.len()
        invariant
            ns == name_views(field_names@),
            i <= field_names.len(),
            i32_field(object@, ns) == i32_field(object@, ns.skip(i as int)),
        decreases field_names.len() - i,
    {
        assert(ns.skip(i as int)[0] == field_names@[i as int]@);
        assert(ns.skip(i as int).drop_first() == ns.skip(i + 1));
        match object.get(field_names[i]) {
            Some(v) => {
                let n = json_i32_of(v);
                if n.is_some() {
                    return n;
                }
            },
            None => {},
        }
        i = i + 1;
    }
    None
}

/// The first of the fields `field_names` that holds a string.
pub fn get_string_field(object: &JsonValue, field_names: &[&str]) -> (r: Option<String>)
    ensures
        r matches Some(s) ==> string_field(object@, name_views(field_names@)) == Some(s@),
        r is None ==> string_field(object@, name_views(field_names@)) is None,
{
    let ghost ns = name_views(field_names@);
    let mut i: usize = 0;
    assert(ns.skip(0) == ns);
    while i < field_names.len()
        invariant
            ns == name_views(field_names@),
            i <= field_names.len(),
            string_field(object@, ns) == string_field(object@, ns.skip(i as int)),
        decreases field_names.len() - i,
    {
        assert(ns.skip(i as int)[0] == field_names@[i as int]@);
        assert(ns.skip(i as int).drop_first() == ns.skip(i + 1));
        match object.get(field_names[i]) {
            Some(v) => match v.as_str() {
                Some(s) => return Some(s.clone()),
                None => {},
            },
            None => {},
        }
        i = i + 1;
    }
    None
}

/// The access level API's reply.
#[derive(Debug, Clone, PartialEq)]
pub struct AccessLevelResponse {
    pub code: Option<i32>,
    pub message: Option<String>,
    pub access_level: i32,
}

/// Why a reply could not be read.
#[derive(Debug, PartialEq, Eq, Structural)]
pub enum ReplyError {
    /// The reply is not a JSON object.
    NotAnObject,
    /// The reply has no access level.
    MissingAccessLevel,
    /// The reply body is not JSON.
    NotJson,
}

/// The access level reply: `accessLevel` (or `access_level`, `level`),
/// `code`, and `message` (or `error`).
pub fn parse_access_level_response(value: &JsonValue) -> (r: Result<AccessLevelResponse, ReplyError>)
    ensures
        !(value@ is Object) ==> r == Err::<AccessLevelResponse, ReplyError>(ReplyError::NotAnObject),
        value@ is Object && i32_field(value@, seq!["accessLevel"@, "access_level"@, "level"@]) is None
            ==> r == Err::<AccessLevelResponse, ReplyError>(ReplyError::MissingAccessLevel),
        r matches Ok(a) ==> {
            &&& Some(a.access_level) == i32_field(value@, seq!["accessLevel"@, "access_level"@, "level"@])
            &&& a.code == i32_field(value@, seq!["code"@])
            &&& (match a.message {
                Some(m) => Some(m@),
                None => None,
            }) == string_field(value@, seq!["message"@, "error"@])
        },
        value@ is Object && i32_field(value@, seq!["accessLevel"@, "access_level"@, "level"@]) is Some ==> r is Ok,
{
    match value {
        JsonValue::Object(_) => {},
        _ => return Err(ReplyError::NotAnObject),
    }
    let level_names: [&str; 3] = ["accessLevel", "access_level", "level"];
    assert(name_views(level_names@) == seq!["accessLevel"@, "access_level"@, "level"@]);
    let access_level = match get_i32_field(value, &level_names) {
        Some(n) => n,
        None => return Err(ReplyError::MissingAccessLevel),
    };
    let code_names: [&str; 1] = ["code"];
    assert(name_views(code_names@) == seq!["code"@]);
    let message_names: [&str; 2] = ["message", "error"];
    assert(name_views(message_names@) == seq!["message"@, "error"@]);
    Ok(AccessLevelResponse {
        code: get_i32_field(value, &code_names),
        message: get_string_field(value, &message_names),
        access_level,
    })
}

/// The API's verdict on a reply: an error, with its message or the
/// stand-in `default_message`, when the code is there and not zero.
pub fn check_api_code(code: Option<i32>, message: Option<String>, default_message: &str) -> (r: Result<(), String>)
    ensures
        (code is None || code == Some(0i32)) ==> r is Ok,
        (code matches Some(c) && c != 0) ==> (r matches Err(m) && m@ == (match message {
            Some(t) => t@,
            None => default_message@,
        })),
{
    let c = match code {
        Some(c) => c,
        None => 0,
    };
    if c != 0 {
        match message {
            Some(m) => Err(m),
            None => Err(String::from_str(default_message)),
        }
    } else {
        Ok(())
    }
}


/// The location API's reply, before the coordinates are read: the code,
/// the message, and the values that may each be a location.
#[derive(Debug, PartialEq)]
pub struct LocationReply {
    pub code: Option<i32>,
    pub message: Option<String>,
    pub entries: Vec<JsonValue>,
}

/// The values of a location reply that may be locations: every item of an
/// array reply; for an object, the items of `locations` (or `location`)
/// when it is an array, else that value alone.
pub open spec fn location_entries(t: JsonTree) -> Seq<JsonTree> {
    match t {
        JsonTree::Array(items) => items,
        _ => {
            let found = match get(t, "locations"@) {
                Some(v) => Some(v),
                None => get(t, "location"@),
            };
            match found {
                Some(JsonTree::Array(items)) => items,
                Some(v) => seq![v],
                None => Seq::empty(),
            }
        },
    }
}

fn copy_values(v: &Vec<JsonValue>) -> (r: Vec<JsonValue>)
    ensures
        trees_of(r@) == trees_of(v@),
{
    let mut r: Vec<JsonValue> = Vec::new();
    let mut i: usize = 0;
    while i < v.len()
        invariant
            i <= v.len(),
            r@.len() == i,
            forall|k: int| 0 <= k < i ==> (#[trigger] r@[k])@ == v@[k]@,
        decreases v.len() - i,
    {
        r.push(v[i].deep_copy());
        i = i + 1;
    }
    proof {
        lemma_trees_of(r@);
        lemma_trees_of(v@);
    }
    assert(trees_of(r@) == trees_of(v@));
    r
}

/// The location reply: an array of locations (code zero), or an object
/// with `code`, `message` (or `error`) and `locations` (or `location`).
pub fn location_reply(value: &JsonValue) -> (r: Result<LocationReply, ReplyError>)
    ensures
        !(value@ is Object || value@ is Array) ==> r == Err::<LocationReply, ReplyError>(ReplyError::NotAnObject),
        (value@ is Object || value@ is Array) ==> (r matches Ok(l) && {
            &&& trees_of(l.entries@) == location_entries(value@)
            &&& value@ is Array ==> l.code == Some(0i32) && l.message is None
            &&& value@ is Object ==> l.code == i32_field(value@, seq!["code"@])
                && (match l.message {
                    Some(m) => Some(m@),
                    None => None,
                }) == string_field(value@, seq!["message"@, "error"@])
        }),
{
    match value {
        JsonValue::Array(items) => {
            return Ok(LocationReply { code: Some(0), message: None, entries: copy_values(items) });
        },
        JsonValue::Object(_) => {},
        _ => return Err(ReplyError::NotAnObject),
    }
    let found = match value.get("locations") {
        Some(v) => Some(v),
        None => value.get("location"),
    };
    let entries = match found {
        Some(v) => match v.as_array() {
            Some(items) => copy_values(items),
            None => {
                let one = vec![v.deep_copy()];
                proof {
                    lemma_trees_of(one@);
                }
                assert(trees_of(one@) == seq![v@]);
                one
            },
        },
        None => {
            let none: Vec<JsonValue> = Vec::new();
            assert(trees_of(none@) == Seq::<JsonTree>::empty());
            none
        },
    };
    let code_names: [&str; 1] = ["code"];
    assert(name_views(code_names@) == seq!["code"@]);
    let message_names: [&str; 2] = ["message", "error"];
    assert(name_views(message_names@) == seq!["message"@, "error"@]);
    Ok(LocationReply {
        code: get_i32_field(value, &code_names),
        message: get_string_field(value, &message_names),
        entries,
    })
}


/// The request for the places a person was seen.
pub open spec fn location_request(api_key: Seq<char>, name: Seq<char>, surname: Seq<char>) -> JsonTree {
    JsonTree::Object(seq![
        ("apikey"@, JsonTree::Str(api_key)),
        ("name"@, JsonTree::Str(name)),
        ("surname"@, JsonTree::Str(surname)),
    ])
}

/// The request for the places a person was seen.
pub fn location_payload(api_key: &str, name: &str, surname: &str) -> (r: JsonValue)
    ensures
        r@ == location_request(api_key@, name@, surname@),
{
    object3("apikey", JsonValue::text(api_key), "name", JsonValue::text(name), "surname", JsonValue::text(surname))
}

/// The request for a person's access level, with the birth year as a
/// number.
pub open spec fn access_level_request(api_key: Seq<char>, name: Seq<char>, surname: Seq<char>, birth_year: int) -> JsonTree {
    JsonTree::Object(seq![
        ("apikey"@, JsonTree::Str(api_key)),
        ("name"@, JsonTree::Str(name)),
        ("surname"@, JsonTree::Str(surname)),
        ("birthYear"@, JsonTree::Number(signed_decimal(birth_year))),
    ])
}

/// The request for a person's access level.
pub fn access_level_payload(api_key: &str, name: &str, surname: &str, birth_year: i32) -> (r: JsonValue)
    ensures
        r@ == access_level_request(api_key@, name@, surname@, birth_year as int),
{
    object4(
        "apikey", JsonValue::text(api_key),
        "name", JsonValue::text(name),
        "surname", JsonValue::text(surname),
        "birthYear", JsonValue::Number(decimal_i32(birth_year)),
    )
}


/// The access level reply read from its body: an error when the body is
/// not JSON, else as `parse_access_level_response` reads it.
pub fn read_access_level_reply(body: &str) -> (r: Result<AccessLevelResponse, ReplyError>)
    ensures
        json_of(body@) is None ==> r == Err::<AccessLevelResponse, ReplyError>(ReplyError::NotJson),
        json_of(body@) matches Some(v) ==> {
            &&& !(v is Object) ==> r == Err::<AccessLevelResponse, ReplyError>(ReplyError::NotAnObject)
            &&& v is Object && i32_field(v, seq!["accessLevel"@, "access_level"@, "level"@]) is None
                ==> r == Err::<AccessLevelResponse, ReplyError>(ReplyError::MissingAccessLevel)
            &&& v is Object && i32_field(v, seq!["accessLevel"@, "access_level"@, "level"@]) is Some ==> r is Ok
            &&& r matches Ok(a) ==> {
                &&& Some(a.access_level) == i32_field(v, seq!["accessLevel"@, "access_level"@, "level"@])
                &&& a.code == i32_field(v, seq!["code"@])
                &&& (match a.message {
                    Some(m) => Some(m@),
                    None => None,
                }) == string_field(v, seq!["message"@, "error"@])
            }
        },
{
    match parse_json(body) {
        Some(v) => parse_access_level_response(&v),
        None => Err(ReplyError::NotJson),
    }
}

/// The location reply read from its body: an error when the body is not
/// JSON, else as `location_reply` reads it.
pub fn read_location_reply(body: &str) -> (r: Result<LocationReply, ReplyError>)
    ensures
        json_of(body@) is None ==> r == Err::<LocationReply, ReplyError>(ReplyError::NotJson),
        json_of(body@) matches Some(v) ==> {
            &&& !(v is Object || v is Array) ==> r == Err::<LocationReply, ReplyError>(ReplyError::NotAnObject)
            &&& (v is Object || v is Array) ==> (r matches Ok(l) && {
                &&& trees_of(l.entries@) == location_entries(v)
                &&& v is Array ==> l.code == Some(0i32) && l.message is None
                &&& v is Object ==> l.code == i32_field(v, seq!["code"@])
                    && (match l.message {
                        Some(m) => Some(m@),
                        None => None,
                    }) == string_field(v, seq!["message"@, "error"@])
            })
        },
{
    match parse_json(body) {
        Some(v) => location_reply(&v),
        None => Err(ReplyError::NotJson),
    }
}


/// The entries of a location reply are exactly the items of its array
/// (the reply itself, or its `locations` member, else its `location`
/// member), every one of them in order; a non-array member is the one
/// entry.
pub proof fn law_location_entries(v: JsonTree)
    ensures
        v is Array ==> location_entries(v) == v->Array_0,
        v is Object ==> match get(v, "locations"@) {
            Some(JsonTree::Array(items)) => location_entries(v) == items && location_entries(v).len() == items.len(),
            Some(x) => location_entries(v) == seq![x],
            None => match get(v, "location"@) {
                Some(JsonTree::Array(items)) => location_entries(v) == items,
                Some(x) => location_entries(v) == seq![x],
                None => location_entries(v).len() == 0,
            },
        },
{
}

} // verus!
