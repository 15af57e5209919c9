//! The library's own JSON document shape. Upstream payloads are parsed by
//! the trusted boundary into this type; all reading of a document is
//! verified code over it.

use vstd::prelude::*;
use crate::text::str_eq;

verus! {

/// A parsed JSON document. Object fields keep their parsed order; a lookup
/// takes the first field with the wanted name.
#[derive(Debug)]
pub enum Json {
    Null,
    Bool(bool),
    Int(i64),
    Str(String),
    Arr(Vec<Json>),
    Obj(Vec<(String, Json)>),
}

/// The first field named `key`, if any.
pub open spec fn obj_get_spec(fields: Seq<(String, Json)>, key: Seq<char>) -> Option<Json>
    decreases fields.len(),
{
    if fields.len() == 0 {
        None
    } else if fields[0].0@ == key {
        Some(fields[0].1)
    } else {
        obj_get_spec(fields.drop_first(), key)
    }
}

/// Field lookup on a document: `None` unless the document is an object
/// with a field of that name.
pub open spec fn json_get(j: Json, key: Seq<char>) -> Option<Json> {
    match j {
        Json::Obj(fields) => obj_get_spec(fields@, key),
        _ => None,
    }
}

/// The document's text when it is a string.
pub open spec fn json_str(j: Option<Json>) -> Option<Seq<char>> {
    match j {
        Some(Json::Str(s)) => Some(s@),
        _ => None,
    }
}

/// A string field's text; an absent or differently-typed field reads as
/// the empty string.
pub open spec fn str_field(j: Json, key: Seq<char>) -> Seq<char> {
    match json_get(j, key) {
        Some(Json::Str(s)) => s@,
        _ => Seq::empty(),
    }
}

/// A spell-level field's value, kept to the levels the data model allows;
/// anything else reads as a cantrip.
pub open spec fn level_field(j: Json, key: Seq<char>) -> u8 {
    match json_get(j, key) {
        Some(Json::Int(v)) => if 0 <= v <= 9 {
            v as u8
        } else {
            0u8
        },
        _ => 0u8,
    }
}

/// A boolean field's value; an absent or differently-typed field reads as
/// false.
pub open spec fn bool_field(j: Json, key: Seq<char>) -> bool {
    match json_get(j, key) {
        Some(Json::Bool(b)) => b,
        _ => false,
    }
}

pub fn str_field_exec(j: &Json, key: &str) -> (r: String)
    ensures
        r@ == str_field(*j, key@),
{
    match json_field(j, key) {
        Some(f) => match f {
            Json::Str(s) => s.clone(),
            _ => String::new(),
        },
        None => String::new(),
    }
}

pub fn level_field_exec(j: &Json, key: &str) -> (r: u8)
    ensures
        r == level_field(*j, key@),
{
    match json_field(j, key) {
        Some(f) => match f {
            Json::Int(v) => if 0 <= *v && *v <= 9 {
                *v as u8
            } else {
                0
            },
            _ => 0,
        },
        None => 0,
    }
}

pub fn bool_field_exec(j: &Json, key: &str) -> (r: bool)
    ensures
        r == bool_field(*j, key@),
{
    match json_field(j, key) {
        Some(f) => match f {
            Json::Bool(b) => *b,
            _ => false,
        },
        None => false,
    }
}

pub fn obj_get<'a>(fields: &'a Vec<(String, Json)>, key: &str) -> (r: Option<&'a Json>)
    ensures
        match r {
            Some(j) => obj_get_spec(fields@, key@) == Some(*j),
            None => obj_get_spec(fields@, key@) is None,
        },
{
    let n = fields.len();
    let mut i: usize = 0;
    proof {
        assert(fields@.skip(0) =~= fields@);
    }
    while i < n
        invariant
            i <= n,
            n == fields@.len(),
            obj_get_spec(fields@, key@) == obj_get_spec(fields@.skip(i as int), key@),
        decreases n - i,
    {
        if str_eq(fields[i].0.as_str(), key) {
            proof {
                assert(fields@.skip(i as int)[0] == fields@[i as int]);
            }
            return Some(&fields[i].1);
        }
        proof {
            assert(fields@.skip(i as int).drop_first() =~= fields@.skip(i + 1));
            assert(fields@.skip(i as int)[0] == fields@[i as int]);
        }
        i = i + 1;
    }
    None
}

pub fn json_field<'a>(j: &'a Json, key: &str) -> (r: Option<&'a Json>)
    ensures
        match r {
            Some(f) => json_get(*j, key@) == Some(*f),
            None => json_get(*j, key@) is None,
        },
{
    match j {
        Json::Obj(fields) => obj_get(fields, key),
        _ => None,
    }
}

} // verus!
