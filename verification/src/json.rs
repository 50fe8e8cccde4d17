//! JSON documents as plain values: the tree serde_json reads, copied node
//! for node, and the few lookups the exchange formats make in it.

use vstd::prelude::*;
use crate::text::text_eq;
use serde_json::Value as SerdeValue;

verus! {

/// A JSON value. A number keeps what it reads as an unsigned and as a
/// signed 64-bit integer (neither for a fraction or an out-of-range value);
/// an object keeps its members in key order, each key once.
#[derive(Debug)]
pub enum Json {
    Null,
    Bool(bool),
    Num(Option<u64>, Option<i64>),
    Str(String),
    Arr(Vec<Json>),
    Obj(Vec<(String, Json)>),
}

#[verifier::external_type_specification]
#[verifier::external_body]
pub struct ExJsonValue(SerdeValue);

/// What serde_json reads from a text: the document, or its error message.
pub uninterp spec fn json_spec(text: Seq<char>) -> Result<Json, Seq<char>>;

/// The compact text serde_json writes for a document.
pub uninterp spec fn json_text_spec(doc: Json) -> Seq<char>;

/// The value of the first member named `key`.
pub open spec fn member(entries: Seq<(String, Json)>, key: Seq<char>) -> Option<Json>
    decreases entries.len(),
{
    if entries.len() == 0 {
        None
    } else if entries[0].0@ == key {
        Some(entries[0].1)
    } else {
        member(entries.drop_first(), key)
    }
}

impl Json {
    /// The member `key` of an object; nothing for any other value.
    pub open spec fn get_spec(self, key: Seq<char>) -> Option<Json> {
        match self {
            Json::Obj(m) => member(m@, key),
            _ => None,
        }
    }

    pub open spec fn arr_spec(self) -> Option<Seq<Json>> {
        match self {
            Json::Arr(a) => Some(a@),
            _ => None,
        }
    }

    pub open spec fn str_spec(self) -> Option<String> {
        match self {
            Json::Str(s) => Some(s),
            _ => None,
        }
    }

    pub open spec fn u64_spec(self) -> Option<u64> {
        match self {
            Json::Num(u, _) => u,
            _ => None,
        }
    }

    pub open spec fn i64_spec(self) -> Option<i64> {
        match self {
            Json::Num(_, i) => i,
            _ => None,
        }
    }

    /// The member `key` of an object.
    pub fn get(&self, key: &str) -> (r: Option<&Json>)
        ensures
            r matches Some(v) ==> self.get_spec(key@) == Some(*v),
            r is None ==> self.get_spec(key@) is None,
    {
        match self {
            Json::Obj(m) => {
                let mut i: usize = 0;
                assert(m@.skip(0) =~= m@);
                while i < m.len()
                    invariant
                        i <= m@.len(),
                        self.get_spec(key@) == member(m@, key@),
                        member(m@, key@) == member(m@.skip(i as int), key@),
                    decreases m@.len() - i,
                {
                    proof {
                        assert(m@.skip(i as int)[0] == m@[i as int]);
                        assert(m@.skip(i as int).drop_first() =~= m@.skip(i + 1));
                    }
                    let e = &m[i];
                    if text_eq(e.0.as_str(), key) {
                        assert(member(m@.skip(i as int), key@) == Some(e.1));
                        return Some(&e.1);
                    }
                    i = i + 1;
                }
                None
            },
            _ => None,
        }
    }

    pub fn as_arr(&self) -> (r: Option<&Vec<Json>>)
        ensures
            r matches Some(a) ==> self.arr_spec() == Some(a@),
            r is None ==> self.arr_spec() is None,
    {
        match self {
            Json::Arr(a) => Some(a),
            _ => None,
        }
    }

    pub fn as_str(&self) -> (r: Option<&String>)
        ensures
            r matches Some(s) ==> self.str_spec() == Some(*s),
            r is None ==> self.str_spec() is None,
    {
        match self {
            Json::Str(s) => Some(s),
            _ => None,
        }
    }

    pub fn as_u64(&self) -> (r: Option<u64>)
        ensures
            r == self.u64_spec(),
    {
        match self {
            Json::Num(u, _) => *u,
            _ => None,
        }
    }

    pub fn as_i64(&self) -> (r: Option<i64>)
        ensures
            r == self.i64_spec(),
    {
        match self {
            Json::Num(_, i) => *i,
            _ => None,
        }
    }
}

/// `serde_json::from_str::<serde_json::Value>`: the document a text holds,
/// or the parser's error message. Both depend on the text alone.
#[verifier::external_body]
pub(crate) fn json_parse(text: &str) -> (r: Result<Json, String>)
    ensures
        match r {
            Ok(j) => json_spec(text@) == Ok::<Json, Seq<char>>(j),
            Err(e) => json_spec(text@) == Err::<Json, Seq<char>>(e@),
        },
{
    match serde_json::from_str::<SerdeValue>(text) {
        Ok(v) => Ok(json_from_value(&v)),
        Err(e) => Err(e.to_string()),
    }
}

/// `serde_json::Value`'s `Display`: the compact text of a document.
#[verifier::external_body]
pub(crate) fn json_text(doc: &Json) -> (s: String)
    ensures
        s@ == json_text_spec(*doc),
{
    value_from_json(doc).to_string()
}

/// A serde_json tree copied node for node into the library's form; the
/// parse wrapper's helper, which states nothing of its own.
#[verifier::external_body]
fn json_from_value(v: &SerdeValue) -> Json {
    match v {
        SerdeValue::Null => Json::Null,
        SerdeValue::Bool(b) => Json::Bool(*b),
        SerdeValue::Number(n) => Json::Num(n.as_u64(), n.as_i64()),
        SerdeValue::String(s) => Json::Str(s.clone()),
        SerdeValue::Array(a) => Json::Arr(a.iter().map(json_from_value).collect()),
        SerdeValue::Object(m) => Json::Obj(m.iter().map(|(k, x)| (k.clone(), json_from_value(x))).collect()),
    }
}

/// The library's form of a document copied node for node into a
/// serde_json tree; the print wrapper's helper, which states nothing of
/// its own.
#[verifier::external_body]
fn value_from_json(j: &Json) -> SerdeValue {
    match j {
        Json::Null => SerdeValue::Null,
        Json::Bool(b) => SerdeValue::Bool(*b),
        Json::Num(u, i) => match (u, i) {
            (Some(u), _) => SerdeValue::from(*u),
            (None, Some(i)) => SerdeValue::from(*i),
            (None, None) => SerdeValue::Null,
        },
        Json::Str(s) => SerdeValue::String(s.clone()),
        Json::Arr(a) => SerdeValue::Array(a.iter().map(value_from_json).collect()),
        Json::Obj(m) => SerdeValue::Object(m.iter().map(|(k, x)| (k.clone(), value_from_json(x))).collect()),
    }
}

} // verus!
