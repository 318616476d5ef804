//! The fields of dictionaries, by the text of their keys.

use super::object::{views, Dict, Object};
use super::value::{dict_get, Value};
use crate::bytes::{copy_slice, text, to_bytes};
use crate::kad::nodeid::NodeId;
use vstd::prelude::*;

verus! {

/// What a dictionary holds under a key; nothing for a value that is no dictionary.
pub open spec fn field(v: Value, key: Seq<u8>) -> Option<Value> {
    match v {
        Value::Dict(d) => dict_get(d, key),
        _ => None,
    }
}

/// The byte string under a key.
pub open spec fn str_field(v: Value, key: Seq<u8>) -> Option<Seq<u8>> {
    match field(v, key) {
        Some(Value::Str(s)) => Some(s),
        _ => None,
    }
}

/// The number under a key.
pub open spec fn int_field(v: Value, key: Seq<u8>) -> Option<i64> {
    match field(v, key) {
        Some(Value::Int(i)) => Some(i),
        _ => None,
    }
}

/// The list under a key.
pub open spec fn list_field(v: Value, key: Seq<u8>) -> Option<Seq<Value>> {
    match field(v, key) {
        Some(Value::List(l)) => Some(l),
        _ => None,
    }
}

/// The byte string under a key, where it is as long as an identifier.
pub open spec fn id_field(v: Value, key: Seq<u8>) -> Option<Seq<u8>> {
    match str_field(v, key) {
        Some(s) => if s.len() == 20 {
            Some(s)
        } else {
            None
        },
        None => None,
    }
}

impl Object {
    /// The object under a key.
    pub fn field(&self, key: &str) -> (r: Option<&Object>)
        ensures
            match r {
                Some(object) => field(self@, text(key)) == Some(object@),
                None => field(self@, text(key)) is None,
            },
    {
        self.get(key.as_bytes())
    }

    /// The byte string under a key.
    pub fn str_field(&self, key: &str) -> (r: Option<&Vec<u8>>)
        ensures
            match r {
                Some(s) => str_field(self@, text(key)) == Some(s@),
                None => str_field(self@, text(key)) is None,
            },
    {
        match self.field(key) {
            Some(object) => object.as_string(),
            None => None,
        }
    }

    /// The number under a key.
    pub fn int_field(&self, key: &str) -> (r: Option<i64>)
        ensures
            r == int_field(self@, text(key)),
    {
        match self.field(key) {
            Some(object) => match object.as_int() {
                Some(i) => Some(*i),
                None => None,
            },
            None => None,
        }
    }

    /// The list under a key.
    pub fn list_field(&self, key: &str) -> (r: Option<&Vec<Object>>)
        ensures
            match r {
                Some(list) => list_field(self@, text(key)) == Some(views(list@)),
                None => list_field(self@, text(key)) is None,
            },
    {
        match self.field(key) {
            Some(object) => object.as_list(),
            None => None,
        }
    }

    /// The identifier under a key.
    pub fn id_field(&self, key: &str) -> (r: Option<NodeId>)
        ensures
            match r {
                Some(id) => id_field(self@, text(key)) == Some(id@),
                None => id_field(self@, text(key)) is None,
            },
    {
        match self.str_field(key) {
            Some(s) => NodeId::from_slice(s.as_slice()),
            None => None,
        }
    }
}

impl Dict {
    /// Puts an object under a key.
    pub fn set(&mut self, key: &str, value: Object)
        ensures
            final(self)@ == super::value::dict_insert(old(self)@, text(key), value@),
            old(self).wf() ==> final(self).wf(),
    {
        self.insert(to_bytes(key), value);
    }

    /// Puts a byte string under a key.
    pub fn set_str(&mut self, key: &str, value: &[u8])
        ensures
            final(self)@ == super::value::dict_insert(old(self)@, text(key), Value::Str(value@)),
            old(self).wf() ==> final(self).wf(),
    {
        broadcast use Object::lemma_view;

        self.insert(to_bytes(key), Object::String(copy_slice(value)));
    }

    /// Puts a number under a key.
    pub fn set_int(&mut self, key: &str, value: i64)
        ensures
            final(self)@ == super::value::dict_insert(old(self)@, text(key), Value::Int(value)),
            old(self).wf() ==> final(self).wf(),
    {
        broadcast use Object::lemma_view;

        self.insert(to_bytes(key), Object::Int(value));
    }
}

/// A byte string of twenty bytes under a key is an identifier, and nothing else is.
pub proof fn law_id_field(v: Value, key: Seq<u8>)
    ensures
        match id_field(v, key) {
            Some(id) => id.len() == 20 && field(v, key) == Some(Value::Str(id)),
            None => forall|s: Seq<u8>| field(v, key) == Some(Value::Str(s)) ==> #[trigger] s.len() != 20,
        },
{
}

/// What is under a key of a dictionary is read as what it is, and as nothing else; a value
/// that is no dictionary holds nothing.
pub proof fn law_fields(v: Value, key: Seq<u8>)
    ensures
        !(v is Dict) ==> field(v, key) is None,
        v matches Value::Dict(d) ==> field(v, key) == dict_get(d, key),
        str_field(v, key) matches Some(s) ==> field(v, key) == Some(Value::Str(s)),
        int_field(v, key) matches Some(i) ==> field(v, key) == Some(Value::Int(i)),
        list_field(v, key) matches Some(l) ==> field(v, key) == Some(Value::List(l)),
        field(v, key) matches Some(Value::Str(s)) ==> str_field(v, key) == Some(s),
        field(v, key) matches Some(Value::Int(i)) ==> int_field(v, key) == Some(i),
        field(v, key) matches Some(Value::List(l)) ==> list_field(v, key) == Some(l),
{
}

} // verus!
