//! JSON values and what they stand for.
//!
//! A [`Value`] is a JSON document in memory. In contracts it is read through
//! its view, a [`Json`]: strings are sequences of characters, arrays are
//! sequences, and objects are finite maps from keys to values. Two values
//! with the same view are the same document.

use vstd::prelude::*;
use crate::object::Object;

verus! {

/// `serde_json::Number`, a JSON number. Nothing here looks into a number:
/// a value carries it, and a merge hands it on.
#[verifier::external_type_specification]
#[verifier::external_body]
pub struct ExNumber(serde_json::Number);

/// `serde_json::Number::clone`. Taken on trust: the copy is the number that
/// was copied. The number holds one integer or one finite float, and `clone`
/// copies that field.
pub assume_specification[ <serde_json::Number as Clone>::clone ](n: &serde_json::Number) -> (r:
    serde_json::Number)
    ensures
        r == *n,
;

/// What a JSON value stands for.
pub ghost enum Json {
    /// `null`.
    Null,
    /// `true` or `false`.
    Bool(bool),
    /// A number.
    Number(serde_json::Number),
    /// A string: its characters.
    String(Seq<char>),
    /// An array: its items, from the first to the last.
    Array(Seq<Json>),
    /// An object: the value under each of its keys.
    Object(Map<Seq<char>, Json>),
}

impl Json {
    /// Every object in the value has finitely many keys.
    pub open spec fn finite(self) -> bool
        decreases self,
    {
        match self {
            Json::Array(items) => forall|i: int| 0 <= i < items.len() ==> (#[trigger] items[i]).finite(),
            Json::Object(fields) => fields.dom().finite() && forall|key: Seq<char>|
                fields.contains_key(key) ==> (#[trigger] fields[key]).finite(),
            _ => true,
        }
    }
}

/// A JSON value.
#[derive(Debug, PartialEq, Eq)]
pub enum Value {
    /// `null`.
    Null,
    /// `true` or `false`.
    Bool(bool),
    /// A number.
    Number(serde_json::Number),
    /// A string.
    String(String),
    /// An array.
    Array(Vec<Value>),
    /// An object.
    Object(Object),
}

/// The JSON values that the items of an array stand for.
pub open spec fn items_view(items: Seq<Value>) -> Seq<Json>
    decreases items,
{
    Seq::new(
        items.len(),
        |i: int|
            if 0 <= i < items.len() {
                items[i].view()
            } else {
                Json::Null
            },
    )
}

impl Value {
    /// What the value stands for.
    pub open spec fn view(&self) -> Json
        decreases self,
    {
        match self {
            Value::Null => Json::Null,
            Value::Bool(b) => Json::Bool(*b),
            Value::Number(n) => Json::Number(*n),
            Value::String(s) => Json::String(s@),
            Value::Array(items) => Json::Array(items_view(items@)),
            Value::Object(fields) => Json::Object(fields.view()),
        }
    }

    /// What a value stands for is finite throughout.
    pub proof fn lemma_view_finite(&self)
        ensures
            self@.finite(),
        decreases self,
    {
        match self {
            Value::Array(items) => {
                assert forall|i: int| 0 <= i < items@.len() implies (#[trigger] items_view(
                    items@,
                )[i]).finite() by {
                    items@[i].lemma_view_finite();
                    assert(items_view(items@)[i] == items@[i]@);
                }
            },
            Value::Object(fields) => {
                fields.lemma_view_finite();
            },
            _ => {},
        }
    }
}

impl Clone for Value {
    /// A copy that stands for the same JSON value.
    fn clone(&self) -> (r: Value)
        ensures
            r@ == self@,
        decreases self,
    {
        match self {
            Value::Null => Value::Null,
            Value::Bool(b) => Value::Bool(*b),
            Value::Number(n) => Value::Number(n.clone()),
            Value::String(s) => Value::String(s.clone()),
            Value::Array(items) => {
                let mut copy: Vec<Value> = Vec::new();
                let mut i: usize = 0;
                while i < items.len()
                    invariant
                        self is Array,
                        self->Array_0 == *items,
                        i <= items@.len(),
                        copy@.len() == i,
                        forall|j: int| 0 <= j < i ==> copy@[j]@ == items@[j]@,
                    decreases items@.len() - i,
                {
                    copy.push(items[i].clone());
                    i += 1;
                }
                assert(items_view(copy@) =~= items_view(items@));
                Value::Array(copy)
            },
            Value::Object(fields) => Value::Object(fields.clone()),
        }
    }
}

} // verus!
