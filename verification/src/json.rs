//! A JSON value tree of the library's own, with its mathematical model.
//! Objects keep their entries in insertion order.

use vstd::prelude::*;

verus! {

broadcast use vstd::std_specs::vec::group_vec_axioms;

/// A JSON number as it was read: a non-negative integer, a negative
/// integer, or a double given by its IEEE-754 bit pattern.
#[derive(Clone, Copy, PartialEq, Eq, Structural, Debug)]
pub enum JsonNumber {
    PosInt(u64),
    NegInt(i64),
    Float(u64),
}

/// A JSON value.
#[derive(PartialEq, Debug)]
pub enum JsonValue {
    Null,
    Bool(bool),
    Number(JsonNumber),
    String(String),
    Array(Vec<JsonValue>),
    Object(Vec<(String, JsonValue)>),
}

/// The mathematical content of a [`JsonValue`].
pub enum Json {
    Null,
    Bool(bool),
    Number(JsonNumber),
    Str(Seq<char>),
    Array(Seq<Json>),
    Object(Seq<(Seq<char>, Json)>),
}

/// The model of a value.
pub open spec fn json_model(v: JsonValue) -> Json
    decreases v,
{
    match v {
        JsonValue::Null => Json::Null,
        JsonValue::Bool(b) => Json::Bool(b),
        JsonValue::Number(n) => Json::Number(n),
        JsonValue::String(s) => Json::Str(s@),
        JsonValue::Array(a) => Json::Array(
            Seq::new(
                a@.len(),
                |i: int|
                    if 0 <= i < a@.len() {
                        json_model(a@[i])
                    } else {
                        Json::Null
                    },
            ),
        ),
        JsonValue::Object(m) => Json::Object(
            Seq::new(
                m@.len(),
                |i: int|
                    if 0 <= i < m@.len() {
                        (m@[i].0@, json_model(m@[i].1))
                    } else {
                        (Seq::empty(), Json::Null)
                    },
            ),
        ),
    }
}

impl View for JsonValue {
    type V = Json;

    open spec fn view(&self) -> Json {
        json_model(*self)
    }
}

/// Every object in the tree, at any depth, holds each key once, as a
/// `serde_json` map does.
pub open spec fn distinct_keys(v: Json) -> bool
    decreases v,
{
    match v {
        Json::Object(m) => (forall|i: int, j: int|
            0 <= i < j < m.len() ==> #[trigger] m[i].0 != #[trigger] m[j].0) && forall|i: int|
            0 <= i < m.len() ==> distinct_keys(#[trigger] m[i].1),
        Json::Array(items) => forall|i: int| 0 <= i < items.len() ==> distinct_keys(#[trigger] items[i]),
        _ => true,
    }
}

/// The models of a sequence of values.
pub open spec fn values_model(a: Seq<JsonValue>) -> Seq<Json> {
    Seq::new(a.len(), |i: int| a[i]@)
}

/// The models of a sequence of object entries.
pub open spec fn entries_model(m: Seq<(String, JsonValue)>) -> Seq<(Seq<char>, Json)> {
    Seq::new(m.len(), |i: int| (m[i].0@, m[i].1@))
}

/// The model of an array or object is built from the models of its children.
pub proof fn lemma_container_view(v: &JsonValue)
    ensures
        v matches JsonValue::Array(a) ==> v@ == Json::Array(values_model(a@)),
        v matches JsonValue::Object(m) ==> v@ == Json::Object(entries_model(m@)),
{
    match v {
        JsonValue::Array(a) => {
            assert(v@->Array_0 =~= values_model(a@));
        },
        JsonValue::Object(m) => {
            assert(v@->Object_0 =~= entries_model(m@));
        },
        _ => {},
    }
}

/// The model of an optional value.
pub open spec fn opt_model(o: Option<JsonValue>) -> Option<Json> {
    match o {
        Some(v) => Some(v@),
        None => None,
    }
}

/// A copy of `v`.
#[verifier::loop_isolation(false)]
pub fn clone_json(v: &JsonValue) -> (r: JsonValue)
    ensures
        r@ == v@,
    decreases v,
{
    proof {
        lemma_container_view(v);
    }
    match v {
        JsonValue::Null => JsonValue::Null,
        JsonValue::Bool(b) => JsonValue::Bool(*b),
        JsonValue::Number(n) => JsonValue::Number(*n),
        JsonValue::String(s) => JsonValue::String(s.clone()),
        JsonValue::Array(a) => {
            let mut out: Vec<JsonValue> = Vec::new();
            let mut i: usize = 0;
            while i < a.len()
                invariant
                    i <= a.len(),
                    out.len() == i,
                    forall|j: int| 0 <= j < i ==> #[trigger] out@[j]@ == a@[j]@,
                decreases a.len() - i,
            {
                assert(decreases_to!(*v => (*v)->Array_0));
                assert(decreases_to!(*a => a[i as int]));
                let c = clone_json(&a[i]);
                out.push(c);
                i = i + 1;
            }
            let r = JsonValue::Array(out);
            proof {
                lemma_container_view(&r);
                assert(values_model(out@) =~= values_model(a@));
            }
            r
        },
        JsonValue::Object(m) => {
            let mut out: Vec<(String, JsonValue)> = Vec::new();
            let mut i: usize = 0;
            while i < m.len()
                invariant
                    i <= m.len(),
                    out.len() == i,
                    forall|j: int|
                        0 <= j < i ==> #[trigger] out@[j].0@ == m@[j].0@ && out@[j].1@ == m@[j].1@,
                decreases m.len() - i,
            {
                assert(decreases_to!(*v => (*v)->Object_0));
                assert(decreases_to!(*m => m[i as int]));
                assert(decreases_to!(m[i as int] => m[i as int].1));
                let k = m[i].0.clone();
                let c = clone_json(&m[i].1);
                out.push((k, c));
                i = i + 1;
            }
            let r = JsonValue::Object(out);
            proof {
                lemma_container_view(&r);
                assert(entries_model(out@) =~= entries_model(m@));
            }
            r
        },
    }
}

} // verus!
