//! JSON values as trees of plain data.

use crate::assoc::OrderedMap;
use serde_json::Value;
use vstd::prelude::*;

verus! {

/// A JSON value that has no children. A number is kept as its decimal text.
#[derive(Debug, PartialEq)]
pub enum Scalar {
    Null,
    Bool(bool),
    Number(String),
    Str(String),
}

/// A JSON value. The fields of an object are kept in the order in which they
/// were set.
#[derive(Debug, PartialEq)]
pub enum Json {
    Leaf(Scalar),
    Array(Vec<Json>),
    Object(OrderedMap<Json>),
}

/// What a [`Scalar`] holds.
pub enum ScalarModel {
    Null,
    Bool(bool),
    Number(Seq<char>),
    Str(Seq<char>),
}

/// What a [`Json`] holds.
pub enum JsonModel {
    Leaf(ScalarModel),
    Array(Seq<JsonModel>),
    Object(Seq<(Seq<char>, JsonModel)>),
}

impl DeepView for Scalar {
    type V = ScalarModel;

    open spec fn deep_view(&self) -> ScalarModel {
        match self {
            Scalar::Null => ScalarModel::Null,
            Scalar::Bool(b) => ScalarModel::Bool(*b),
            Scalar::Number(n) => ScalarModel::Number(n@),
            Scalar::Str(s) => ScalarModel::Str(s@),
        }
    }
}

impl View for Scalar {
    type V = ScalarModel;

    open spec fn view(&self) -> ScalarModel {
        self.deep_view()
    }
}

impl DeepView for Json {
    type V = JsonModel;

    open spec fn deep_view(&self) -> JsonModel
        decreases self,
    {
        match self {
            Json::Leaf(s) => JsonModel::Leaf(s.deep_view()),
            Json::Array(items) => JsonModel::Array(
                Seq::new(
                    items@.len(),
                    |i: int|
                        if 0 <= i < items@.len() {
                            items@[i].deep_view()
                        } else {
                            null_model()
                        },
                ),
            ),
            Json::Object(fields) => {
                let entries = fields.entries@;
                let values = Seq::new(
                    entries.len(),
                    |i: int|
                        if 0 <= i < entries.len() {
                            entries[i].1.deep_view()
                        } else {
                            null_model()
                        },
                );
                JsonModel::Object(Seq::new(entries.len(), |i: int| (entries[i].0@, values[i])))
            },
        }
    }
}

impl View for Json {
    type V = JsonModel;

    open spec fn view(&self) -> JsonModel {
        self.deep_view()
    }
}

pub open spec fn null_model() -> JsonModel {
    JsonModel::Leaf(ScalarModel::Null)
}

pub open spec fn empty_object() -> JsonModel {
    JsonModel::Object(Seq::empty())
}

/// The model of an array is the models of its items.
pub proof fn lemma_array_view(items: Vec<Json>)
    ensures
        Json::Array(items)@ == JsonModel::Array(items.deep_view()),
{
    let a = Json::Array(items).deep_view()->Array_0;
    assert(a.len() == items@.len());
    assert(a =~= items.deep_view());
}

/// The model of an object is the models of its fields.
pub proof fn lemma_object_view(fields: OrderedMap<Json>)
    ensures
        Json::Object(fields)@ == JsonModel::Object(fields@),
{
    let a = Json::Object(fields).deep_view()->Object_0;
    let b = fields@;
    assert(a.len() == b.len());
    assert forall|i: int| 0 <= i < a.len() implies a[i] == b[i] by {
        assert(b[i] == fields.entries@[i].deep_view());
    }
    assert(a =~= b);
}

impl Clone for Scalar {
    fn clone(&self) -> (r: Self)
        ensures
            r@ == self@,
    {
        match self {
            Scalar::Null => Scalar::Null,
            Scalar::Bool(b) => Scalar::Bool(*b),
            Scalar::Number(n) => Scalar::Number(n.clone()),
            Scalar::Str(s) => Scalar::Str(s.clone()),
        }
    }
}

impl Clone for Json {
    #[verifier::loop_isolation(false)]
    fn clone(&self) -> (r: Self)
        ensures
            r@ == self@,
        decreases self,
    {
        match self {
            Json::Leaf(s) => Json::Leaf(s.clone()),
            Json::Array(items) => {
                let mut out: Vec<Json> = Vec::new();
                let mut i: usize = 0;
                while i < items.len()
                    invariant
                        i <= items.len(),
                        out.deep_view() == items.deep_view().take(i as int),
                    decreases items.len() - i,
                {
                    let c = items[i].clone();
                    out.push(c);
                    i += 1;
                    proof {
                        assert(out.deep_view() =~= items.deep_view().take(i as int));
                    }
                }
                proof {
                    assert(items.deep_view().take(i as int) =~= items.deep_view());
                    lemma_array_view(out);
                    lemma_array_view(*items);
                }
                Json::Array(out)
            },
            Json::Object(fields) => {
                let mut out: Vec<(String, Json)> = Vec::new();
                let mut i: usize = 0;
                while i < fields.entries.len()
                    invariant
                        i <= fields.entries.len(),
                        out.deep_view() == fields@.take(i as int),
                    decreases fields.entries.len() - i,
                {
                    let k = fields.entries[i].0.clone();
                    let c = fields.entries[i].1.clone();
                    out.push((k, c));
                    i += 1;
                    proof {
                        assert(out.deep_view() =~= fields@.take(i as int));
                    }
                }
                let out = OrderedMap { entries: out };
                proof {
                    assert(fields@.take(i as int) =~= fields@);
                    lemma_object_view(out);
                    lemma_object_view(*fields);
                }
                Json::Object(out)
            },
        }
    }
}


/// `serde_json::Value`: carried between the calls into `serde_json`, never
/// looked into by verified code.
#[verifier::external_type_specification]
#[verifier::external_body]
pub struct ExValue(serde_json::Value);

/// `serde_json::Error`: told apart from success, and dropped.
#[verifier::external_type_specification]
#[verifier::external_body]
pub struct ExJsonError(serde_json::Error);

/// The tree that a `serde_json::Value` holds, the fields of an object in the
/// order in which the value hands them out.
pub uninterp spec fn value_model(v: serde_json::Value) -> JsonModel;

/// The compact JSON text that `serde_json` writes for a value; `None` where
/// it gives an error.
pub uninterp spec fn value_text(v: serde_json::Value) -> Option<Seq<u8>>;

/// The tree that `serde_json` reads from a text; `None` where the text is no
/// JSON.
pub uninterp spec fn json_parsed(bytes: Seq<u8>) -> Option<JsonModel>;

/// The compact JSON text that `serde_json` writes for a tree; `None` where a
/// number of the tree is no number to `serde_json`, or where it gives an
/// error.
pub uninterp spec fn json_text(v: JsonModel) -> Option<Seq<u8>>;

/// Calls `serde_json::from_slice` for a `Value`. The contract claims that the
/// outcome depends on the bytes alone: an error where [`json_parsed`] names
/// none, else a value that holds the tree that [`json_parsed`] names.
#[verifier::external_body]
fn value_from_bytes(bytes: &[u8]) -> (r: Result<serde_json::Value, serde_json::Error>)
    ensures
        match r {
            Ok(v) => json_parsed(bytes@) == Some(value_model(v)),
            Err(_) => json_parsed(bytes@) is None,
        },
{
    serde_json::from_slice::<serde_json::Value>(bytes)
}

/// Calls `serde_json::to_vec` on a `Value`. The contract claims that the
/// outcome depends on the value alone: the bytes that [`value_text`] names,
/// or an error where it names none.
#[verifier::external_body]
fn value_to_bytes(v: &serde_json::Value) -> (r: Result<Vec<u8>, serde_json::Error>)
    ensures
        match r {
            Ok(bytes) => value_text(*v) == Some(bytes@),
            Err(_) => value_text(*v) is None,
        },
{
    serde_json::to_vec(v)
}

/// Copies a `serde_json::Value` into a [`Json`], variant by variant; a number
/// is kept as the text that `serde_json` displays for it. The contract says
/// that the copy holds the tree of the value, which is what [`value_model`]
/// names.
#[verifier::external_body]
fn json_of_value(v: &serde_json::Value) -> (j: Json)
    ensures
        j@ == value_model(*v),
{
    match v {
        Value::Null => Json::Leaf(Scalar::Null),
        Value::Bool(b) => Json::Leaf(Scalar::Bool(*b)),
        Value::Number(n) => Json::Leaf(Scalar::Number(n.to_string())),
        Value::String(s) => Json::Leaf(Scalar::Str(s.clone())),
        Value::Array(a) => Json::Array(a.iter().map(json_of_value).collect()),
        Value::Object(m) => {
            let entries = m.iter().map(|(k, x)| (k.clone(), json_of_value(x))).collect();
            Json::Object(OrderedMap { entries })
        },
    }
}

/// Copies a [`Json`] into a `serde_json::Value`, variant by variant; a number
/// is parsed from its text by `serde_json`, and `None` is returned where that
/// fails. Of two fields with one name the later one stays. The contract
/// claims that what `serde_json` writes for the copy depends on the tree
/// alone: it is what [`json_text`] names.
#[verifier::external_body]
fn value_of_json(j: &Json) -> (r: Option<serde_json::Value>)
    ensures
        match r {
            Some(v) => json_text(j@) == value_text(v),
            None => json_text(j@) is None,
        },
{
    Some(match j {
        Json::Leaf(Scalar::Null) => Value::Null,
        Json::Leaf(Scalar::Bool(b)) => Value::Bool(*b),
        Json::Leaf(Scalar::Number(n)) => Value::Number(n.parse().ok()?),
        Json::Leaf(Scalar::Str(s)) => Value::String(s.clone()),
        Json::Array(a) => {
            Value::Array(a.iter().map(value_of_json).collect::<Option<_>>()?)
        },
        Json::Object(m) => {
            let fields = m.entries.iter().map(|(k, x)| Some((k.clone(), value_of_json(x)?)));
            Value::Object(fields.collect::<Option<_>>()?)
        },
    })
}

/// Parses JSON text.
pub fn json_from_bytes(bytes: &[u8]) -> (r: Option<Json>)
    ensures
        match r {
            Some(j) => json_parsed(bytes@) == Some(j@),
            None => json_parsed(bytes@) is None,
        },
{
    match value_from_bytes(bytes) {
        Ok(v) => Some(json_of_value(&v)),
        Err(_) => None,
    }
}

/// Writes a value as compact JSON text. `None` where the value cannot be
/// written.
pub fn json_to_bytes(j: &Json) -> (r: Option<Vec<u8>>)
    ensures
        match r {
            Some(bytes) => json_text(j@) == Some(bytes@),
            None => json_text(j@) is None,
        },
{
    match value_of_json(j) {
        Some(v) => match value_to_bytes(&v) {
            Ok(bytes) => Some(bytes),
            Err(_) => None,
        },
        None => None,
    }
}

} // verus!
