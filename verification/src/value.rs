//! JSON and CBOR values as this library holds them, with their mathematical
//! views.
use vstd::prelude::*;
use crate::csil::FloatNum;

verus! {

/// The plain facts about a float (see `FloatNum`), as sequences.
pub struct FloatV {
    pub bits: u64,
    pub text: Seq<char>,
    pub json: Seq<char>,
    pub cbor: Seq<u8>,
}

pub open spec fn float_view(f: FloatNum) -> FloatV {
    FloatV { bits: f.bits, text: f.text@, json: f.json@, cbor: f.cbor@ }
}

/// A JSON number as serde_json stores it: a non-negative integer, a negative
/// integer, or a float.
#[derive(Debug)]
pub enum NumberKind {
    PosInt(u64),
    NegInt(i64),
    Float(FloatNum),
}

/// A JSON number. For an integer read from JSON text, `int_as_float` carries
/// the float it converts to (what serde_json's `as_f64` gives), which this
/// library cannot compute itself; a number the library builds from an
/// integer carries it where its caller supplies it (an integer answer to a
/// prompt), and none otherwise.
#[derive(Debug)]
pub struct JsonNumber {
    pub kind: NumberKind,
    pub int_as_float: Option<FloatNum>,
}

/// A JSON value. An object's members are in the order in which they are
/// iterated (by key), each key once.
#[derive(Debug)]
pub enum Json {
    Null,
    Bool(bool),
    Number(JsonNumber),
    Str(String),
    Array(Vec<Json>),
    Object(Vec<(String, Json)>),
}

pub enum NumberKindV {
    PosInt(u64),
    NegInt(i64),
    Float(FloatV),
}

pub struct NumberV {
    pub kind: NumberKindV,
    pub int_as_float: Option<FloatV>,
}

pub open spec fn number_view(n: JsonNumber) -> NumberV {
    NumberV {
        kind: match n.kind {
            NumberKind::PosInt(u) => NumberKindV::PosInt(u),
            NumberKind::NegInt(i) => NumberKindV::NegInt(i),
            NumberKind::Float(f) => NumberKindV::Float(float_view(f)),
        },
        int_as_float: match n.int_as_float {
            Some(f) => Some(float_view(f)),
            None => None,
        },
    }
}

/// The mathematical view of a JSON value.
pub enum JsonV {
    Null,
    Bool(bool),
    Number(NumberV),
    Str(Seq<char>),
    Array(Seq<JsonV>),
    Object(Seq<(Seq<char>, JsonV)>),
}

pub open spec fn json_view(j: Json) -> JsonV
    decreases j,
{
    match j {
        Json::Null => JsonV::Null,
        Json::Bool(b) => JsonV::Bool(b),
        Json::Number(n) => JsonV::Number(number_view(n)),
        Json::Str(s) => JsonV::Str(s@),
        Json::Array(items) => JsonV::Array(json_list_view(items@)),
        Json::Object(members) => JsonV::Object(json_members_view(members@)),
    }
}

pub open spec fn json_list_view(items: Seq<Json>) -> Seq<JsonV>
    decreases items,
{
    if items.len() == 0 {
        Seq::empty()
    } else {
        json_list_view(items.drop_last()).push(json_view(items.last()))
    }
}

pub open spec fn json_members_view(members: Seq<(String, Json)>) -> Seq<(Seq<char>, JsonV)>
    decreases members,
{
    if members.len() == 0 {
        Seq::empty()
    } else {
        json_members_view(members.drop_last()).push(
            (members.last().0@, json_view(members.last().1)),
        )
    }
}

impl View for Json {
    type V = JsonV;

    open spec fn view(&self) -> JsonV {
        json_view(*self)
    }
}

/// A CBOR value.
#[derive(Debug)]
pub enum Cbor {
    Integer(i128),
    Bytes(Vec<u8>),
    Float(FloatNum),
    Text(String),
    Bool(bool),
    Null,
    Tag(u64, Box<Cbor>),
    Array(Vec<Cbor>),
    Entries(Vec<(Cbor, Cbor)>),
}

/// The mathematical view of a CBOR value.
pub enum CborV {
    Integer(int),
    Bytes(Seq<u8>),
    Float(FloatV),
    Text(Seq<char>),
    Bool(bool),
    Null,
    Tag(u64, Box<CborV>),
    Array(Seq<CborV>),
    Entries(Seq<(CborV, CborV)>),
}

pub open spec fn cbor_view(c: Cbor) -> CborV
    decreases c,
{
    match c {
        Cbor::Integer(n) => CborV::Integer(n as int),
        Cbor::Bytes(b) => CborV::Bytes(b@),
        Cbor::Float(f) => CborV::Float(float_view(f)),
        Cbor::Text(s) => CborV::Text(s@),
        Cbor::Bool(b) => CborV::Bool(b),
        Cbor::Null => CborV::Null,
        Cbor::Tag(t, v) => CborV::Tag(t, Box::new(cbor_view(*v))),
        Cbor::Array(items) => CborV::Array(cbor_list_view(items@)),
        Cbor::Entries(es) => CborV::Entries(cbor_entries_view(es@)),
    }
}

pub open spec fn cbor_list_view(items: Seq<Cbor>) -> Seq<CborV>
    decreases items,
{
    if items.len() == 0 {
        Seq::empty()
    } else {
        cbor_list_view(items.drop_last()).push(cbor_view(items.last()))
    }
}

pub open spec fn cbor_entries_view(es: Seq<(Cbor, Cbor)>) -> Seq<(CborV, CborV)>
    decreases es,
{
    if es.len() == 0 {
        Seq::empty()
    } else {
        cbor_entries_view(es.drop_last()).push((cbor_view(es.last().0), cbor_view(es.last().1)))
    }
}

impl View for Cbor {
    type V = CborV;

    open spec fn view(&self) -> CborV {
        cbor_view(*self)
    }
}

} // verus!

verus! {

/// The views of a list of JSON values, one by one.
pub proof fn lemma_json_list_view(items: Seq<Json>)
    ensures
        json_list_view(items).len() == items.len(),
        forall|i: int| 0 <= i < items.len() ==> #[trigger] json_list_view(items)[i] == json_view(items[i]),
    decreases items.len(),
{
    if items.len() > 0 {
        lemma_json_list_view(items.drop_last());
    }
}

/// The views of an object's members, one by one.
pub proof fn lemma_json_members_view(ms: Seq<(String, Json)>)
    ensures
        json_members_view(ms).len() == ms.len(),
        forall|i: int| 0 <= i < ms.len() ==> #[trigger] json_members_view(ms)[i] == (
            ms[i].0@,
            json_view(ms[i].1),
        ),
    decreases ms.len(),
{
    if ms.len() > 0 {
        lemma_json_members_view(ms.drop_last());
    }
}

} // verus!

verus! {

fn clone_float_num(f: &FloatNum) -> (r: FloatNum)
    ensures
        float_view(r) == float_view(*f),
{
    FloatNum { bits: f.bits, text: f.text.clone(), json: f.json.clone(), cbor: vstd::slice::slice_to_vec(f.cbor.as_slice()) }
}

fn clone_number(n: &JsonNumber) -> (r: JsonNumber)
    ensures
        number_view(r) == number_view(*n),
{
    let kind = match &n.kind {
        NumberKind::PosInt(u) => NumberKind::PosInt(*u),
        NumberKind::NegInt(i) => NumberKind::NegInt(*i),
        NumberKind::Float(f) => NumberKind::Float(clone_float_num(f)),
    };
    let int_as_float = match &n.int_as_float {
        Some(f) => Some(clone_float_num(f)),
        None => None,
    };
    JsonNumber { kind, int_as_float }
}

/// A copy of a JSON value.
#[verifier::loop_isolation(false)]
pub fn clone_json(j: &Json) -> (r: Json)
    ensures
        r@ == j@,
    decreases j,
{
    match j {
        Json::Null => Json::Null,
        Json::Bool(b) => Json::Bool(*b),
        Json::Number(n) => Json::Number(clone_number(n)),
        Json::Str(s) => Json::Str(s.clone()),
        Json::Array(items) => {
            proof {
                lemma_json_list_view(items@);
            }
            let mut out: Vec<Json> = Vec::new();
            let mut i: usize = 0;
            while i < items.len()
                invariant
                    i <= items.len(),
                    json_list_view(out@) == json_list_view(items@.take(i as int)),
                decreases items.len() - i,
            {
                proof {
                    assert(decreases_to!(*j => items@[i as int]));
                }
                let c = clone_json(&items[i]);
                let ghost cv = c@;
                let ghost before = out@;
                out.push(c);
                proof {
                    assert(out@.drop_last() =~= before);
                    assert(json_list_view(out@) == json_list_view(before).push(cv));
                    let t = items@.take(i + 1);
                    assert(t.drop_last() =~= items@.take(i as int));
                }
                i = i + 1;
            }
            assert(items@.take(items.len() as int) =~= items@);
            Json::Array(out)
        },
        Json::Object(ms) => {
            let mut out: Vec<(String, Json)> = Vec::new();
            let mut i: usize = 0;
            while i < ms.len()
                invariant
                    i <= ms.len(),
                    json_members_view(out@) == json_members_view(ms@.take(i as int)),
                decreases ms.len() - i,
            {
                proof {
                    assert(decreases_to!(*j => ms@[i as int]));
                    assert(decreases_to!(ms@[i as int] => ms@[i as int].1));
                }
                let c = clone_json(&ms[i].1);
                let k = ms[i].0.clone();
                let ghost cv = c@;
                let ghost kv = k@;
                let ghost before = out@;
                out.push((k, c));
                proof {
                    assert(out@.drop_last() =~= before);
                    assert(json_members_view(out@) == json_members_view(before).push((kv, cv)));
                    let t = ms@.take(i + 1);
                    assert(t.drop_last() =~= ms@.take(i as int));
                }
                i = i + 1;
            }
            assert(ms@.take(ms.len() as int) =~= ms@);
            Json::Object(out)
        },
    }
}

} // verus!
