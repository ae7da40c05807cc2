//! Rewriting of the JSON extras that a scene exporter attaches to glTF
//! nodes, so that they follow the layout the reflection deserializer reads.
//!
//! The exporter writes booleans as integers, enum variants as their index,
//! options as a nested object, tuples as objects keyed by position and maps
//! as a pair of key and value arrays, and refers to entities by name. Each
//! fixup rewrites one of these forms; `fixups::fixup_component` applies all
//! of them to every value of a component, outermost first.
pub mod fixups;
pub mod object;
pub mod parse;
pub mod text;

use vstd::prelude::*;

verus! {

/// A JSON number, as the fixups distinguish it
#[derive(Debug, Clone, PartialEq)]
pub enum JsonNumber {
    /// A non-negative integer
    Unsigned(u64),
    /// A negative integer
    Negative(i64),
    /// Any other number, by its decimal text
    Other(String),
}

/// A JSON value. An object holds its members in the order of their keys'
/// bytes, each key once: `parse::parse_extras` hands objects over so, and
/// the fixups keep them so (`fixups::law_walk_keeps_objects_ordered`). An
/// enum with public variants takes no type invariant, so the order is
/// stated where values are made and changed.
#[derive(Debug, PartialEq)]
pub enum Json {
    Null,
    Bool(bool),
    Number(JsonNumber),
    Text(String),
    Array(Vec<Json>),
    Object(Vec<(String, Json)>),
}

/// The mathematical value of a JSON number
pub ghost enum NumberModel {
    Unsigned(u64),
    Negative(i64),
    Other(Seq<char>),
}

/// The mathematical value of a JSON value: texts as character sequences,
/// arrays as sequences, objects as sequences of key and value
pub ghost enum JsonModel {
    Null,
    Bool(bool),
    Number(NumberModel),
    Text(Seq<char>),
    Array(Seq<JsonModel>),
    Object(Seq<(Seq<char>, JsonModel)>),
}

/// The members of an object, by key and value
pub type Members = Seq<(Seq<char>, JsonModel)>;

/// The value of a JSON number
pub open spec fn number_model(n: JsonNumber) -> NumberModel {
    match n {
        JsonNumber::Unsigned(u) => NumberModel::Unsigned(u),
        JsonNumber::Negative(i) => NumberModel::Negative(i),
        JsonNumber::Other(s) => NumberModel::Other(s@),
    }
}

/// The value of a JSON value
pub open spec fn model(v: Json) -> JsonModel
    decreases v,
{
    match v {
        Json::Null => JsonModel::Null,
        Json::Bool(b) => JsonModel::Bool(b),
        Json::Number(n) => JsonModel::Number(number_model(n)),
        Json::Text(s) => JsonModel::Text(s@),
        Json::Array(a) => JsonModel::Array(
            Seq::new(
                a@.len(),
                |i: int|
                    if 0 <= i < a@.len() {
                        model(a@[i])
                    } else {
                        JsonModel::Null
                    },
            ),
        ),
        Json::Object(m) => JsonModel::Object(
            Seq::new(
                m@.len(),
                |i: int|
                    if 0 <= i < m@.len() {
                        (m@[i].0@, model(m@[i].1))
                    } else {
                        (Seq::empty(), JsonModel::Null)
                    },
            ),
        ),
    }
}

/// The value of a sequence of JSON values
pub open spec fn items(a: Seq<Json>) -> Seq<JsonModel> {
    Seq::new(a.len(), |i: int| model(a[i]))
}

/// The value of the members of an object
pub open spec fn members(m: Seq<(String, Json)>) -> Members {
    Seq::new(m.len(), |i: int| (m[i].0@, model(m[i].1)))
}

impl View for Json {
    type V = JsonModel;

    open spec fn view(&self) -> JsonModel {
        model(*self)
    }
}

/// The model of an array is the model of its items
pub proof fn lemma_array_model(a: Vec<Json>)
    ensures
        model(Json::Array(a)) == JsonModel::Array(items(a@)),
{
    if let JsonModel::Array(s) = model(Json::Array(a)) {
        assert forall|i: int| 0 <= i < a@.len() implies s[i] == items(a@)[i] by {}
        assert(s =~= items(a@));
    }
}

/// The model of an object is the model of its members
pub proof fn lemma_object_model(m: Vec<(String, Json)>)
    ensures
        model(Json::Object(m)) == JsonModel::Object(members(m@)),
{
    if let JsonModel::Object(s) = model(Json::Object(m)) {
        assert forall|i: int| 0 <= i < m@.len() implies s[i] == members(m@)[i] by {}
        assert(s =~= members(m@));
    }
}

/// How deeply non-empty arrays and objects nest in a value
pub open spec fn height(v: JsonModel) -> nat
    decreases v,
{
    match v {
        JsonModel::Array(a) => if a.len() == 0 {
            0
        } else {
            1 + items_height(a)
        },
        JsonModel::Object(m) => if m.len() == 0 {
            0
        } else {
            1 + members_height(m)
        },
        _ => 0,
    }
}

/// The greatest height of the values of `a`
pub open spec fn items_height(a: Seq<JsonModel>) -> nat
    decreases a,
{
    if a.len() == 0 {
        0
    } else {
        let h = height(a.last());
        let r = items_height(a.drop_last());
        if h > r {
            h
        } else {
            r
        }
    }
}

/// The greatest height of the member values of `m`
pub open spec fn members_height(m: Members) -> nat
    decreases m,
{
    if m.len() == 0 {
        0
    } else {
        let h = height(m.last().1);
        let r = members_height(m.drop_last());
        if h > r {
            h
        } else {
            r
        }
    }
}

/// `items_height` bounds each value, and is reached or zero
pub proof fn lemma_items_height(a: Seq<JsonModel>)
    ensures
        forall|i: int| 0 <= i < a.len() ==> height(#[trigger] a[i]) <= items_height(a),
        items_height(a) == 0 || exists|i: int| 0 <= i < a.len() && height(#[trigger] a[i]) == items_height(a),
    decreases a.len(),
{
    if a.len() > 0 {
        let d = a.drop_last();
        lemma_items_height(d);
        assert forall|i: int| 0 <= i < a.len() implies height(#[trigger] a[i]) <= items_height(a) by {
            if i < a.len() - 1 {
                assert(a[i] == d[i]);
            }
        }
        if items_height(a) != 0 {
            if height(a.last()) == items_height(a) {
                assert(height(a[a.len() - 1]) == items_height(a));
            } else {
                let i = choose|i: int| 0 <= i < d.len() && height(#[trigger] d[i]) == items_height(d);
                assert(a[i] == d[i]);
            }
        }
    }
}

/// `members_height` bounds each member value, and is reached or zero
pub proof fn lemma_members_height(m: Members)
    ensures
        forall|i: int| 0 <= i < m.len() ==> height(#[trigger] m[i].1) <= members_height(m),
        members_height(m) == 0 || exists|i: int| 0 <= i < m.len() && height(#[trigger] m[i].1) == members_height(m),
    decreases m.len(),
{
    if m.len() > 0 {
        let d = m.drop_last();
        lemma_members_height(d);
        assert forall|i: int| 0 <= i < m.len() implies height(#[trigger] m[i].1) <= members_height(m) by {
            if i < m.len() - 1 {
                assert(m[i] == d[i]);
            }
        }
        if members_height(m) != 0 {
            if height(m.last().1) == members_height(m) {
                assert(height(m[m.len() - 1].1) == members_height(m));
            } else {
                let i = choose|i: int| 0 <= i < d.len() && height(#[trigger] d[i].1) == members_height(d);
                assert(m[i] == d[i]);
            }
        }
    }
}

/// Members no higher than `b` make an object no higher than `b + 1`
pub proof fn lemma_members_height_bound(m: Members, b: nat)
    requires
        forall|i: int| 0 <= i < m.len() ==> height(#[trigger] m[i].1) <= b,
    ensures
        members_height(m) <= b,
{
    lemma_members_height(m);
}

/// Items no higher than `b` make an array no higher than `b + 1`
pub proof fn lemma_items_height_bound(a: Seq<JsonModel>, b: nat)
    requires
        forall|i: int| 0 <= i < a.len() ==> height(#[trigger] a[i]) <= b,
    ensures
        items_height(a) <= b,
{
    lemma_items_height(a);
}

/// Whether every object in `v`, at any depth, holds its keys in strictly
/// increasing byte order
pub open spec fn well_ordered(v: JsonModel) -> bool
    decreases v,
{
    match v {
        JsonModel::Array(a) => forall|i: int| 0 <= i < a.len() ==> well_ordered(#[trigger] a[i]),
        JsonModel::Object(m) => crate::gltf::object::keys_ordered(m) && forall|i: int|
            0 <= i < m.len() ==> well_ordered(#[trigger] m[i].1),
        _ => true,
    }
}

} // verus!
