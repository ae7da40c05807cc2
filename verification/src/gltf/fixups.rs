//! The fixups: each rewrites one form the exporter writes into the form the
//! deserializer reads, given what the type registry knows of the value's
//! type and which entities the scene names.
//!
//! Extras that cannot be rewritten (a malformed boolean, enum, option,
//! tuple or map, or a reference to an unknown entity) give a `FixupError`;
//! a scene whose extras give one is not loaded.
use vstd::prelude::*;

use crate::gltf::object::{
    first_of, get_member, keys_ordered, law_ordered_objects_stay_ordered, lemma_first_of,
    lemma_first_of_found, lemma_obj_insert_members, lemma_obj_remove_members, obj_get, obj_insert,
    obj_remove, put_member, take_member,
};
use crate::gltf::text::{bytes_less, parse_index, read_index, same_text, text_bytes};
use vstd::utf8::{is_ascii_chars, is_ascii_chars_encode_utf8};
use crate::gltf::{
    height, items, items_height, lemma_array_model, lemma_items_height, lemma_items_height_bound,
    lemma_members_height, lemma_members_height_bound, lemma_object_model, members,
    members_height, model, well_ordered, Json, JsonModel, JsonNumber, Members, NumberModel,
};

verus! {

/// The layout of a registered type, as far as the fixups need it
#[derive(Debug, Clone, PartialEq)]
pub enum TypeShape {
    /// A tuple: its fields are written under `tuple`
    Tuple,
    /// A tuple struct: its fields are written under `tuple_struct`
    TupleStruct,
    /// A map, with the name of its value type (keyed by strings)
    Keyed(String),
    /// Anything else
    Other,
}

/// What the type registry knows of a type
#[derive(Debug, Clone, PartialEq)]
pub struct TypeRegistration {
    /// The type's full name
    pub name: String,
    /// The type reflects a boolean
    pub is_bool: bool,
    /// The names of the variants, in order, where the type is an enum
    pub enum_variants: Option<Vec<String>>,
    /// The type reflects an option
    pub is_option: bool,
    /// The type's layout
    pub shape: TypeShape,
}

/// Everything the fixups consult besides the value itself
#[derive(Debug, Clone)]
pub struct FixupContext {
    /// The registered types
    pub registry: Vec<TypeRegistration>,
    /// The full name of the entity type
    pub entity_type_name: String,
    /// The scene's named entities, by name and identifier
    pub entities: Vec<(String, u64)>,
}

/// Why a component's extras could not be rewritten
#[derive(Debug, Copy, Clone, PartialEq, Eq, Structural)]
pub enum FixupError {
    /// A node's extras are not an object
    ExtrasNotObject,
    /// The `entity` member of a node's extras is not an object
    EntityNotObject,
    /// A component has no `type`
    TypeMissing,
    /// A component's `type` is not a string
    TypeNotText,
    /// A boolean's value is a number but not a non-negative integer
    BoolNotInteger,
    /// An enum's value is a number but not a non-negative integer
    EnumIndexNotInteger,
    /// An enum's value is past its last variant
    EnumIndexOutOfRange,
    /// An option's nested object has no value
    OptionValueMissing,
    /// A tuple (or tuple struct) has no member holding its fields
    TupleMissing,
    /// A tuple's fields are not held in an object
    TupleNotObject,
    /// A tuple field's key is not a position
    TupleKeyNotIndex,
    /// A map key or map value is not an object
    MapEntryNotObject,
    /// A map key or map value object has no value
    MapEntryValueMissing,
    /// A map key is not a string
    MapKeyNotString,
    /// No entity has the name an entity reference gives
    NoEntityNamed,
}

/// The value an exec result stands for
pub open spec fn outcome(r: Result<Json, FixupError>) -> Result<JsonModel, FixupError> {
    match r {
        Ok(v) => Ok(model(v)),
        Err(e) => Err(e),
    }
}

/// Registrations named `name`
pub open spec fn named(name: Seq<char>) -> spec_fn(TypeRegistration) -> bool {
    |r: TypeRegistration| r.name@ == name
}

/// The registration of the type named `name`
pub open spec fn registration(reg: Seq<TypeRegistration>, name: Seq<char>) -> Option<TypeRegistration> {
    match first_of(reg, named(name)) {
        Some(i) => Some(reg[i]),
        None => None,
    }
}

/// The registration of the type an object names in its `type` member
pub open spec fn registered(ctx: FixupContext, m: Members) -> Option<TypeRegistration> {
    match obj_get(m, "type"@) {
        Some(JsonModel::Text(n)) => registration(ctx.registry@, n),
        _ => None,
    }
}

/// `m` with its `value` member set to `x`
pub open spec fn with_value(m: Members, x: JsonModel) -> JsonModel {
    JsonModel::Object(obj_insert(obj_remove(m, "value"@), "value"@, x))
}

/// `m` without its `value` member
pub open spec fn without_value(m: Members) -> JsonModel {
    JsonModel::Object(obj_remove(m, "value"@))
}

/// Booleans written as numbers: a non-negative integer value becomes
/// `true` when positive; a value that is not a number is dropped
pub open spec fn fix_bool(ctx: FixupContext, v: JsonModel) -> Result<JsonModel, FixupError> {
    match v {
        JsonModel::Object(m) => match registered(ctx, m) {
            Some(r) => if r.is_bool {
                match obj_get(m, "value"@) {
                    Some(JsonModel::Number(NumberModel::Unsigned(n))) => Ok(with_value(m, JsonModel::Bool(n > 0))),
                    Some(JsonModel::Number(_)) => Err(FixupError::BoolNotInteger),
                    _ => Ok(without_value(m)),
                }
            } else {
                Ok(v)
            },
            None => Ok(v),
        },
        _ => Ok(v),
    }
}

/// Enum variants written as their index: the value becomes the variant's
/// name; a value that is not a number is dropped
pub open spec fn fix_enum(ctx: FixupContext, v: JsonModel) -> Result<JsonModel, FixupError> {
    match v {
        JsonModel::Object(m) => match registered(ctx, m) {
            Some(r) => match r.enum_variants {
                Some(vars) => match obj_get(m, "value"@) {
                    Some(JsonModel::Number(NumberModel::Unsigned(n))) => if n < vars@.len() {
                        Ok(with_value(m, JsonModel::Text(vars@[n as int]@)))
                    } else {
                        Err(FixupError::EnumIndexOutOfRange)
                    },
                    Some(JsonModel::Number(_)) => Err(FixupError::EnumIndexNotInteger),
                    _ => Ok(without_value(m)),
                },
                None => Ok(v),
            },
            None => Ok(v),
        },
        _ => Ok(v),
    }
}

/// Options written as a nested object: the value becomes the nested
/// object's value; a value that is not an object is dropped
pub open spec fn fix_option(ctx: FixupContext, v: JsonModel) -> Result<JsonModel, FixupError> {
    match v {
        JsonModel::Object(m) => match registered(ctx, m) {
            Some(r) => if r.is_option {
                match obj_get(m, "value"@) {
                    Some(JsonModel::Object(inner)) => match obj_get(inner, "value"@) {
                        Some(x) => Ok(with_value(m, x)),
                        None => Err(FixupError::OptionValueMissing),
                    },
                    _ => Ok(without_value(m)),
                }
            } else {
                Ok(v)
            },
            None => Ok(v),
        },
        _ => Ok(v),
    }
}

/// Positions that are taken, ordered, as an ordered map of positions to
/// values holds them
pub type Slots = Seq<(nat, JsonModel)>;

/// The slot at position `i`
pub open spec fn slot_at(i: nat) -> spec_fn((nat, JsonModel)) -> bool {
    |e: (nat, JsonModel)| e.0 == i
}

/// Slots at positions after `i`
pub open spec fn slot_after(i: nat) -> spec_fn((nat, JsonModel)) -> bool {
    |e: (nat, JsonModel)| e.0 > i
}

/// `s` with position `i` set to `x`, as an ordered map sets it
pub open spec fn place(s: Slots, i: nat, x: JsonModel) -> Slots {
    match first_of(s, slot_at(i)) {
        Some(j) => s.update(j, (i, x)),
        None => match first_of(s, slot_after(i)) {
            Some(j) => s.insert(j, (i, x)),
            None => s.push((i, x)),
        },
    }
}

/// The members of a tuple object placed by the position their key reads as,
/// a later member taking the place of an earlier one at the same position;
/// none where a key is not a position
pub open spec fn tuple_slots(m: Members) -> Option<Slots>
    decreases m.len(),
{
    if m.len() == 0 {
        Some(Seq::empty())
    } else {
        match tuple_slots(m.drop_last()) {
            Some(s) => match parse_index(text_bytes(m.last().0)) {
                Some(i) => Some(place(s, i, m.last().1)),
                None => None,
            },
            None => None,
        }
    }
}

/// The values of the slots, in order
pub open spec fn slot_values_model(s: Slots) -> Seq<JsonModel> {
    Seq::new(s.len(), |i: int| s[i].1)
}

/// A tuple's fields written as an object keyed by position become an array
/// ordered by position
pub open spec fn fix_tuple(t: JsonModel) -> Result<JsonModel, FixupError> {
    match t {
        JsonModel::Object(m) => match tuple_slots(m) {
            Some(s) => Ok(JsonModel::Array(slot_values_model(s))),
            None => Err(FixupError::TupleKeyNotIndex),
        },
        _ => Err(FixupError::TupleNotObject),
    }
}

/// The fields of `m` under `k` rewritten by `fix_tuple`
pub open spec fn fix_tuple_member(m: Members, k: Seq<char>) -> Result<JsonModel, FixupError> {
    match obj_get(m, k) {
        Some(t) => match fix_tuple(t) {
            Ok(a) => Ok(JsonModel::Object(obj_insert(obj_remove(m, k), k, a))),
            Err(e) => Err(e),
        },
        None => Err(FixupError::TupleMissing),
    }
}

/// Tuples and tuple structs written as objects keyed by position
pub open spec fn fix_tuple_types(ctx: FixupContext, v: JsonModel) -> Result<JsonModel, FixupError> {
    match v {
        JsonModel::Object(m) => match registered(ctx, m) {
            Some(r) => match r.shape {
                TypeShape::Tuple => fix_tuple_member(m, "tuple"@),
                TypeShape::TupleStruct => fix_tuple_member(m, "tuple_struct"@),
                _ => Ok(v),
            },
            None => Ok(v),
        },
        _ => Ok(v),
    }
}

/// One map entry written as a key object and a value object, each holding
/// a `value`: the key's text, and the value typed with the map's value type
pub open spec fn map_entry(k: JsonModel, x: JsonModel, value_type: Seq<char>) -> Result<(Seq<char>, JsonModel), FixupError> {
    match (k, x) {
        (JsonModel::Object(km), JsonModel::Object(xm)) => match obj_get(km, "value"@) {
            Some(kv) => match obj_get(xm, "value"@) {
                Some(xv) => match kv {
                    JsonModel::Text(key) => Ok(
                        (
                            key,
                            JsonModel::Object(seq![("type"@, JsonModel::Text(value_type)), ("value"@, xv)]),
                        ),
                    ),
                    _ => Err(FixupError::MapKeyNotString),
                },
                None => Err(FixupError::MapEntryValueMissing),
            },
            None => Err(FixupError::MapEntryValueMissing),
        },
        _ => Err(FixupError::MapEntryNotObject),
    }
}

/// The first `n` map entries gathered into an object, a later entry taking
/// the place of an earlier one with the same key
pub open spec fn map_entries(ks: Seq<JsonModel>, xs: Seq<JsonModel>, value_type: Seq<char>, n: nat) -> Result<Members, FixupError>
    decreases n,
{
    if n == 0 {
        Ok(Seq::empty())
    } else {
        match map_entries(ks, xs, value_type, (n - 1) as nat) {
            Ok(acc) => match map_entry(ks[n - 1], xs[n - 1], value_type) {
                Ok(e) => Ok(obj_insert(acc, e.0, e.1)),
                Err(err) => Err(err),
            },
            Err(err) => Err(err),
        }
    }
}

/// The smaller of two lengths
pub open spec fn min_len(a: nat, b: nat) -> nat {
    if a < b {
        a
    } else {
        b
    }
}

/// Maps written as arrays of keys and of values become an object under
/// `map`; without both arrays the map is empty
pub open spec fn fix_map(ctx: FixupContext, v: JsonModel) -> Result<JsonModel, FixupError> {
    match v {
        JsonModel::Object(m) => match registered(ctx, m) {
            Some(r) => match r.shape {
                TypeShape::Keyed(value_type) => {
                    let without_keys = obj_remove(m, "keys"@);
                    let rest = obj_remove(without_keys, "values"@);
                    match (obj_get(m, "keys"@), obj_get(without_keys, "values"@)) {
                        (Some(JsonModel::Array(ks)), Some(JsonModel::Array(xs))) => match map_entries(
                            ks,
                            xs,
                            value_type@,
                            min_len(ks.len(), xs.len()),
                        ) {
                            Ok(entries) => Ok(JsonModel::Object(obj_insert(rest, "map"@, JsonModel::Object(entries)))),
                            Err(e) => Err(e),
                        },
                        _ => Ok(JsonModel::Object(obj_insert(rest, "value"@, JsonModel::Object(Seq::empty())))),
                    }
                },
                _ => Ok(v),
            },
            None => Ok(v),
        },
        _ => Ok(v),
    }
}

/// Entities named `name`
pub open spec fn entity_named(name: Seq<char>) -> spec_fn((String, u64)) -> bool {
    |e: (String, u64)| e.0@ == name
}

/// Entity references written as `{"name": ...}` become the identifier of
/// the first entity with that name. Objects whose `type` names another
/// type are left alone; a `value` that is not such a reference is dropped.
pub open spec fn fix_entity(ctx: FixupContext, v: JsonModel) -> Result<JsonModel, FixupError> {
    match v {
        JsonModel::Object(m) => {
            let other_type = match obj_get(m, "type"@) {
                Some(JsonModel::Text(n)) => n != ctx.entity_type_name@,
                _ => false,
            };
            if other_type {
                Ok(v)
            } else {
                match obj_get(m, "value"@) {
                    Some(JsonModel::Object(ev)) => match obj_get(ev, "name"@) {
                        Some(JsonModel::Text(name)) => match first_of(ctx.entities@, entity_named(name)) {
                            Some(i) => Ok(with_value(m, JsonModel::Number(NumberModel::Unsigned(ctx.entities@[i].1)))),
                            None => Err(FixupError::NoEntityNamed),
                        },
                        _ => Ok(without_value(m)),
                    },
                    _ => Ok(without_value(m)),
                }
            }
        },
        _ => Ok(v),
    }
}

/// All fixups on one value, in order: booleans, enums, options, tuples,
/// maps, entities
pub open spec fn fix_node(ctx: FixupContext, v: JsonModel) -> Result<JsonModel, FixupError> {
    match fix_bool(ctx, v) {
        Err(e) => Err(e),
        Ok(v1) => match fix_enum(ctx, v1) {
            Err(e) => Err(e),
            Ok(v2) => match fix_option(ctx, v2) {
                Err(e) => Err(e),
                Ok(v3) => match fix_tuple_types(ctx, v3) {
                    Err(e) => Err(e),
                    Ok(v4) => match fix_map(ctx, v4) {
                        Err(e) => Err(e),
                        Ok(v5) => fix_entity(ctx, v5),
                    },
                },
            },
        },
    }
}

/// The registration of the type that `m` names in its `type` member
fn lookup_type<'a>(ctx: &'a FixupContext, m: &Vec<(String, Json)>) -> (r: Option<&'a TypeRegistration>)
    ensures
        match registered(*ctx, members(m@)) {
            Some(x) => r is Some && *r->0 == x,
            None => r is None,
        },
{
    let ty = get_member(m, "type");
    let name = match ty {
        Some(Json::Text(n)) => n,
        _ => return None,
    };
    assert(obj_get(members(m@), "type"@) == Some(JsonModel::Text(name@)));
    let mut i: usize = 0;
    while i < ctx.registry.len()
        invariant
            i <= ctx.registry@.len(),
            obj_get(members(m@), "type"@) == Some(JsonModel::Text(name@)),
            forall|j: int| 0 <= j < i ==> !named(name@)(#[trigger] ctx.registry@[j]),
        decreases ctx.registry@.len() - i,
    {
        if same_text(ctx.registry[i].name.as_str(), name.as_str()) {
            proof {
                lemma_first_of_found(ctx.registry@, named(name@), i as int);
            }
            return Some(&ctx.registry[i]);
        }
        i = i + 1;
    }
    proof {
        lemma_first_of(ctx.registry@, named(name@));
    }
    None
}

/// See `fix_bool`. A boolean whose value is a negative or fractional
/// number cannot be rewritten: this returns `BoolNotInteger` for it, and the
/// caller stops loading the scene there.
pub fn fixup_bool(ctx: &FixupContext, v: Json) -> (r: Result<Json, FixupError>)
    ensures
        outcome(r) == fix_bool(*ctx, model(v)),
{
    match v {
        Json::Object(mut m) => {
            proof {
                lemma_object_model(m);
            }
            let is_bool = match lookup_type(ctx, &m) {
                Some(reg) => reg.is_bool,
                None => false,
            };
            if !is_bool {
                return Ok(Json::Object(m));
            }
            let ghost m0 = members(m@);
            match take_member(&mut m, "value") {
                Some(Json::Number(JsonNumber::Unsigned(n))) => {
                    put_member(&mut m, "value".to_string(), Json::Bool(n > 0));
                    proof {
                        lemma_object_model(m);
                    }
                    Ok(Json::Object(m))
                },
                Some(Json::Number(_)) => Err(FixupError::BoolNotInteger),
                _ => {
                    proof {
                        lemma_object_model(m);
                    }
                    Ok(Json::Object(m))
                },
            }
        },
        other => Ok(other),
    }
}

/// See `fix_enum`. An index that is not a non-negative integer, or is past
/// the last variant, gives an error for the caller to stop on.
pub fn fixup_enum(ctx: &FixupContext, v: Json) -> (r: Result<Json, FixupError>)
    ensures
        outcome(r) == fix_enum(*ctx, model(v)),
{
    match v {
        Json::Object(mut m) => {
            proof {
                lemma_object_model(m);
            }
            let variants = match lookup_type(ctx, &m) {
                Some(reg) => match &reg.enum_variants {
                    Some(vars) => vars,
                    None => return Ok(Json::Object(m)),
                },
                None => return Ok(Json::Object(m)),
            };
            match take_member(&mut m, "value") {
                Some(Json::Number(JsonNumber::Unsigned(n))) => {
                    if n >= variants.len() as u64 {
                        return Err(FixupError::EnumIndexOutOfRange);
                    }
                    let name = variants[n as usize].clone();
                    put_member(&mut m, "value".to_string(), Json::Text(name));
                    proof {
                        lemma_object_model(m);
                    }
                    Ok(Json::Object(m))
                },
                Some(Json::Number(_)) => Err(FixupError::EnumIndexNotInteger),
                _ => {
                    proof {
                        lemma_object_model(m);
                    }
                    Ok(Json::Object(m))
                },
            }
        },
        other => Ok(other),
    }
}

/// See `fix_option`. A nested object without a value gives
/// `OptionValueMissing` for the caller to stop on.
pub fn fixup_option(ctx: &FixupContext, v: Json) -> (r: Result<Json, FixupError>)
    ensures
        outcome(r) == fix_option(*ctx, model(v)),
{
    match v {
        Json::Object(mut m) => {
            proof {
                lemma_object_model(m);
            }
            let is_option = match lookup_type(ctx, &m) {
                Some(reg) => reg.is_option,
                None => false,
            };
            if !is_option {
                return Ok(Json::Object(m));
            }
            match take_member(&mut m, "value") {
                Some(Json::Object(mut inner)) => {
                    proof {
                        lemma_object_model(inner);
                    }
                    match take_member(&mut inner, "value") {
                        Some(x) => {
                            put_member(&mut m, "value".to_string(), x);
                            proof {
                                lemma_object_model(m);
                            }
                            Ok(Json::Object(m))
                        },
                        None => Err(FixupError::OptionValueMissing),
                    }
                },
                _ => {
                    proof {
                        lemma_object_model(m);
                    }
                    Ok(Json::Object(m))
                },
            }
        },
        other => Ok(other),
    }
}

/// The slots an exec slot list stands for
pub open spec fn slot_model(s: Seq<(usize, Json)>) -> Slots {
    Seq::new(s.len(), |i: int| (s[i].0 as nat, model(s[i].1)))
}

/// Sets position `i` of `slots` to `x`
fn place_slot(slots: &mut Vec<(usize, Json)>, i: usize, x: Json)
    ensures
        slot_model(final(slots)@) == place(slot_model(old(slots)@), i as nat, model(x)),
{
    let ghost s0 = slot_model(slots@);
    let ghost e = (i as nat, model(x));
    assert(s0.len() == slots@.len());
    proof {
        lemma_first_of(s0, slot_at(i as nat));
        lemma_first_of(s0, slot_after(i as nat));
    }
    let mut j: usize = 0;
    while j < slots.len()
        invariant
            slots@ == old(slots)@,
            s0 == slot_model(slots@),
            s0.len() == slots@.len(),
            e == (i as nat, model(x)),
            j <= slots@.len(),
            forall|q: int| 0 <= q < j ==> !slot_at(i as nat)(#[trigger] s0[q]),
        decreases slots@.len() - j,
    {
        if slots[j].0 == i {
            proof {
                lemma_first_of_found(s0, slot_at(i as nat), j as int);
            }
            let ghost prev = slots@;
            slots.remove(j);
            slots.insert(j, (i, x));
            assert(slots@ =~= prev.update(j as int, (i, x)));
            assert forall|q: int| 0 <= q < s0.len() implies #[trigger] slot_model(slots@)[q] == s0.update(j as int, e)[q] by {
                assert(slot_model(slots@)[q] == (slots@[q].0 as nat, model(slots@[q].1)));
                if q != j {
                    assert(slots@[q] == prev[q]);
                    assert(s0[q] == (prev[q].0 as nat, model(prev[q].1)));
                }
            }
            assert(slot_model(slots@) =~= s0.update(j as int, e));
            return;
        }
        j = j + 1;
    }
    let mut k: usize = 0;
    while k < slots.len()
        invariant
            slots@ == old(slots)@,
            s0 == slot_model(slots@),
            s0.len() == slots@.len(),
            e == (i as nat, model(x)),
            first_of(s0, slot_at(i as nat)) is None,
            k <= slots@.len(),
            forall|q: int| 0 <= q < k ==> !slot_after(i as nat)(#[trigger] s0[q]),
        decreases slots@.len() - k,
    {
        if slots[k].0 > i {
            proof {
                lemma_first_of_found(s0, slot_after(i as nat), k as int);
            }
            let ghost prev = slots@;
            slots.insert(k, (i, x));
            assert forall|q: int| 0 <= q < s0.len() + 1 implies #[trigger] slot_model(slots@)[q] == s0.insert(k as int, e)[q] by {
                assert(slot_model(slots@)[q] == (slots@[q].0 as nat, model(slots@[q].1)));
                if q < k {
                    assert(slots@[q] == prev[q]);
                    assert(s0[q] == (prev[q].0 as nat, model(prev[q].1)));
                } else if q > k {
                    assert(slots@[q] == prev[q - 1]);
                    assert(s0[q - 1] == (prev[q - 1].0 as nat, model(prev[q - 1].1)));
                }
            }
            assert(slot_model(slots@) =~= s0.insert(k as int, e));
            return;
        }
        k = k + 1;
    }
    let ghost prev = slots@;
    assert(s0.len() == prev.len());
    slots.push((i, x));
    assert forall|q: int| 0 <= q < s0.len() + 1 implies #[trigger] slot_model(slots@)[q] == s0.push(e)[q] by {
        assert(slot_model(slots@)[q] == (slots@[q].0 as nat, model(slots@[q].1)));
        if q < s0.len() {
            assert(slots@[q] == prev[q]);
            assert(s0[q] == (prev[q].0 as nat, model(prev[q].1)));
        }
    }
    assert(slot_model(slots@) =~= s0.push(e));
}

/// Once a prefix of the members has a key that is not a position, so has
/// every longer prefix
proof fn lemma_tuple_slots_none(m: Members, k: int)
    requires
        0 <= k <= m.len(),
        tuple_slots(m.take(k)) is None,
    ensures
        tuple_slots(m) is None,
    decreases m.len() - k,
{
    if k < m.len() {
        assert(m.take(k + 1).drop_last() =~= m.take(k));
        lemma_tuple_slots_none(m, k + 1);
    } else {
        assert(m.take(k) =~= m);
    }
}

/// One more member placed
proof fn lemma_tuple_slots_step(m: Members, k: int)
    requires
        0 <= k < m.len(),
    ensures
        tuple_slots(m.take(k + 1)) == match tuple_slots(m.take(k)) {
            Some(s) => match parse_index(text_bytes(m[k].0)) {
                Some(i) => Some(place(s, i, m[k].1)),
                None => None,
            },
            None => None,
        },
{
    assert(m.take(k + 1).drop_last() =~= m.take(k));
    assert(m.take(k + 1).last() == m[k]);
}

/// The members of a tuple object placed by position
fn collect_slots(m: Vec<(String, Json)>) -> (r: Option<Vec<(usize, Json)>>)
    ensures
        match tuple_slots(members(m@)) {
            Some(s) => r is Some && slot_model(r->0@) == s,
            None => r is None,
        },
{
    let ghost orig = members(m@);
    let mut rest = m;
    let mut slots: Vec<(usize, Json)> = Vec::new();
    let ghost mut k: int = 0;
    assert(orig.take(0) =~= Seq::<(Seq<char>, JsonModel)>::empty());
    assert(slot_model(slots@) =~= Seq::<(nat, JsonModel)>::empty());
    while rest.len() > 0
        invariant
            orig == members(m@),
            0 <= k <= orig.len(),
            k + rest@.len() == orig.len(),
            members(rest@) == orig.skip(k),
            tuple_slots(orig.take(k)) == Some(slot_model(slots@)),
        decreases rest@.len(),
    {
        let ghost before = rest@;
        let (key, x) = rest.remove(0);
        proof {
            assert(members(before)[0] == orig[k]);
            lemma_tuple_slots_step(orig, k);
        }
        match read_index(key.as_str()) {
            None => {
                proof {
                    lemma_tuple_slots_none(orig, k + 1);
                }
                return None;
            },
            Some(i) => {
                place_slot(&mut slots, i, x);
            },
        }
        proof {
            assert forall|q: int| 0 <= q < rest@.len() implies #[trigger] members(rest@)[q] == orig.skip(k + 1)[q] by {
                assert(rest@[q] == before[q + 1]);
                assert(members(before)[q + 1] == orig.skip(k)[q + 1]);
            }
            assert(members(rest@) =~= orig.skip(k + 1));
            k = k + 1;
        }
    }
    assert(orig.take(k) =~= orig);
    Some(slots)
}

/// The values of the slots, in order
fn slot_values(slots: Vec<(usize, Json)>) -> (r: Vec<Json>)
    ensures
        items(r@) == slot_values_model(slot_model(slots@)),
{
    let ghost sm = slot_model(slots@);
    assert(sm.len() == slots@.len());
    let mut rest = slots;
    let mut values: Vec<Json> = Vec::new();
    let ghost mut n: int = 0;
    assert(items(values@) =~= slot_values_model(sm.take(0)));
    while rest.len() > 0
        invariant
            0 <= n <= sm.len(),
            n + rest@.len() == sm.len(),
            slot_model(rest@) == sm.skip(n),
            items(values@) == slot_values_model(sm.take(n)),
            values@.len() == n,
            sm.len() == slots@.len(),
        decreases rest@.len(),
    {
        let ghost before = rest@;
        let ghost done = values@;
        let (_, x) = rest.remove(0);
        proof {
            assert(slot_model(before).len() == before.len());
            assert(slot_model(before)[0] == sm[n]);
        }
        values.push(x);
        proof {
            assert forall|q: int| 0 <= q < rest@.len() implies #[trigger] slot_model(rest@)[q] == sm.skip(n + 1)[q] by {
                assert(rest@[q] == before[q + 1]);
                assert(slot_model(before)[q + 1] == sm.skip(n)[q + 1]);
            }
            assert(slot_model(rest@) =~= sm.skip(n + 1));
            assert forall|q: int| 0 <= q < n + 1 implies #[trigger] items(values@)[q] == slot_values_model(sm.take(n + 1))[q] by {
                if q < n {
                    assert(values@[q] == done[q]);
                    assert(items(done)[q] == slot_values_model(sm.take(n))[q]);
                }
            }
            assert(items(values@) =~= slot_values_model(sm.take(n + 1)));
            n = n + 1;
        }
    }
    assert(sm.take(n) =~= sm);
    values
}

/// See `fix_tuple`. Fields not held in an object, or keyed by something
/// other than a position, give an error for the caller to stop on.
pub fn fixup_tuple(t: Json) -> (r: Result<Json, FixupError>)
    ensures
        outcome(r) == fix_tuple(model(t)),
{
    match t {
        Json::Object(m) => {
            proof {
                lemma_object_model(m);
            }
            match collect_slots(m) {
                Some(slots) => {
                    let values = slot_values(slots);
                    proof {
                        lemma_array_model(values);
                    }
                    Ok(Json::Array(values))
                },
                None => Err(FixupError::TupleKeyNotIndex),
            }
        },
        _ => Err(FixupError::TupleNotObject),
    }
}

/// See `fix_tuple_member`
fn fixup_tuple_member(m: Vec<(String, Json)>, k: &str) -> (r: Result<Json, FixupError>)
    ensures
        outcome(r) == fix_tuple_member(members(m@), k@),
{
    let mut m = m;
    match take_member(&mut m, k) {
        Some(t) => match fixup_tuple(t) {
            Ok(a) => {
                put_member(&mut m, k.to_string(), a);
                proof {
                    lemma_object_model(m);
                }
                Ok(Json::Object(m))
            },
            Err(e) => Err(e),
        },
        None => Err(FixupError::TupleMissing),
    }
}

/// See `fix_tuple_types`
pub fn fixup_tuple_types(ctx: &FixupContext, v: Json) -> (r: Result<Json, FixupError>)
    ensures
        outcome(r) == fix_tuple_types(*ctx, model(v)),
{
    match v {
        Json::Object(m) => {
            proof {
                lemma_object_model(m);
            }
            let (is_tuple, is_tuple_struct) = match lookup_type(ctx, &m) {
                Some(reg) => match &reg.shape {
                    TypeShape::Tuple => (true, false),
                    TypeShape::TupleStruct => (false, true),
                    _ => (false, false),
                },
                None => (false, false),
            };
            if is_tuple {
                fixup_tuple_member(m, "tuple")
            } else if is_tuple_struct {
                fixup_tuple_member(m, "tuple_struct")
            } else {
                Ok(Json::Object(m))
            }
        },
        other => Ok(other),
    }
}

/// See `map_entry`
fn take_map_entry(k: Json, x: Json, value_type: &String) -> (r: Result<(String, Json), FixupError>)
    ensures
        match map_entry(model(k), model(x), value_type@) {
            Ok(e) => r is Ok && (r->Ok_0).0@ == e.0 && model((r->Ok_0).1) == e.1,
            Err(err) => r == Err::<(String, Json), FixupError>(err),
        },
{
    match (k, x) {
        (Json::Object(mut km), Json::Object(mut xm)) => {
            proof {
                lemma_object_model(km);
                lemma_object_model(xm);
            }
            let kv = match take_member(&mut km, "value") {
                Some(kv) => kv,
                None => return Err(FixupError::MapEntryValueMissing),
            };
            let xv = match take_member(&mut xm, "value") {
                Some(xv) => xv,
                None => return Err(FixupError::MapEntryValueMissing),
            };
            match kv {
                Json::Text(key) => {
                    let ghost xvm = model(xv);
                    let entry = vec![("type".to_string(), Json::Text(value_type.clone())), ("value".to_string(), xv)];
                    proof {
                        lemma_object_model(entry);
                        assert(members(entry@) =~= seq![("type"@, JsonModel::Text(value_type@)), ("value"@, xvm)]);
                    }
                    Ok((key, Json::Object(entry)))
                },
                _ => Err(FixupError::MapKeyNotString),
            }
        },
        _ => Err(FixupError::MapEntryNotObject),
    }
}

/// A failed map entry fails every longer run of entries the same way
proof fn lemma_map_entries_err(ks: Seq<JsonModel>, xs: Seq<JsonModel>, vt: Seq<char>, j: nat, n: nat)
    requires
        j <= n,
        map_entries(ks, xs, vt, j) is Err,
    ensures
        map_entries(ks, xs, vt, n) == map_entries(ks, xs, vt, j),
    decreases n - j,
{
    if j < n {
        lemma_map_entries_err(ks, xs, vt, j, (n - 1) as nat);
    }
}

/// The map entries of `ks` and `xs`, gathered into an object
fn gather_entries(ks: Vec<Json>, xs: Vec<Json>, value_type: &String) -> (r: Result<Vec<(String, Json)>, FixupError>)
    ensures
        match map_entries(items(ks@), items(xs@), value_type@, min_len(ks@.len(), xs@.len())) {
            Ok(ms) => r is Ok && members(r->Ok_0@) == ms,
            Err(e) => r == Err::<Vec<(String, Json)>, FixupError>(e),
        },
{
    let ghost ks0 = ks@;
    let ghost xs0 = xs@;
    let n: usize = if ks.len() < xs.len() { ks.len() } else { xs.len() };
    let ghost nn = min_len(ks0.len(), xs0.len());
    let mut krest = ks;
    let mut xrest = xs;
    let mut acc: Vec<(String, Json)> = Vec::new();
    let mut i: usize = 0;
    assert(members(acc@) =~= Seq::<(Seq<char>, JsonModel)>::empty());
    while i < n
        invariant
            n == nn,
            ks0 == ks@,
            xs0 == xs@,
            nn == min_len(ks@.len(), xs@.len()),
            nn <= ks0.len(),
            nn <= xs0.len(),
            i <= n,
            krest@ == ks0.skip(i as int),
            xrest@ == xs0.skip(i as int),
            map_entries(items(ks0), items(xs0), value_type@, i as nat) == Ok::<Members, FixupError>(members(acc@)),
        decreases n - i,
    {
        let k = krest.remove(0);
        let x = xrest.remove(0);
        proof {
            assert(k == ks0[i as int]);
            assert(x == xs0[i as int]);
            assert(items(ks0)[i as int] == model(k));
            assert(items(xs0)[i as int] == model(x));
        }
        match take_map_entry(k, x, value_type) {
            Ok((key, val)) => {
                put_member(&mut acc, key, val);
            },
            Err(e) => {
                proof {
                    lemma_map_entries_err(items(ks0), items(xs0), value_type@, (i + 1) as nat, nn);
                }
                return Err(e);
            },
        }
        i = i + 1;
        assert(krest@ =~= ks0.skip(i as int));
        assert(xrest@ =~= xs0.skip(i as int));
    }
    Ok(acc)
}

/// See `fix_map`. A malformed entry gives an error for the caller to stop
/// on.
pub fn fixup_map(ctx: &FixupContext, v: Json) -> (r: Result<Json, FixupError>)
    ensures
        outcome(r) == fix_map(*ctx, model(v)),
{
    match v {
        Json::Object(mut m) => {
            proof {
                lemma_object_model(m);
            }
            let value_type = match lookup_type(ctx, &m) {
                Some(reg) => match &reg.shape {
                    TypeShape::Keyed(vt) => vt,
                    _ => return Ok(Json::Object(m)),
                },
                None => return Ok(Json::Object(m)),
            };
            let keys = take_member(&mut m, "keys");
            let values = take_member(&mut m, "values");
            match (keys, values) {
                (Some(Json::Array(ks)), Some(Json::Array(xs))) => {
                    proof {
                        lemma_array_model(ks);
                        lemma_array_model(xs);
                    }
                    match gather_entries(ks, xs, value_type) {
                        Ok(entries) => {
                            proof {
                                lemma_object_model(entries);
                            }
                            put_member(&mut m, "map".to_string(), Json::Object(entries));
                            proof {
                                lemma_object_model(m);
                            }
                            Ok(Json::Object(m))
                        },
                        Err(e) => Err(e),
                    }
                },
                _ => {
                    let empty: Vec<(String, Json)> = Vec::new();
                    proof {
                        lemma_object_model(empty);
                        assert(members(empty@) =~= Seq::<(Seq<char>, JsonModel)>::empty());
                    }
                    put_member(&mut m, "value".to_string(), Json::Object(empty));
                    proof {
                        lemma_object_model(m);
                    }
                    Ok(Json::Object(m))
                },
            }
        },
        other => Ok(other),
    }
}

/// The identifier of the first entity named `name`
fn find_entity(ctx: &FixupContext, name: &String) -> (r: Option<u64>)
    ensures
        match first_of(ctx.entities@, entity_named(name@)) {
            Some(i) => r == Some(ctx.entities@[i].1),
            None => r is None,
        },
{
    let mut i: usize = 0;
    while i < ctx.entities.len()
        invariant
            i <= ctx.entities@.len(),
            forall|j: int| 0 <= j < i ==> !entity_named(name@)(#[trigger] ctx.entities@[j]),
        decreases ctx.entities@.len() - i,
    {
        if same_text(ctx.entities[i].0.as_str(), name.as_str()) {
            proof {
                lemma_first_of_found(ctx.entities@, entity_named(name@), i as int);
            }
            return Some(ctx.entities[i].1);
        }
        i = i + 1;
    }
    proof {
        lemma_first_of(ctx.entities@, entity_named(name@));
    }
    None
}

/// See `fix_entity`. A reference to a name no entity has cannot be
/// rewritten: this returns `NoEntityNamed` for it, and the caller stops
/// loading the scene there.
pub fn fixup_entity(ctx: &FixupContext, v: Json) -> (r: Result<Json, FixupError>)
    ensures
        outcome(r) == fix_entity(*ctx, model(v)),
{
    match v {
        Json::Object(mut m) => {
            proof {
                lemma_object_model(m);
            }
            let other_type = match get_member(&m, "type") {
                Some(Json::Text(n)) => !same_text(n.as_str(), ctx.entity_type_name.as_str()),
                _ => false,
            };
            if other_type {
                return Ok(Json::Object(m));
            }
            match take_member(&mut m, "value") {
                Some(Json::Object(ev)) => {
                    proof {
                        lemma_object_model(ev);
                    }
                    match get_member(&ev, "name") {
                        Some(Json::Text(name)) => match find_entity(ctx, name) {
                            Some(bits) => {
                                put_member(&mut m, "value".to_string(), Json::Number(JsonNumber::Unsigned(bits)));
                                proof {
                                    lemma_object_model(m);
                                }
                                Ok(Json::Object(m))
                            },
                            None => Err(FixupError::NoEntityNamed),
                        },
                        _ => {
                            proof {
                                lemma_object_model(m);
                            }
                            Ok(Json::Object(m))
                        },
                    }
                },
                _ => {
                    proof {
                        lemma_object_model(m);
                    }
                    Ok(Json::Object(m))
                },
            }
        },
        other => Ok(other),
    }
}

/// See `fix_node`
pub fn fixup_node(ctx: &FixupContext, v: Json) -> (r: Result<Json, FixupError>)
    ensures
        outcome(r) == fix_node(*ctx, model(v)),
{
    let v1 = match fixup_bool(ctx, v) {
        Ok(x) => x,
        Err(e) => return Err(e),
    };
    let v2 = match fixup_enum(ctx, v1) {
        Ok(x) => x,
        Err(e) => return Err(e),
    };
    let v3 = match fixup_option(ctx, v2) {
        Ok(x) => x,
        Err(e) => return Err(e),
    };
    let v4 = match fixup_tuple_types(ctx, v3) {
        Ok(x) => x,
        Err(e) => return Err(e),
    };
    let v5 = match fixup_map(ctx, v4) {
        Ok(x) => x,
        Err(e) => return Err(e),
    };
    fixup_entity(ctx, v5)
}

/// A member found in `m` is no higher than `m`'s members
proof fn lemma_obj_get_height(m: Members, k: Seq<char>)
    ensures
        obj_get(m, k) matches Some(y) ==> m.len() > 0 && height(y) <= members_height(m),
{
    lemma_first_of(m, crate::gltf::object::has_key(k));
    lemma_members_height(m);
}

/// A member of `m` is no higher than `m`'s members
proof fn lemma_contained_height(m: Members, e: (Seq<char>, JsonModel))
    requires
        m.contains(e),
    ensures
        height(e.1) <= members_height(m),
{
    lemma_members_height(m);
    let i = choose|i: int| 0 <= i < m.len() && m[i] == e;
    assert(height(m[i].1) <= members_height(m));
}

/// Taking members out of a non-empty object and setting one no higher than
/// its members leaves it no higher
proof fn lemma_reinsert_height(m: Members, removed: Members, k: Seq<char>, x: JsonModel)
    requires
        m.len() > 0,
        forall|i: int| 0 <= i < removed.len() ==> m.contains(#[trigger] removed[i]),
        height(x) <= members_height(m),
    ensures
        height(JsonModel::Object(obj_insert(removed, k, x))) <= height(JsonModel::Object(m)),
        height(JsonModel::Object(removed)) <= height(JsonModel::Object(m)),
{
    let r = obj_insert(removed, k, x);
    lemma_obj_insert_members(removed, k, x);
    assert forall|i: int| 0 <= i < r.len() implies height(#[trigger] r[i].1) <= members_height(m) by {
        if r[i] != (k, x) {
            let j = choose|j: int| 0 <= j < removed.len() && removed[j] == r[i];
            lemma_contained_height(m, removed[j]);
        }
    }
    lemma_members_height_bound(r, members_height(m));
    assert forall|i: int| 0 <= i < removed.len() implies height(#[trigger] removed[i].1) <= members_height(m) by {
        lemma_contained_height(m, removed[i]);
    }
    lemma_members_height_bound(removed, members_height(m));
}

/// Setting or dropping `value` leaves a non-empty object no higher when the
/// new value is no higher than its members
proof fn lemma_with_value_height(m: Members, x: JsonModel)
    requires
        m.len() > 0,
        height(x) <= members_height(m),
    ensures
        height(with_value(m, x)) <= height(JsonModel::Object(m)),
        height(without_value(m)) <= height(JsonModel::Object(m)),
{
    lemma_obj_remove_members(m, "value"@);
    lemma_reinsert_height(m, obj_remove(m, "value"@), "value"@, x);
}

proof fn lemma_fix_bool_height(ctx: FixupContext, v: JsonModel)
    ensures
        fix_bool(ctx, v) matches Ok(w) ==> height(w) <= height(v),
{
    if let JsonModel::Object(m) = v {
        lemma_obj_get_height(m, "type"@);
        lemma_obj_get_height(m, "value"@);
        if m.len() > 0 {
            lemma_with_value_height(m, JsonModel::Bool(true));
            lemma_with_value_height(m, JsonModel::Bool(false));
        }
    }
}

proof fn lemma_fix_enum_height(ctx: FixupContext, v: JsonModel)
    ensures
        fix_enum(ctx, v) matches Ok(w) ==> height(w) <= height(v),
{
    if let JsonModel::Object(m) = v {
        lemma_obj_get_height(m, "type"@);
        if m.len() > 0 {
            if let Some(r) = registered(ctx, m) {
                if let Some(vars) = r.enum_variants {
                    if let Some(JsonModel::Number(NumberModel::Unsigned(n))) = obj_get(m, "value"@) {
                        if n < vars@.len() {
                            lemma_with_value_height(m, JsonModel::Text(vars@[n as int]@));
                        }
                    }
                }
            }
            lemma_with_value_height(m, JsonModel::Null);
        }
    }
}

proof fn lemma_fix_option_height(ctx: FixupContext, v: JsonModel)
    ensures
        fix_option(ctx, v) matches Ok(w) ==> height(w) <= height(v),
{
    if let JsonModel::Object(m) = v {
        lemma_obj_get_height(m, "type"@);
        lemma_obj_get_height(m, "value"@);
        if m.len() > 0 {
            if let Some(JsonModel::Object(inner)) = obj_get(m, "value"@) {
                lemma_obj_get_height(inner, "value"@);
                if let Some(x) = obj_get(inner, "value"@) {
                    lemma_with_value_height(m, x);
                }
            }
            lemma_with_value_height(m, JsonModel::Null);
        }
    }
}

/// `place` keeps the slots it had, but for the one it replaces, and adds
/// the new one
proof fn lemma_place_slots(s: Slots, i: nat, x: JsonModel)
    ensures
        forall|q: int| 0 <= q < place(s, i, x).len() ==> s.contains(#[trigger] place(s, i, x)[q]) || place(s, i, x)[q] == (i, x),
        place(s, i, x).len() > 0,
{
    lemma_first_of(s, slot_at(i));
    lemma_first_of(s, slot_after(i));
    let r = place(s, i, x);
    match first_of(s, slot_at(i)) {
        Some(j) => {
            assert forall|q: int| 0 <= q < r.len() implies s.contains(#[trigger] r[q]) || r[q] == (i, x) by {
                if q != j {
                    assert(r[q] == s[q]);
                }
            }
        },
        None => match first_of(s, slot_after(i)) {
            Some(j) => {
                assert forall|q: int| 0 <= q < r.len() implies s.contains(#[trigger] r[q]) || r[q] == (i, x) by {
                    if q < j {
                        assert(r[q] == s[q]);
                    } else if q > j {
                        assert(r[q] == s[q - 1]);
                    }
                }
            },
            None => {
                assert forall|q: int| 0 <= q < r.len() implies s.contains(#[trigger] r[q]) || r[q] == (i, x) by {
                    if q < s.len() {
                        assert(r[q] == s[q]);
                    }
                }
            },
        },
    }
}

/// The slots hold values of members of the tuple object, and are empty
/// only where it is
proof fn lemma_tuple_slots_height(m: Members)
    ensures
        tuple_slots(m) matches Some(s) ==> (forall|q: int| 0 <= q < s.len() ==> height(#[trigger] s[q].1) <= members_height(m))
            && (s.len() > 0 ==> m.len() > 0),
    decreases m.len(),
{
    if m.len() > 0 {
        let d = m.drop_last();
        lemma_tuple_slots_height(d);
        lemma_members_height(m);
        lemma_members_height(d);
        if let Some(s0) = tuple_slots(d) {
            if let Some(i) = parse_index(text_bytes(m.last().0)) {
                lemma_place_slots(s0, i, m.last().1);
                let s = place(s0, i, m.last().1);
                assert(height(m[m.len() - 1].1) <= members_height(m));
                assert forall|q: int| 0 <= q < s.len() implies height(#[trigger] s[q].1) <= members_height(m) by {
                    if s[q] != (i, m.last().1) {
                        let j = choose|j: int| 0 <= j < s0.len() && s0[j] == s[q];
                        assert(height(s0[j].1) <= members_height(d));
                    }
                }
            }
        }
    }
}

proof fn lemma_fix_tuple_member_height(m: Members, k: Seq<char>)
    ensures
        fix_tuple_member(m, k) matches Ok(w) ==> height(w) <= height(JsonModel::Object(m)),
{
    lemma_obj_get_height(m, k);
    if let Some(t) = obj_get(m, k) {
        if let JsonModel::Object(tm) = t {
            lemma_tuple_slots_height(tm);
            if let Some(s) = tuple_slots(tm) {
                let vals = slot_values_model(s);
                assert forall|q: int| 0 <= q < vals.len() implies height(#[trigger] vals[q]) <= members_height(tm) by {
                    assert(vals[q] == s[q].1);
                }
                lemma_items_height_bound(vals, members_height(tm));
                lemma_obj_remove_members(m, k);
                lemma_reinsert_height(m, obj_remove(m, k), k, JsonModel::Array(vals));
            }
        }
    }
}

proof fn lemma_fix_tuple_types_height(ctx: FixupContext, v: JsonModel)
    ensures
        fix_tuple_types(ctx, v) matches Ok(w) ==> height(w) <= height(v),
{
    if let JsonModel::Object(m) = v {
        lemma_fix_tuple_member_height(m, "tuple"@);
        lemma_fix_tuple_member_height(m, "tuple_struct"@);
    }
}

/// Each gathered map entry is a non-empty object no higher than the values
/// array it came from
proof fn lemma_map_entries_height(ks: Seq<JsonModel>, xs: Seq<JsonModel>, vt: Seq<char>, n: nat)
    requires
        n <= xs.len(),
    ensures
        map_entries(ks, xs, vt, n) matches Ok(es) ==> (forall|q: int| 0 <= q < es.len() ==> height(#[trigger] es[q].1) <= items_height(xs))
            && (es.len() > 0 ==> xs.len() > 0),
    decreases n,
{
    if n > 0 {
        lemma_map_entries_height(ks, xs, vt, (n - 1) as nat);
        if let Ok(acc) = map_entries(ks, xs, vt, (n - 1) as nat) {
            if let Ok(e) = map_entry(ks[n - 1], xs[n - 1], vt) {
                lemma_items_height(xs);
                assert(height(xs[n - 1]) <= items_height(xs));
                if let JsonModel::Object(xm) = xs[n - 1] {
                    lemma_obj_get_height(xm, "value"@);
                    if let Some(xv) = obj_get(xm, "value"@) {
                        let inner: Members = seq![("type"@, JsonModel::Text(vt)), ("value"@, xv)];
                        assert(inner.drop_last() =~= seq![("type"@, JsonModel::Text(vt))]);
                        assert(inner.drop_last().drop_last() =~= Seq::<(Seq<char>, JsonModel)>::empty());
                        assert(members_height(inner.drop_last().drop_last()) == 0);
                        assert(inner.drop_last().last() == ("type"@, JsonModel::Text(vt)));
                        assert(height(JsonModel::Text(vt)) == 0);
                        assert(inner.last() == ("value"@, xv));
                        assert(members_height(inner.drop_last()) == 0);
                        assert(members_height(inner) == height(xv));
                        assert(height(e.1) <= items_height(xs));
                    }
                }
                lemma_obj_insert_members(acc, e.0, e.1);
                let r = obj_insert(acc, e.0, e.1);
                assert forall|q: int| 0 <= q < r.len() implies height(#[trigger] r[q].1) <= items_height(xs) by {
                    if r[q] != e {
                        let j = choose|j: int| 0 <= j < acc.len() && acc[j] == r[q];
                        assert(height(acc[j].1) <= items_height(xs));
                    }
                }
            }
        }
    }
}

proof fn lemma_fix_map_height(ctx: FixupContext, v: JsonModel)
    ensures
        fix_map(ctx, v) matches Ok(w) ==> height(w) <= height(v),
{
    if let JsonModel::Object(m) = v {
        lemma_obj_get_height(m, "type"@);
        if m.len() > 0 {
            let without_keys = obj_remove(m, "keys"@);
            let rest = obj_remove(without_keys, "values"@);
            lemma_obj_remove_members(m, "keys"@);
            lemma_obj_remove_members(without_keys, "values"@);
            assert forall|i: int| 0 <= i < rest.len() implies m.contains(#[trigger] rest[i]) by {
                assert(without_keys.contains(rest[i]));
                let j = choose|j: int| 0 <= j < without_keys.len() && without_keys[j] == rest[i];
                assert(m.contains(without_keys[j]));
            }
            lemma_reinsert_height(m, rest, "value"@, JsonModel::Object(Seq::empty()));
            if let Some(JsonModel::Array(xs)) = obj_get(without_keys, "values"@) {
                if let Some(JsonModel::Array(ks)) = obj_get(m, "keys"@) {
                    lemma_obj_get_height(without_keys, "values"@);
                    if let Some(r) = registered(ctx, m) {
                        if let TypeShape::Keyed(vt) = r.shape {
                            let n = min_len(ks.len(), xs.len());
                            lemma_map_entries_height(ks, xs, vt@, n);
                            if let Ok(es) = map_entries(ks, xs, vt@, n) {
                                lemma_members_height_bound(es, items_height(xs));
                                assert forall|i: int| 0 <= i < without_keys.len() implies height(#[trigger] without_keys[i].1) <= members_height(m) by {
                                    lemma_contained_height(m, without_keys[i]);
                                }
                                lemma_members_height_bound(without_keys, members_height(m));
                                lemma_reinsert_height(m, rest, "map"@, JsonModel::Object(es));
                            }
                        }
                    }
                }
            }
        }
    }
}

proof fn lemma_fix_entity_height(ctx: FixupContext, v: JsonModel)
    ensures
        fix_entity(ctx, v) matches Ok(w) ==> height(w) <= height(v),
{
    if let JsonModel::Object(m) = v {
        lemma_obj_get_height(m, "value"@);
        if m.len() > 0 {
            lemma_with_value_height(m, JsonModel::Number(NumberModel::Unsigned(0)));
            assert forall|b: u64| height(#[trigger] with_value(m, JsonModel::Number(NumberModel::Unsigned(b)))) <= height(v) by {
                lemma_with_value_height(m, JsonModel::Number(NumberModel::Unsigned(b)));
            }
        } else {
            lemma_first_of(m, crate::gltf::object::has_key("value"@));
        }
    }
}

/// No fixup makes a value nest deeper
pub proof fn lemma_fix_node_height(ctx: FixupContext, v: JsonModel)
    ensures
        fix_node(ctx, v) matches Ok(w) ==> height(w) <= height(v),
{
    lemma_fix_bool_height(ctx, v);
    if let Ok(v1) = fix_bool(ctx, v) {
        lemma_fix_enum_height(ctx, v1);
        if let Ok(v2) = fix_enum(ctx, v1) {
            lemma_fix_option_height(ctx, v2);
            if let Ok(v3) = fix_option(ctx, v2) {
                lemma_fix_tuple_types_height(ctx, v3);
                if let Ok(v4) = fix_tuple_types(ctx, v3) {
                    lemma_fix_map_height(ctx, v4);
                    if let Ok(v5) = fix_map(ctx, v4) {
                        lemma_fix_entity_height(ctx, v5);
                    }
                }
            }
        }
    }
}

/// A value with every value inside it rewritten by all fixups, outermost
/// first: a value is fixed, then each item or member of what it became, in
/// order. The first failure is the result.
pub open spec fn walk(ctx: FixupContext, v: JsonModel) -> Result<JsonModel, FixupError>
    decreases height(v), 1int,
{
    match fix_node(ctx, v) {
        Err(e) => Err(e),
        Ok(w) => {
            proof {
                lemma_fix_node_height(ctx, v);
            }
            match w {
                JsonModel::Array(a) => if a.len() == 0 {
                    Ok(w)
                } else {
                    match walk_items(ctx, a) {
                        Ok(b) => Ok(JsonModel::Array(b)),
                        Err(e) => Err(e),
                    }
                },
                JsonModel::Object(m) => if m.len() == 0 {
                    Ok(w)
                } else {
                    match walk_members(ctx, m) {
                        Ok(b) => Ok(JsonModel::Object(b)),
                        Err(e) => Err(e),
                    }
                },
                _ => Ok(w),
            }
        },
    }
}

/// The items of an array, each walked, in order
pub open spec fn walk_items(ctx: FixupContext, a: Seq<JsonModel>) -> Result<Seq<JsonModel>, FixupError>
    decreases items_height(a), a.len() + 1,
{
    if a.len() == 0 {
        Ok(Seq::empty())
    } else {
        match walk_items(ctx, a.drop_last()) {
            Err(e) => Err(e),
            Ok(done) => match walk(ctx, a.last()) {
                Err(e) => Err(e),
                Ok(x) => Ok(done.push(x)),
            },
        }
    }
}

/// The members of an object, each value walked, in order
pub open spec fn walk_members(ctx: FixupContext, m: Members) -> Result<Members, FixupError>
    decreases members_height(m), m.len() + 1,
{
    if m.len() == 0 {
        Ok(Seq::empty())
    } else {
        match walk_members(ctx, m.drop_last()) {
            Err(e) => Err(e),
            Ok(done) => match walk(ctx, m.last().1) {
                Err(e) => Err(e),
                Ok(x) => Ok(done.push((m.last().0, x))),
            },
        }
    }
}

proof fn lemma_walk_items_take(ctx: FixupContext, a: Seq<JsonModel>, k: int)
    requires
        0 <= k < a.len(),
    ensures
        walk_items(ctx, a.take(k + 1)) == match walk_items(ctx, a.take(k)) {
            Err(e) => Err(e),
            Ok(d) => match walk(ctx, a[k]) {
                Err(e) => Err(e),
                Ok(x) => Ok(d.push(x)),
            },
        },
{
    assert(a.take(k + 1).drop_last() =~= a.take(k));
    assert(a.take(k + 1).last() == a[k]);
}

proof fn lemma_walk_items_err(ctx: FixupContext, a: Seq<JsonModel>, k: int)
    requires
        0 <= k <= a.len(),
        walk_items(ctx, a.take(k)) is Err,
    ensures
        walk_items(ctx, a) == walk_items(ctx, a.take(k)),
    decreases a.len() - k,
{
    if k < a.len() {
        lemma_walk_items_take(ctx, a, k);
        lemma_walk_items_err(ctx, a, k + 1);
    } else {
        assert(a.take(k) =~= a);
    }
}

proof fn lemma_walk_members_take(ctx: FixupContext, m: Members, k: int)
    requires
        0 <= k < m.len(),
    ensures
        walk_members(ctx, m.take(k + 1)) == match walk_members(ctx, m.take(k)) {
            Err(e) => Err(e),
            Ok(d) => match walk(ctx, m[k].1) {
                Err(e) => Err(e),
                Ok(x) => Ok(d.push((m[k].0, x))),
            },
        },
{
    assert(m.take(k + 1).drop_last() =~= m.take(k));
    assert(m.take(k + 1).last() == m[k]);
}

proof fn lemma_walk_members_err(ctx: FixupContext, m: Members, k: int)
    requires
        0 <= k <= m.len(),
        walk_members(ctx, m.take(k)) is Err,
    ensures
        walk_members(ctx, m) == walk_members(ctx, m.take(k)),
    decreases m.len() - k,
{
    if k < m.len() {
        lemma_walk_members_take(ctx, m, k);
        lemma_walk_members_err(ctx, m, k + 1);
    } else {
        assert(m.take(k) =~= m);
    }
}

/// See `walk`
pub fn walk_json(ctx: &FixupContext, v: Json) -> (r: Result<Json, FixupError>)
    ensures
        outcome(r) == walk(*ctx, model(v)),
    decreases height(model(v)),
{
    let ghost vm = model(v);
    let w = match fixup_node(ctx, v) {
        Ok(w) => w,
        Err(e) => return Err(e),
    };
    proof {
        lemma_fix_node_height(*ctx, vm);
    }
    match w {
        Json::Array(a) => {
            proof {
                lemma_array_model(a);
            }
            if a.len() == 0 {
                return Ok(Json::Array(a));
            }
            let ghost am = items(a@);
            proof {
                lemma_items_height(am);
            }
            let mut rest = a;
            let mut out: Vec<Json> = Vec::new();
            let ghost mut k: int = 0;
            assert(am.take(0) =~= Seq::<JsonModel>::empty());
            assert(items(out@) =~= Seq::<JsonModel>::empty());
            while rest.len() > 0
                invariant
                    vm == model(v),
                    am.len() > 0,
                    fix_node(*ctx, vm) == Ok::<JsonModel, FixupError>(JsonModel::Array(am)),
                    1 + items_height(am) <= height(vm),
                    forall|q: int| 0 <= q < am.len() ==> height(#[trigger] am[q]) <= items_height(am),
                    0 <= k <= am.len(),
                    k + rest@.len() == am.len(),
                    forall|q: int| 0 <= q < rest@.len() ==> model(#[trigger] rest@[q]) == am[k + q],
                    walk_items(*ctx, am.take(k)) == Ok::<Seq<JsonModel>, FixupError>(items(out@)),
                decreases rest@.len(),
            {
                let ghost before = rest@;
                let x = rest.remove(0);
                proof {
                    assert(model(before[0]) == am[k]);
                    lemma_walk_items_take(*ctx, am, k);
                }
                match walk_json(ctx, x) {
                    Ok(y) => {
                        let ghost done = out@;
                        out.push(y);
                        assert(items(out@) =~= items(done).push(model(y)));
                    },
                    Err(e) => {
                        proof {
                            lemma_walk_items_err(*ctx, am, k + 1);
                        }
                        return Err(e);
                    },
                }
                proof {
                    assert forall|q: int| 0 <= q < rest@.len() implies model(#[trigger] rest@[q]) == am[k + 1 + q] by {
                        assert(rest@[q] == before[q + 1]);
                    }
                    k = k + 1;
                }
            }
            assert(am.take(k) =~= am);
            proof {
                lemma_array_model(out);
            }
            Ok(Json::Array(out))
        },
        Json::Object(m) => {
            proof {
                lemma_object_model(m);
            }
            if m.len() == 0 {
                return Ok(Json::Object(m));
            }
            let ghost mm = members(m@);
            proof {
                lemma_members_height(mm);
            }
            let mut rest = m;
            let mut out: Vec<(String, Json)> = Vec::new();
            let ghost mut k: int = 0;
            assert(mm.take(0) =~= Seq::<(Seq<char>, JsonModel)>::empty());
            assert(members(out@) =~= Seq::<(Seq<char>, JsonModel)>::empty());
            while rest.len() > 0
                invariant
                    vm == model(v),
                    mm.len() > 0,
                    fix_node(*ctx, vm) == Ok::<JsonModel, FixupError>(JsonModel::Object(mm)),
                    1 + members_height(mm) <= height(vm),
                    forall|q: int| 0 <= q < mm.len() ==> height(#[trigger] mm[q].1) <= members_height(mm),
                    0 <= k <= mm.len(),
                    k + rest@.len() == mm.len(),
                    forall|q: int| 0 <= q < rest@.len() ==> (#[trigger] rest@[q]).0@ == mm[k + q].0 && model(rest@[q].1) == mm[k + q].1,
                    walk_members(*ctx, mm.take(k)) == Ok::<Members, FixupError>(members(out@)),
                decreases rest@.len(),
            {
                let ghost before = rest@;
                let (key, x) = rest.remove(0);
                proof {
                    assert(before[0].0@ == mm[k].0 && model(before[0].1) == mm[k].1);
                    lemma_walk_members_take(*ctx, mm, k);
                }
                match walk_json(ctx, x) {
                    Ok(y) => {
                        let ghost done = out@;
                        let ghost e = (key@, model(y));
                        out.push((key, y));
                        assert(members(out@) =~= members(done).push(e));
                    },
                    Err(e) => {
                        proof {
                            lemma_walk_members_err(*ctx, mm, k + 1);
                        }
                        return Err(e);
                    },
                }
                proof {
                    assert forall|q: int| 0 <= q < rest@.len() implies (#[trigger] rest@[q]).0@ == mm[k + 1 + q].0 && model(rest@[q].1) == mm[k + 1 + q].1 by {
                        assert(rest@[q] == before[q + 1]);
                    }
                    k = k + 1;
                }
            }
            assert(mm.take(k) =~= mm);
            proof {
                lemma_object_model(out);
            }
            Ok(Json::Object(out))
        },
        other => Ok(other),
    }
}

/// The type a component names: its `type` member, which must be a string
pub open spec fn component_type(v: JsonModel) -> Result<Seq<char>, FixupError> {
    match v {
        JsonModel::Object(m) => match obj_get(m, "type"@) {
            Some(JsonModel::Text(t)) => Ok(t),
            Some(_) => Err(FixupError::TypeNotText),
            None => Err(FixupError::TypeMissing),
        },
        _ => Err(FixupError::TypeMissing),
    }
}

/// Prepares one component of a node's extras for deserialization: reads
/// the type it names, then walks it with every fixup. Returns the type name
/// and the rewritten component.
pub fn fixup_component(ctx: &FixupContext, component: Json) -> (r: Result<(String, Json), FixupError>)
    ensures
        match component_type(model(component)) {
            Err(e) => r == Err::<(String, Json), FixupError>(e),
            Ok(t) => match walk(*ctx, model(component)) {
                Err(e) => r == Err::<(String, Json), FixupError>(e),
                Ok(w) => r is Ok && (r->Ok_0).0@ == t && model((r->Ok_0).1) == w,
            },
        },
{
    let named_type = match &component {
        Json::Object(m) => {
            proof {
                lemma_object_model(*m);
            }
            match get_member(m, "type") {
                Some(Json::Text(t)) => t.clone(),
                Some(_) => return Err(FixupError::TypeNotText),
                None => return Err(FixupError::TypeMissing),
            }
        },
        _ => return Err(FixupError::TypeMissing),
    };
    match walk_json(ctx, component) {
        Ok(w) => Ok((named_type, w)),
        Err(e) => Err(e),
    }
}

/// The components a node's extras attach to its entity: the members of its
/// `entity` object, none without one
pub open spec fn entity_components(extras: JsonModel) -> Result<Members, FixupError> {
    match extras {
        JsonModel::Object(m) => match obj_get(m, "entity"@) {
            Some(JsonModel::Object(c)) => Ok(c),
            Some(_) => Err(FixupError::EntityNotObject),
            None => Ok(Seq::empty()),
        },
        _ => Err(FixupError::ExtrasNotObject),
    }
}

/// The extras without their `entity` member
pub open spec fn extras_rest(extras: JsonModel) -> JsonModel {
    match extras {
        JsonModel::Object(m) => JsonModel::Object(obj_remove(m, "entity"@)),
        _ => extras,
    }
}

/// Takes the components out of a node's extras (see `entity_components`),
/// returning the rest of the extras with them
pub fn take_entity_components(extras: Json) -> (r: Result<(Json, Vec<(String, Json)>), FixupError>)
    ensures
        match entity_components(model(extras)) {
            Ok(c) => r is Ok && model((r->Ok_0).0) == extras_rest(model(extras)) && members((r->Ok_0).1@) == c,
            Err(e) => r == Err::<(Json, Vec<(String, Json)>), FixupError>(e),
        },
{
    match extras {
        Json::Object(mut m) => {
            proof {
                lemma_object_model(m);
            }
            let found = take_member(&mut m, "entity");
            proof {
                lemma_object_model(m);
            }
            match found {
                Some(Json::Object(c)) => {
                    proof {
                        lemma_object_model(c);
                    }
                    Ok((Json::Object(m), c))
                },
                Some(_) => Err(FixupError::EntityNotObject),
                None => {
                    let none: Vec<(String, Json)> = Vec::new();
                    assert(members(none@) =~= Seq::<(Seq<char>, JsonModel)>::empty());
                    Ok((Json::Object(m), none))
                },
            }
        },
        _ => Err(FixupError::ExtrasNotObject),
    }
}

/// Positions strictly increasing
pub open spec fn slots_ordered(s: Slots) -> bool {
    forall|i: int, j: int| 0 <= i < j < s.len() ==> s[i].0 < s[j].0
}

proof fn lemma_place_ordered(s: Slots, i: nat, x: JsonModel)
    requires
        slots_ordered(s),
    ensures
        slots_ordered(place(s, i, x)),
{
    lemma_first_of(s, slot_at(i));
    lemma_first_of(s, slot_after(i));
    let r = place(s, i, x);
    match first_of(s, slot_at(i)) {
        Some(j) => {
            assert forall|a: int, b: int| 0 <= a < b < r.len() implies r[a].0 < r[b].0 by {
                assert(r[a].0 == s[a].0 && r[b].0 == s[b].0);
            }
        },
        None => match first_of(s, slot_after(i)) {
            Some(j) => {
                assert forall|a: int, b: int| 0 <= a < b < r.len() implies r[a].0 < r[b].0 by {
                    if b < j {
                        assert(r[a] == s[a] && r[b] == s[b]);
                    } else if b == j {
                        assert(r[a] == s[a]);
                        assert(!slot_after(i)(s[a]));
                        assert(!slot_at(i)(s[a]));
                    } else if a < j {
                        assert(r[a] == s[a] && r[b] == s[b - 1]);
                    } else if a == j {
                        assert(r[b] == s[b - 1]);
                        assert(slot_after(i)(s[j]));
                        if b - 1 > j {
                            assert(s[j].0 < s[b - 1].0);
                        }
                    } else {
                        assert(r[a] == s[a - 1] && r[b] == s[b - 1]);
                    }
                }
            },
            None => {
                assert forall|a: int, b: int| 0 <= a < b < r.len() implies r[a].0 < r[b].0 by {
                    if b < s.len() {
                        assert(r[a] == s[a] && r[b] == s[b]);
                    } else {
                        assert(r[a] == s[a]);
                        assert(!slot_after(i)(s[a]));
                        assert(!slot_at(i)(s[a]));
                    }
                }
            },
        },
    }
}

/// A tuple's fields come out ordered by strictly increasing position, one
/// per position
pub proof fn law_tuple_slots_ordered(m: Members)
    ensures
        tuple_slots(m) matches Some(s) ==> slots_ordered(s),
    decreases m.len(),
{
    if m.len() > 0 {
        law_tuple_slots_ordered(m.drop_last());
        if let Some(s) = tuple_slots(m.drop_last()) {
            if let Some(i) = parse_index(text_bytes(m.last().0)) {
                lemma_place_ordered(s, i, m.last().1);
            }
        }
    }
}

/// A member found in `m` is one of its members
proof fn lemma_obj_get_member(m: Members, k: Seq<char>)
    ensures
        obj_get(m, k) matches Some(y) ==> m.contains((k, y)),
{
    lemma_first_of(m, crate::gltf::object::has_key(k));
    if let Some(i) = first_of(m, crate::gltf::object::has_key(k)) {
        assert(m[i] == (k, m[i].1));
    }
}

/// Members whose values are well ordered
pub open spec fn values_well_ordered(m: Members) -> bool {
    forall|i: int| 0 <= i < m.len() ==> well_ordered(#[trigger] m[i].1)
}

/// Taking a member out of a well-ordered object and setting one that is
/// well ordered leaves it well ordered
proof fn lemma_reinsert_well_ordered(m: Members, k: Seq<char>, x: JsonModel)
    requires
        keys_ordered(m),
        values_well_ordered(m),
        well_ordered(x),
    ensures
        well_ordered(JsonModel::Object(obj_insert(obj_remove(m, k), k, x))),
        well_ordered(JsonModel::Object(obj_remove(m, k))),
{
    let r = obj_remove(m, k);
    law_ordered_objects_stay_ordered(m, k, x);
    law_ordered_objects_stay_ordered(r, k, x);
    lemma_obj_remove_members(m, k);
    lemma_obj_insert_members(r, k, x);
    assert forall|i: int| 0 <= i < r.len() implies well_ordered(#[trigger] r[i].1) by {
        let j = choose|j: int| 0 <= j < m.len() && m[j] == r[i];
        assert(well_ordered(m[j].1));
    }
    let w = obj_insert(r, k, x);
    assert forall|i: int| 0 <= i < w.len() implies well_ordered(#[trigger] w[i].1) by {
        if w[i] != (k, x) {
            let j = choose|j: int| 0 <= j < r.len() && r[j] == w[i];
            assert(well_ordered(r[j].1));
        }
    }
}

proof fn lemma_with_value_well_ordered(m: Members, x: JsonModel)
    requires
        well_ordered(JsonModel::Object(m)),
        well_ordered(x),
    ensures
        well_ordered(with_value(m, x)),
        well_ordered(without_value(m)),
{
    lemma_reinsert_well_ordered(m, "value"@, x);
}

/// A member value found in a well-ordered object is well ordered
proof fn lemma_obj_get_well_ordered(m: Members, k: Seq<char>)
    requires
        values_well_ordered(m),
    ensures
        obj_get(m, k) matches Some(y) ==> well_ordered(y),
{
    lemma_obj_get_member(m, k);
    if let Some(y) = obj_get(m, k) {
        let j = choose|j: int| 0 <= j < m.len() && m[j] == (k, y);
        assert(well_ordered(m[j].1));
    }
}

proof fn lemma_fix_bool_ordered(ctx: FixupContext, v: JsonModel)
    requires
        well_ordered(v),
    ensures
        fix_bool(ctx, v) matches Ok(w) ==> well_ordered(w),
{
    if let JsonModel::Object(m) = v {
        lemma_with_value_well_ordered(m, JsonModel::Bool(true));
        lemma_with_value_well_ordered(m, JsonModel::Bool(false));
    }
}

proof fn lemma_fix_enum_ordered(ctx: FixupContext, v: JsonModel)
    requires
        well_ordered(v),
    ensures
        fix_enum(ctx, v) matches Ok(w) ==> well_ordered(w),
{
    if let JsonModel::Object(m) = v {
        lemma_with_value_well_ordered(m, JsonModel::Null);
        if let Some(r) = registered(ctx, m) {
            if let Some(vars) = r.enum_variants {
                if let Some(JsonModel::Number(NumberModel::Unsigned(n))) = obj_get(m, "value"@) {
                    if n < vars@.len() {
                        lemma_with_value_well_ordered(m, JsonModel::Text(vars@[n as int]@));
                    }
                }
            }
        }
    }
}

proof fn lemma_fix_option_ordered(ctx: FixupContext, v: JsonModel)
    requires
        well_ordered(v),
    ensures
        fix_option(ctx, v) matches Ok(w) ==> well_ordered(w),
{
    if let JsonModel::Object(m) = v {
        lemma_with_value_well_ordered(m, JsonModel::Null);
        lemma_obj_get_well_ordered(m, "value"@);
        if let Some(JsonModel::Object(inner)) = obj_get(m, "value"@) {
            lemma_obj_get_well_ordered(inner, "value"@);
            if let Some(x) = obj_get(inner, "value"@) {
                lemma_with_value_well_ordered(m, x);
            }
        }
    }
}

/// The slots hold well-ordered values where the tuple object does
proof fn lemma_tuple_slots_well_ordered(m: Members)
    requires
        values_well_ordered(m),
    ensures
        tuple_slots(m) matches Some(s) ==> forall|q: int| 0 <= q < s.len() ==> well_ordered(#[trigger] s[q].1),
    decreases m.len(),
{
    if m.len() > 0 {
        let d = m.drop_last();
        assert(values_well_ordered(d)) by {
            assert forall|i: int| 0 <= i < d.len() implies well_ordered(#[trigger] d[i].1) by {
                assert(d[i] == m[i]);
            }
        }
        lemma_tuple_slots_well_ordered(d);
        if let Some(s0) = tuple_slots(d) {
            if let Some(i) = parse_index(text_bytes(m.last().0)) {
                lemma_place_slots(s0, i, m.last().1);
                let s = place(s0, i, m.last().1);
                assert(well_ordered(m[m.len() - 1].1));
                assert forall|q: int| 0 <= q < s.len() implies well_ordered(#[trigger] s[q].1) by {
                    if s[q] != (i, m.last().1) {
                        let j = choose|j: int| 0 <= j < s0.len() && s0[j] == s[q];
                        assert(well_ordered(s0[j].1));
                    }
                }
            }
        }
    }
}

proof fn lemma_fix_tuple_member_ordered(m: Members, k: Seq<char>)
    requires
        well_ordered(JsonModel::Object(m)),
    ensures
        fix_tuple_member(m, k) matches Ok(w) ==> well_ordered(w),
{
    lemma_obj_get_well_ordered(m, k);
    if let Some(JsonModel::Object(tm)) = obj_get(m, k) {
        lemma_tuple_slots_well_ordered(tm);
        if let Some(s) = tuple_slots(tm) {
            let vals = slot_values_model(s);
            assert(well_ordered(JsonModel::Array(vals))) by {
                assert forall|q: int| 0 <= q < vals.len() implies well_ordered(#[trigger] vals[q]) by {
                    assert(vals[q] == s[q].1);
                }
            }
            lemma_reinsert_well_ordered(m, k, JsonModel::Array(vals));
        }
    }
}

proof fn lemma_fix_tuple_types_ordered(ctx: FixupContext, v: JsonModel)
    requires
        well_ordered(v),
    ensures
        fix_tuple_types(ctx, v) matches Ok(w) ==> well_ordered(w),
{
    if let JsonModel::Object(m) = v {
        lemma_fix_tuple_member_ordered(m, "tuple"@);
        lemma_fix_tuple_member_ordered(m, "tuple_struct"@);
    }
}

/// `type` sorts before `value`
proof fn lemma_type_before_value()
    ensures
        bytes_less(text_bytes("type"@), text_bytes("value"@)),
{
    reveal_strlit("type");
    reveal_strlit("value");
    let a = "type"@;
    let b = "value"@;
    assert(is_ascii_chars(a)) by {
        assert forall|i: int| 0 <= i < a.len() implies '\0' <= #[trigger] a[i] <= '\u{7f}' by {
            if i == 0 {
            } else if i == 1 {
            } else if i == 2 {
            } else {
            }
        }
    }
    assert(is_ascii_chars(b)) by {
        assert forall|i: int| 0 <= i < b.len() implies '\0' <= #[trigger] b[i] <= '\u{7f}' by {
            if i == 0 {
            } else if i == 1 {
            } else if i == 2 {
            } else if i == 3 {
            } else {
            }
        }
    }
    is_ascii_chars_encode_utf8(a);
    is_ascii_chars_encode_utf8(b);
    assert(a[0] as u8 == text_bytes(a)[0]);
    assert(b[0] as u8 == text_bytes(b)[0]);
}

/// Gathered map entries make a well-ordered object
proof fn lemma_map_entries_ordered(ks: Seq<JsonModel>, xs: Seq<JsonModel>, vt: Seq<char>, n: nat)
    requires
        n <= xs.len(),
        forall|i: int| 0 <= i < xs.len() ==> well_ordered(#[trigger] xs[i]),
    ensures
        map_entries(ks, xs, vt, n) matches Ok(es) ==> well_ordered(JsonModel::Object(es)),
    decreases n,
{
    if n > 0 {
        lemma_map_entries_ordered(ks, xs, vt, (n - 1) as nat);
        if let Ok(acc) = map_entries(ks, xs, vt, (n - 1) as nat) {
            if let Ok(e) = map_entry(ks[n - 1], xs[n - 1], vt) {
                assert(well_ordered(xs[n - 1]));
                if let JsonModel::Object(xm) = xs[n - 1] {
                    lemma_obj_get_well_ordered(xm, "value"@);
                    if let Some(xv) = obj_get(xm, "value"@) {
                        let inner: Members = seq![("type"@, JsonModel::Text(vt)), ("value"@, xv)];
                        lemma_type_before_value();
                        assert(keys_ordered(inner));
                        assert(well_ordered(JsonModel::Object(inner))) by {
                            assert forall|i: int| 0 <= i < inner.len() implies well_ordered(#[trigger] inner[i].1) by {
                                if i == 1 {
                                    assert(inner[1].1 == xv);
                                }
                            }
                        }
                        assert(well_ordered(e.1));
                    }
                }
                assert(well_ordered(e.1));
                law_ordered_objects_stay_ordered(acc, e.0, e.1);
                lemma_obj_insert_members(acc, e.0, e.1);
                let r = obj_insert(acc, e.0, e.1);
                assert forall|q: int| 0 <= q < r.len() implies well_ordered(#[trigger] r[q].1) by {
                    if r[q] != e {
                        let j = choose|j: int| 0 <= j < acc.len() && acc[j] == r[q];
                        assert(well_ordered(acc[j].1));
                    }
                }
            }
        }
    } else {
        assert(keys_ordered(Seq::<(Seq<char>, JsonModel)>::empty()));
    }
}

proof fn lemma_fix_map_ordered(ctx: FixupContext, v: JsonModel)
    requires
        well_ordered(v),
    ensures
        fix_map(ctx, v) matches Ok(w) ==> well_ordered(w),
{
    if let JsonModel::Object(m) = v {
        let without_keys = obj_remove(m, "keys"@);
        let rest = obj_remove(without_keys, "values"@);
        lemma_reinsert_well_ordered(m, "keys"@, JsonModel::Null);
        assert(values_well_ordered(without_keys));
        lemma_reinsert_well_ordered(without_keys, "values"@, JsonModel::Null);
        assert(keys_ordered(rest) && values_well_ordered(rest));
        assert(well_ordered(JsonModel::Object(Seq::<(Seq<char>, JsonModel)>::empty())));
        lemma_reinsert_well_ordered(rest, "value"@, JsonModel::Object(Seq::empty()));
        law_ordered_objects_stay_ordered(rest, "value"@, JsonModel::Object(Seq::empty()));
        lemma_obj_get_well_ordered(without_keys, "values"@);
        if let Some(JsonModel::Array(xs)) = obj_get(without_keys, "values"@) {
            if let Some(r) = registered(ctx, m) {
                if let TypeShape::Keyed(vt) = r.shape {
                    if let Some(JsonModel::Array(ks)) = obj_get(m, "keys"@) {
                        let n = min_len(ks.len(), xs.len());
                        lemma_map_entries_ordered(ks, xs, vt@, n);
                        if let Ok(es) = map_entries(ks, xs, vt@, n) {
                            law_ordered_objects_stay_ordered(rest, "map"@, JsonModel::Object(es));
                            lemma_obj_insert_members(rest, "map"@, JsonModel::Object(es));
                            let w = obj_insert(rest, "map"@, JsonModel::Object(es));
                            assert forall|q: int| 0 <= q < w.len() implies well_ordered(#[trigger] w[q].1) by {
                                if w[q] != ("map"@, JsonModel::Object(es)) {
                                    let j = choose|j: int| 0 <= j < rest.len() && rest[j] == w[q];
                                    assert(well_ordered(rest[j].1));
                                }
                            }
                        }
                    }
                }
            }
        }
        lemma_obj_insert_members(rest, "value"@, JsonModel::Object(Seq::empty()));
        let w = obj_insert(rest, "value"@, JsonModel::Object(Seq::empty()));
        assert forall|q: int| 0 <= q < w.len() implies well_ordered(#[trigger] w[q].1) by {
            if w[q] != ("value"@, JsonModel::Object(Seq::<(Seq<char>, JsonModel)>::empty())) {
                let j = choose|j: int| 0 <= j < rest.len() && rest[j] == w[q];
                assert(well_ordered(rest[j].1));
            }
        }
    }
}

proof fn lemma_fix_entity_ordered(ctx: FixupContext, v: JsonModel)
    requires
        well_ordered(v),
    ensures
        fix_entity(ctx, v) matches Ok(w) ==> well_ordered(w),
{
    if let JsonModel::Object(m) = v {
        lemma_with_value_well_ordered(m, JsonModel::Null);
        assert forall|b: u64| well_ordered(#[trigger] with_value(m, JsonModel::Number(NumberModel::Unsigned(b)))) by {
            lemma_with_value_well_ordered(m, JsonModel::Number(NumberModel::Unsigned(b)));
        }
    }
}

/// No fixup puts an object's keys out of order
pub proof fn lemma_fix_node_ordered(ctx: FixupContext, v: JsonModel)
    requires
        well_ordered(v),
    ensures
        fix_node(ctx, v) matches Ok(w) ==> well_ordered(w),
{
    lemma_fix_bool_ordered(ctx, v);
    if let Ok(v1) = fix_bool(ctx, v) {
        lemma_fix_enum_ordered(ctx, v1);
        if let Ok(v2) = fix_enum(ctx, v1) {
            lemma_fix_option_ordered(ctx, v2);
            if let Ok(v3) = fix_option(ctx, v2) {
                lemma_fix_tuple_types_ordered(ctx, v3);
                if let Ok(v4) = fix_tuple_types(ctx, v3) {
                    lemma_fix_map_ordered(ctx, v4);
                    if let Ok(v5) = fix_map(ctx, v4) {
                        lemma_fix_entity_ordered(ctx, v5);
                    }
                }
            }
        }
    }
}

/// Walking a well-ordered value leaves it well ordered: no object's keys
/// are put out of order, at any depth
pub proof fn law_walk_keeps_objects_ordered(ctx: FixupContext, v: JsonModel)
    requires
        well_ordered(v),
    ensures
        walk(ctx, v) matches Ok(w) ==> well_ordered(w),
    decreases height(v), 1int,
{
    lemma_fix_node_ordered(ctx, v);
    lemma_fix_node_height(ctx, v);
    if let Ok(w) = fix_node(ctx, v) {
        match w {
            JsonModel::Array(a) => {
                if a.len() > 0 {
                    lemma_walk_items_ordered(ctx, a);
                }
            },
            JsonModel::Object(m) => {
                if m.len() > 0 {
                    lemma_walk_members_ordered(ctx, m);
                    if let Ok(b) = walk_members(ctx, m) {
                        assert(keys_ordered(b)) by {
                            assert forall|i: int, j: int| 0 <= i < j < b.len() implies bytes_less(
                                text_bytes(b[i].0),
                                text_bytes(b[j].0),
                            ) by {
                                assert(b[i].0 == m[i].0 && b[j].0 == m[j].0);
                            }
                        }
                    }
                }
            },
            _ => {},
        }
    }
}

proof fn lemma_walk_items_ordered(ctx: FixupContext, a: Seq<JsonModel>)
    requires
        forall|i: int| 0 <= i < a.len() ==> well_ordered(#[trigger] a[i]),
    ensures
        walk_items(ctx, a) matches Ok(b) ==> b.len() == a.len() && forall|i: int| 0 <= i < b.len() ==> well_ordered(#[trigger] b[i]),
    decreases items_height(a), a.len() + 1,
{
    if a.len() > 0 {
        let d = a.drop_last();
        assert forall|i: int| 0 <= i < d.len() implies well_ordered(#[trigger] d[i]) by {
            assert(d[i] == a[i]);
        }
        lemma_walk_items_ordered(ctx, d);
        assert(well_ordered(a[a.len() - 1]));
        law_walk_keeps_objects_ordered(ctx, a.last());
        if let Ok(done) = walk_items(ctx, d) {
            if let Ok(x) = walk(ctx, a.last()) {
                let b = done.push(x);
                assert forall|i: int| 0 <= i < b.len() implies well_ordered(#[trigger] b[i]) by {
                    if i < done.len() {
                        assert(b[i] == done[i]);
                    }
                }
            }
        }
    }
}

proof fn lemma_walk_members_ordered(ctx: FixupContext, m: Members)
    requires
        values_well_ordered(m),
    ensures
        walk_members(ctx, m) matches Ok(b) ==> b.len() == m.len() && (forall|i: int| 0 <= i < b.len() ==> #[trigger] b[i].0 == m[i].0)
            && values_well_ordered(b),
    decreases members_height(m), m.len() + 1,
{
    if m.len() > 0 {
        let d = m.drop_last();
        assert forall|i: int| 0 <= i < d.len() implies well_ordered(#[trigger] d[i].1) by {
            assert(d[i] == m[i]);
        }
        lemma_walk_members_ordered(ctx, d);
        assert(well_ordered(m[m.len() - 1].1));
        law_walk_keeps_objects_ordered(ctx, m.last().1);
        if let Ok(done) = walk_members(ctx, d) {
            if let Ok(x) = walk(ctx, m.last().1) {
                let b = done.push((m.last().0, x));
                assert forall|i: int| 0 <= i < b.len() implies #[trigger] b[i].0 == m[i].0 by {
                    if i < done.len() {
                        assert(b[i] == done[i]);
                        assert(d[i] == m[i]);
                    }
                }
                assert forall|i: int| 0 <= i < b.len() implies well_ordered(#[trigger] b[i].1) by {
                    if i < done.len() {
                        assert(b[i] == done[i]);
                    }
                }
            }
        }
    }
}

} // verus!
