use legend_of_r::gltf::fixups::{
    fixup_bool, fixup_component, fixup_entity, fixup_enum, fixup_map, fixup_node, fixup_option,
    fixup_tuple, fixup_tuple_types, take_entity_components, walk_json, FixupContext,
    FixupError, TypeRegistration, TypeShape,
};
use legend_of_r::gltf::object::{find_key, get_member, put_member, take_member};
use legend_of_r::gltf::parse::parse_extras;
use legend_of_r::gltf::text::{read_index, same_text, text_less};
use legend_of_r::gltf::{Json, JsonNumber};

fn text(s: &str) -> Json {
    Json::Text(s.to_string())
}

fn num(n: u64) -> Json {
    Json::Number(JsonNumber::Unsigned(n))
}

fn obj(members: Vec<(&str, Json)>) -> Json {
    Json::Object(members.into_iter().map(|(k, v)| (k.to_string(), v)).collect())
}

fn reg(name: &str) -> TypeRegistration {
    TypeRegistration {
        name: name.to_string(),
        is_bool: false,
        enum_variants: None,
        is_option: false,
        shape: TypeShape::Other,
    }
}

fn ctx() -> FixupContext {
    FixupContext {
        registry: vec![
            TypeRegistration { is_bool: true, ..reg("game::Flag") },
            TypeRegistration {
                enum_variants: Some(vec!["Red".to_string(), "Green".to_string()]),
                ..reg("game::Colour")
            },
            TypeRegistration { is_option: true, ..reg("core::option::Option<u32>") },
            TypeRegistration { shape: TypeShape::Tuple, ..reg("(f32, f32)") },
            TypeRegistration { shape: TypeShape::TupleStruct, ..reg("game::Pair") },
            TypeRegistration { shape: TypeShape::Keyed("u32".to_string()), ..reg("game::Table") },
            reg("u32"),
        ],
        entity_type_name: "bevy_ecs::entity::Entity".to_string(),
        entities: vec![("Ship".to_string(), 42), ("Ship".to_string(), 43), ("Force".to_string(), 7)],
    }
}

#[test]
fn bool_from_integer() {
    let c = ctx();
    let v = obj(vec![("type", text("game::Flag")), ("value", num(2))]);
    assert_eq!(fixup_bool(&c, v), Ok(obj(vec![("type", text("game::Flag")), ("value", Json::Bool(true))])));
    let v = obj(vec![("type", text("game::Flag")), ("value", num(0))]);
    assert_eq!(fixup_bool(&c, v), Ok(obj(vec![("type", text("game::Flag")), ("value", Json::Bool(false))])));
}

#[test]
fn bool_errors_and_drops() {
    let c = ctx();
    let v = obj(vec![("type", text("game::Flag")), ("value", Json::Number(JsonNumber::Negative(-1)))]);
    assert_eq!(fixup_bool(&c, v), Err(FixupError::BoolNotInteger));
    let v = obj(vec![("type", text("game::Flag")), ("value", text("yes"))]);
    assert_eq!(fixup_bool(&c, v), Ok(obj(vec![("type", text("game::Flag"))])));
    let v = obj(vec![("type", text("u32")), ("value", num(2))]);
    assert_eq!(fixup_bool(&c, v), Ok(obj(vec![("type", text("u32")), ("value", num(2))])));
    assert_eq!(fixup_bool(&c, num(3)), Ok(num(3)));
}

#[test]
fn enum_from_index() {
    let c = ctx();
    let v = obj(vec![("type", text("game::Colour")), ("value", num(1))]);
    assert_eq!(fixup_enum(&c, v), Ok(obj(vec![("type", text("game::Colour")), ("value", text("Green"))])));
    let v = obj(vec![("type", text("game::Colour")), ("value", num(2))]);
    assert_eq!(fixup_enum(&c, v), Err(FixupError::EnumIndexOutOfRange));
    let v = obj(vec![("type", text("game::Colour")), ("value", Json::Number(JsonNumber::Other("1.5".to_string())))]);
    assert_eq!(fixup_enum(&c, v), Err(FixupError::EnumIndexNotInteger));
}

#[test]
fn option_unwraps_nested_value() {
    let c = ctx();
    let t = "core::option::Option<u32>";
    let v = obj(vec![("type", text(t)), ("value", obj(vec![("value", num(5))]))]);
    assert_eq!(fixup_option(&c, v), Ok(obj(vec![("type", text(t)), ("value", num(5))])));
    let v = obj(vec![("type", text(t)), ("value", obj(vec![]))]);
    assert_eq!(fixup_option(&c, v), Err(FixupError::OptionValueMissing));
    let v = obj(vec![("type", text(t)), ("value", Json::Null)]);
    assert_eq!(fixup_option(&c, v), Ok(obj(vec![("type", text(t))])));
}

#[test]
fn tuple_fields_ordered_by_position() {
    let v = obj(vec![("0", text("a")), ("1", text("b")), ("10", text("k")), ("2", text("c"))]);
    assert_eq!(fixup_tuple(v), Ok(Json::Array(vec![text("a"), text("b"), text("c"), text("k")])));
    let v = obj(vec![("+1", text("x")), ("0", text("z")), ("01", text("y"))]);
    assert_eq!(fixup_tuple(v), Ok(Json::Array(vec![text("z"), text("y")])));
    assert_eq!(fixup_tuple(obj(vec![])), Ok(Json::Array(vec![])));
}

#[test]
fn tuple_errors() {
    assert_eq!(fixup_tuple(obj(vec![("a", num(1))])), Err(FixupError::TupleKeyNotIndex));
    assert_eq!(fixup_tuple(obj(vec![("-1", num(1))])), Err(FixupError::TupleKeyNotIndex));
    assert_eq!(fixup_tuple(Json::Array(vec![])), Err(FixupError::TupleNotObject));
    let c = ctx();
    let v = obj(vec![("type", text("(f32, f32)"))]);
    assert_eq!(fixup_tuple_types(&c, v), Err(FixupError::TupleMissing));
}

#[test]
fn tuple_types_rewrite_their_member() {
    let c = ctx();
    let v = obj(vec![("tuple", obj(vec![("1", num(2)), ("0", num(1))])), ("type", text("(f32, f32)"))]);
    assert_eq!(
        fixup_tuple_types(&c, v),
        Ok(obj(vec![("tuple", Json::Array(vec![num(1), num(2)])), ("type", text("(f32, f32)"))]))
    );
    let v = obj(vec![("tuple_struct", obj(vec![("0", num(9))])), ("type", text("game::Pair"))]);
    assert_eq!(
        fixup_tuple_types(&c, v),
        Ok(obj(vec![("tuple_struct", Json::Array(vec![num(9)])), ("type", text("game::Pair"))]))
    );
}

fn entry(key: &str) -> Json {
    obj(vec![("type", text("alloc::string::String")), ("value", text(key))])
}

fn value(n: u64) -> Json {
    obj(vec![("type", text("u32")), ("value", num(n))])
}

#[test]
fn map_from_key_and_value_arrays() {
    let c = ctx();
    let v = obj(vec![
        ("keys", Json::Array(vec![entry("b"), entry("a"), entry("b")])),
        ("type", text("game::Table")),
        ("values", Json::Array(vec![value(1), value(2), value(3)])),
    ]);
    assert_eq!(
        fixup_map(&c, v),
        Ok(obj(vec![
            ("map", obj(vec![("a", value(2)), ("b", value(3))])),
            ("type", text("game::Table")),
        ]))
    );
}

#[test]
fn map_zips_to_the_shorter_array() {
    let c = ctx();
    let v = obj(vec![
        ("keys", Json::Array(vec![entry("a")])),
        ("type", text("game::Table")),
        ("values", Json::Array(vec![value(1), Json::Null])),
    ]);
    assert_eq!(
        fixup_map(&c, v),
        Ok(obj(vec![("map", obj(vec![("a", value(1))])), ("type", text("game::Table"))]))
    );
}

#[test]
fn map_without_arrays_is_empty() {
    let c = ctx();
    let v = obj(vec![("keys", num(1)), ("type", text("game::Table"))]);
    assert_eq!(
        fixup_map(&c, v),
        Ok(obj(vec![("type", text("game::Table")), ("value", obj(vec![]))]))
    );
}

#[test]
fn map_errors() {
    let c = ctx();
    let with = |k: Json, x: Json| {
        obj(vec![
            ("keys", Json::Array(vec![k])),
            ("type", text("game::Table")),
            ("values", Json::Array(vec![x])),
        ])
    };
    assert_eq!(fixup_map(&c, with(text("a"), value(1))), Err(FixupError::MapEntryNotObject));
    assert_eq!(fixup_map(&c, with(entry("a"), num(1))), Err(FixupError::MapEntryNotObject));
    assert_eq!(fixup_map(&c, with(obj(vec![]), value(1))), Err(FixupError::MapEntryValueMissing));
    assert_eq!(fixup_map(&c, with(entry("a"), obj(vec![]))), Err(FixupError::MapEntryValueMissing));
    assert_eq!(fixup_map(&c, with(value(4), value(1))), Err(FixupError::MapKeyNotString));
}

#[test]
fn entity_reference_by_name() {
    let c = ctx();
    let t = "bevy_ecs::entity::Entity";
    let v = obj(vec![("type", text(t)), ("value", obj(vec![("name", text("Ship"))]))]);
    assert_eq!(fixup_entity(&c, v), Ok(obj(vec![("type", text(t)), ("value", num(42))])));
    let v = obj(vec![("value", obj(vec![("name", text("Force"))]))]);
    assert_eq!(fixup_entity(&c, v), Ok(obj(vec![("value", num(7))])));
    let v = obj(vec![("type", text("u32")), ("value", obj(vec![("name", text("Ship"))]))]);
    assert_eq!(
        fixup_entity(&c, v),
        Ok(obj(vec![("type", text("u32")), ("value", obj(vec![("name", text("Ship"))]))]))
    );
    let v = obj(vec![("type", text(t)), ("value", obj(vec![("name", text("Nobody"))]))]);
    assert_eq!(fixup_entity(&c, v), Err(FixupError::NoEntityNamed));
    let v = obj(vec![("type", text(t)), ("value", num(3))]);
    assert_eq!(fixup_entity(&c, v), Ok(obj(vec![("type", text(t))])));
}

#[test]
fn node_applies_every_fixup() {
    let c = ctx();
    let v = obj(vec![("type", text("game::Flag")), ("value", num(1))]);
    assert_eq!(fixup_node(&c, v), Ok(obj(vec![("type", text("game::Flag")), ("value", Json::Bool(true))])));
    assert_eq!(fixup_node(&c, Json::Null), Ok(Json::Null));
}

#[test]
fn walk_rewrites_inner_values_after_outer() {
    let c = ctx();
    let flag = |n: u64| obj(vec![("type", text("game::Flag")), ("value", num(n))]);
    let flag_done = |b: bool| obj(vec![("type", text("game::Flag")), ("value", Json::Bool(b))]);
    let v = obj(vec![
        ("tuple_struct", obj(vec![("0", flag(1)), ("1", flag(0))])),
        ("type", text("game::Pair")),
    ]);
    assert_eq!(
        walk_json(&c, v),
        Ok(obj(vec![
            ("tuple_struct", Json::Array(vec![flag_done(true), flag_done(false)])),
            ("type", text("game::Pair")),
        ]))
    );
    let v = Json::Array(vec![flag(3), Json::Array(vec![flag(0)])]);
    assert_eq!(walk_json(&c, v), Ok(Json::Array(vec![flag_done(true), Json::Array(vec![flag_done(false)])])));
}

#[test]
fn walk_stops_at_first_failure() {
    let c = ctx();
    let bad_bool = obj(vec![("type", text("game::Flag")), ("value", Json::Number(JsonNumber::Negative(-2)))]);
    let bad_enum = obj(vec![("type", text("game::Colour")), ("value", num(9))]);
    let v = Json::Array(vec![bad_enum, bad_bool]);
    assert_eq!(walk_json(&c, v), Err(FixupError::EnumIndexOutOfRange));
}

#[test]
fn component_names_its_type() {
    let c = ctx();
    let v = obj(vec![("type", text("game::Flag")), ("value", num(1))]);
    let (name, fixed) = fixup_component(&c, v).unwrap();
    assert_eq!(name, "game::Flag");
    assert_eq!(fixed, obj(vec![("type", text("game::Flag")), ("value", Json::Bool(true))]));
    assert_eq!(fixup_component(&c, obj(vec![("value", num(1))])), Err(FixupError::TypeMissing));
    assert_eq!(fixup_component(&c, obj(vec![("type", num(1))])), Err(FixupError::TypeNotText));
    assert_eq!(fixup_component(&c, num(1)), Err(FixupError::TypeMissing));
}

#[test]
fn entity_components_of_extras() {
    let extras = obj(vec![("entity", obj(vec![("a", value(1))])), ("x", num(1))]);
    assert_eq!(
        take_entity_components(extras),
        Ok((obj(vec![("x", num(1))]), vec![("a".to_string(), value(1))]))
    );
    assert_eq!(take_entity_components(obj(vec![("x", num(1))])), Ok((obj(vec![("x", num(1))]), vec![])));
    assert_eq!(take_entity_components(obj(vec![("entity", num(1))])), Err(FixupError::EntityNotObject));
    assert_eq!(take_entity_components(num(1)), Err(FixupError::ExtrasNotObject));
}

#[test]
fn parsing_extras_text() {
    let parsed = parse_extras(r#"{"value": {"b": [1, -2, 2.5, "s", null, true]}, "type": "x"}"#);
    assert_eq!(
        parsed,
        Some(obj(vec![
            ("type", text("x")),
            (
                "value",
                obj(vec![(
                    "b",
                    Json::Array(vec![
                        num(1),
                        Json::Number(JsonNumber::Negative(-2)),
                        Json::Number(JsonNumber::Other("2.5".to_string())),
                        text("s"),
                        Json::Null,
                        Json::Bool(true),
                    ]),
                )]),
            ),
        ]))
    );
    assert_eq!(parse_extras(r#"{"k": 1, "k": 2}"#), Some(obj(vec![("k", num(2))])));
    assert_eq!(parse_extras("{not json"), None);
    assert_eq!(parse_extras(""), None);
}

#[test]
fn parsed_extras_feed_the_fixups() {
    let c = ctx();
    let extras = parse_extras(r#"{"entity": {"flag": {"type": "game::Flag", "value": 1}}}"#).unwrap();
    let (_, components) = take_entity_components(extras).unwrap();
    let (_, flag) = components.into_iter().next().unwrap();
    let (name, fixed) = fixup_component(&c, flag).unwrap();
    assert_eq!(name, "game::Flag");
    assert_eq!(fixed, obj(vec![("type", text("game::Flag")), ("value", Json::Bool(true))]));
}

#[test]
fn members_follow_serde_json_map_order() {
    let ops: Vec<(&str, Option<u64>)> = vec![
        ("m", Some(1)), ("a", Some(2)), ("zz", Some(3)), ("b", Some(4)), ("a", Some(5)),
        ("é", Some(6)), ("Z", Some(7)), ("m", None), ("", Some(8)), ("ab", Some(9)), ("zz", None),
    ];
    let mut ours: Vec<(String, Json)> = Vec::new();
    let mut theirs = serde_json::Map::new();
    for (k, v) in ops {
        match v {
            Some(n) => {
                put_member(&mut ours, k.to_string(), num(n));
                theirs.insert(k.to_string(), serde_json::Value::from(n));
            }
            None => {
                take_member(&mut ours, k);
                theirs.remove(k);
            }
        }
        let ours_keys: Vec<&str> = ours.iter().map(|(k, _)| k.as_str()).collect();
        let their_keys: Vec<&str> = theirs.keys().map(|k| k.as_str()).collect();
        assert_eq!(ours_keys, their_keys);
        for (k, x) in theirs.iter() {
            assert_eq!(get_member(&ours, k), Some(&num(x.as_u64().unwrap())));
        }
    }
}

#[test]
fn reading_positions() {
    assert_eq!(read_index("0"), Some(0));
    assert_eq!(read_index("+12"), Some(12));
    assert_eq!(read_index("007"), Some(7));
    assert_eq!(read_index(""), None);
    assert_eq!(read_index("+"), None);
    assert_eq!(read_index("-1"), None);
    assert_eq!(read_index("1a"), None);
    assert_eq!(read_index(" 1"), None);
    assert_eq!(read_index(&usize::MAX.to_string()), Some(usize::MAX));
    assert_eq!(read_index(&format!("{}0", usize::MAX)), None);
    for s in ["0", "+3", "42", "x", "", "99999999999999999999999"] {
        assert_eq!(read_index(s), s.parse::<usize>().ok());
    }
}

#[test]
fn text_comparisons() {
    assert!(same_text("abc", "abc"));
    assert!(!same_text("abc", "abd"));
    assert!(!same_text("ab", "abc"));
    assert!(text_less("ab", "abc"));
    assert!(text_less("a", "b"));
    assert!(!text_less("b", "a"));
    assert!(!text_less("a", "a"));
    assert!(text_less("Z", "a"));
    assert!(text_less("z", "é"));
}

#[test]
fn object_members_set_read_and_taken() {
    let mut m: Vec<(String, Json)> = vec![("b".to_string(), num(2)), ("d".to_string(), num(4))];
    put_member(&mut m, "c".to_string(), num(3));
    put_member(&mut m, "a".to_string(), num(1));
    put_member(&mut m, "e".to_string(), num(5));
    let keys: Vec<&str> = m.iter().map(|(k, _)| k.as_str()).collect();
    assert_eq!(keys, vec!["a", "b", "c", "d", "e"]);
    put_member(&mut m, "c".to_string(), num(30));
    assert_eq!(get_member(&m, "c"), Some(&num(30)));
    assert_eq!(get_member(&m, "b"), Some(&num(2)));
    assert_eq!(find_key(&m, "d"), Some(3));
    assert_eq!(take_member(&mut m, "c"), Some(num(30)));
    assert_eq!(get_member(&m, "c"), None);
    assert_eq!(take_member(&mut m, "c"), None);
    assert_eq!(m.len(), 4);
}
