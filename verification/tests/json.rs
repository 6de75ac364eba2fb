//! Reading and writing the interchange: the cases pinned next to the reader.

use pub_design_system_tokens::{
    Binary64, Color, ColorSpace, Error, Json, JsonNumber, Object, Path, Token, TokenSet,
};

fn num(x: f64) -> Binary64 {
    Binary64(x.to_bits())
}

fn components_written(c: Color) -> Vec<Json> {
    let mut set = TokenSet::new();
    set.root_mut().insert_token("c", Token::color(c)).unwrap();
    let out = set.to_json_value();
    match out.get("c").and_then(|t| t.get("$value")).and_then(|v| v.get("components")) {
        Some(Json::Array(list)) => list.clone(),
        other => panic!("components: {other:?}"),
    }
}

#[test]
fn a_non_finite_number_is_written_as_null() {
    let list = components_written(Color::new(ColorSpace::Srgb, [num(f64::NAN), num(f64::INFINITY), num(0.25)]));
    assert_eq!(list[0], Json::Null);
    assert_eq!(list[1], Json::Null);
    assert_eq!(list[2], Json::Number(JsonNumber::Float(num(0.25))));
}

#[test]
fn an_unknown_field_in_a_value_object_is_rejected() {
    let json = r#"{ "d": { "$type": "dimension", "$value": { "value": 1, "unit": "px", "units": "px" } } }"#;
    assert!(matches!(
        TokenSet::from_json_str(json),
        Err(Error::InvalidValue { reason, .. }) if reason.contains("units")
    ));
}

#[test]
fn bad_metadata_shapes_are_rejected_with_the_path() {
    for (json, word) in [
        (r#"{ "g": { "$description": 1 } }"#, "$description"),
        (r#"{ "g": { "$deprecated": 1 } }"#, "$deprecated"),
        (r#"{ "g": { "$extensions": [] } }"#, "$extensions"),
        (r#"{ "g": { "$type": 1 } }"#, "$type"),
        (r#"{ "g": { "$extends": "{h}" } }"#, "$extends"),
        (r#"{ "g": 1 }"#, "object"),
    ] {
        match TokenSet::from_json_str(json) {
            Err(Error::InvalidValue { path, reason }) => {
                assert_eq!(path.to_string(), "g", "{json}");
                assert!(reason.contains(word), "{json}: {reason}");
            }
            other => panic!("{json}: {other:?}"),
        }
    }
}

#[test]
fn a_token_metadata_error_names_the_token() {
    let json = r#"{ "t": { "$type": "dimension", "$value": { "value": 1, "unit": "px" }, "$description": [] } }"#;
    assert!(matches!(
        TokenSet::from_json_str(json),
        Err(Error::InvalidValue { path, .. }) if path.to_string() == "t"
    ));
}

#[test]
fn a_value_object_that_is_not_an_object_lists_its_fields() {
    let json = r#"{ "d": { "$type": "dimension", "$value": 4 } }"#;
    match TokenSet::from_json_str(json) {
        Err(Error::InvalidValue { reason, .. }) => {
            assert_eq!(reason, "a dimension $value is an object {value, unit} or a reference {group.token}")
        }
        other => panic!("{other:?}"),
    }
    let json = r#"{ "c": { "$type": "color", "$value": { "colorSpace": "srgb", "components": [0, true, 0] } } }"#;
    match TokenSet::from_json_str(json) {
        Err(Error::InvalidValue { reason, .. }) => assert_eq!(reason, "component 1 is neither a number nor \"none\""),
        other => panic!("{other:?}"),
    }
    let json = r#"{ "c": { "$type": "color", "$value": { "colorSpace": "cmyk", "components": [0, 0, 0] } } }"#;
    match TokenSet::from_json_str(json) {
        Err(Error::InvalidValue { reason, .. }) => assert_eq!(reason, "unknown colorSpace \"cmyk\""),
        other => panic!("{other:?}"),
    }
}

#[test]
fn the_first_error_in_name_order_is_reported() {
    // Members are read in name order: `a` breaks a rule before `b` does.
    let json = r#"{ "b": { "$type": "sound", "$value": 1 }, "a": { "$type": "color", "$value": 1 } }"#;
    match TokenSet::from_json_str(json) {
        Err(Error::InvalidValue { path, .. }) => assert_eq!(path, Path::parse("a").unwrap()),
        other => panic!("{other:?}"),
    }
    let json = r#"{ "$extends": 1, "$description": 2 }"#;
    match TokenSet::from_json_str(json) {
        Err(Error::InvalidValue { reason, .. }) => assert!(reason.contains("$description"), "{reason}"),
        other => panic!("{other:?}"),
    }
}

#[test]
fn a_json_value_reads_like_its_text() {
    let mut value = Object::new();
    let mut token = Object::new();
    token.insert("$type", Json::String("dimension".to_owned()));
    let mut dim = Object::new();
    dim.insert("value", Json::Number(JsonNumber::PosInt(4)));
    dim.insert("unit", Json::String("px".to_owned()));
    token.insert("$value", Json::Object(dim));
    value.insert("gap", Json::Object(token));
    let from_value = TokenSet::from_json_value(&Json::Object(value)).unwrap();
    let from_text =
        TokenSet::from_json_str(r#"{ "gap": { "$type": "dimension", "$value": { "value": 4, "unit": "px" } } }"#)
            .unwrap();
    assert_eq!(from_value, from_text);
    assert!(matches!(
        TokenSet::from_json_value(&Json::Array(vec![])),
        Err(Error::InvalidValue { reason, .. }) if reason == "the root must be an object of groups and tokens"
    ));
}

#[test]
fn writing_puts_members_in_name_order_and_keeps_a_token_type_that_differs() {
    let set = TokenSet::from_json_str(
        r##"{ "g": { "$type": "color", "z": { "$value": "{g.a}" },
                     "a": { "$type": "dimension", "$value": { "value": -2, "unit": "px" } } } }"##,
    )
    .unwrap();
    let out = set.to_json_value();
    let Some(Json::Object(g)) = out.get("g") else { panic!() };
    let names: Vec<&str> = g.entries.iter().map(|(k, _)| k.as_str()).collect();
    assert_eq!(names, ["$type", "a", "z"]);
    let a = g.get("a").unwrap();
    assert_eq!(a.get("$type"), Some(&Json::String("dimension".to_owned())));
    assert_eq!(
        a.get("$value").and_then(|v| v.get("value")),
        Some(&Json::Number(JsonNumber::Float(num(-2.0))))
    );
    assert!(g.get("z").unwrap().get("$type").is_none());
    assert_eq!(TokenSet::from_json_value(&out).unwrap(), set);
    let Some(Json::Object(z)) = g.get("z") else { panic!() };
    assert_eq!(z.get("$value"), Some(&Json::String("{g.a}".to_owned())));
}
