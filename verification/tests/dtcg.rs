//! The DTCG round trip and the suite's own token set, pinned from the outside.

use pub_design_system_tokens::suite::{color as palette, space, tokens_from};
use pub_design_system_tokens::{
    Binary64, Color, ColorSpace, Component, Deprecated, Dimension, Error, Group, Hex, Json, JsonNumber, Node, Path,
    Token, TokenSet, TokenType, Unit, Value,
};

fn parse(json: &str) -> Result<TokenSet, Error> {
    TokenSet::from_json_str(json)
}

fn path(s: &str) -> Path {
    Path::parse(s).expect("a well-formed path")
}

fn num(x: f64) -> Binary64 {
    Binary64(x.to_bits())
}

fn rgb8(c: [u8; 3]) -> Color {
    Color {
        color_space: ColorSpace::Srgb,
        components: [
            Component::Value(num(c[0] as f64 / 255.0)),
            Component::Value(num(c[1] as f64 / 255.0)),
            Component::Value(num(c[2] as f64 / 255.0)),
        ],
        alpha: None,
        hex: Some(Hex(c)),
    }
}

fn suite_tokens() -> TokenSet {
    let components: Vec<[Binary64; 3]> =
        palette::PALETTE.iter().map(|(_, c)| c.map(|x| num(x as f64 / 255.0))).collect();
    let rems: Vec<Binary64> = space::SCALE.iter().map(|(_, n)| num(*n as f64 * 0.25)).collect();
    tokens_from(&components, &rems).expect("the suite's paths and names are well-formed")
}

fn to_serde(j: &Json) -> serde_json::Value {
    match j {
        Json::Null => serde_json::Value::Null,
        Json::Bool(b) => serde_json::Value::Bool(*b),
        Json::Number(JsonNumber::PosInt(u)) => serde_json::Value::from(*u),
        Json::Number(JsonNumber::NegInt(i)) => serde_json::Value::from(*i),
        Json::Number(JsonNumber::Float(b)) => serde_json::Number::from_f64(f64::from_bits(b.0))
            .map_or(serde_json::Value::Null, serde_json::Value::Number),
        Json::String(s) => serde_json::Value::String(s.clone()),
        Json::Array(a) => serde_json::Value::Array(a.iter().map(to_serde).collect()),
        Json::Object(o) => {
            let mut m = serde_json::Map::new();
            for (k, v) in &o.entries {
                m.insert(k.clone(), to_serde(v));
            }
            serde_json::Value::Object(m)
        }
    }
}

fn to_text(set: &TokenSet) -> String {
    let mut text = serde_json::to_string_pretty(&to_serde(&set.to_json_value())).unwrap();
    text.push('\n');
    text
}

fn at<'a>(j: &'a Json, keys: &[&str]) -> &'a Json {
    let mut j = j;
    for k in keys {
        j = j.get(k).unwrap_or_else(|| panic!("no member {k}"));
    }
    j
}

fn string(s: &str) -> Json {
    Json::String(s.to_owned())
}

const BLUE: &str = r##"{"colorSpace": "srgb", "components": [0, 0.4, 0.8], "hex": "#0066cc"}"##;

#[test]
fn a_token_with_an_unknown_type_is_rejected() {
    let json = format!(r##"{{ "x": {{ "$type": "flavor", "$value": {BLUE} }} }}"##);
    match parse(&json) {
        Err(Error::UnknownType { path: p, ty }) => {
            assert_eq!(p, path("x"));
            assert_eq!(ty, "flavor");
        }
        other => panic!("expected UnknownType, got {other:?}"),
    }
}

#[test]
fn a_type_the_slice_does_not_carry_is_rejected_the_same_way() {
    let json = r##"{ "g": { "$type": "gradient", "$value": [] } }"##;
    assert!(matches!(parse(json), Err(Error::UnknownType { ty, .. }) if ty == "gradient"));
}

#[test]
fn a_token_with_no_resolvable_type_is_rejected() {
    let json = format!(r##"{{ "color": {{ "blue": {{ "$value": {BLUE} }} }} }}"##);
    match parse(&json) {
        Err(Error::MissingType { path: p }) => assert_eq!(p, path("color.blue")),
        other => panic!("expected MissingType, got {other:?}"),
    }
}

#[test]
fn a_group_type_is_inherited_by_nested_tokens() {
    let json = format!(r##"{{ "color": {{ "$type": "color", "brand": {{ "blue": {{ "$value": {BLUE} }} }} }} }}"##);
    let set = parse(&json).unwrap();
    let token = set.get(&path("color.brand.blue")).expect("the token exists");
    assert_eq!(token.ty, TokenType::Color);
    assert!(matches!(token.value, Value::Color(_)));
}

#[test]
fn a_token_type_beats_the_group_type() {
    let json = r##"{ "color": { "$type": "color",
        "gap": { "$type": "dimension", "$value": { "value": 4, "unit": "px" } } } }"##;
    let set = parse(json).unwrap();
    let token = set.get(&path("color.gap")).unwrap();
    assert_eq!(token.ty, TokenType::Dimension);
    assert_eq!(token.value, Value::Dimension(Dimension::px(num(4.0))));
}

#[test]
fn an_unknown_type_on_a_group_is_rejected() {
    let json = r##"{ "g": { "$type": "sound", "a": { "$value": 1 } } }"##;
    assert!(matches!(parse(json), Err(Error::UnknownType { ty, .. }) if ty == "sound"));
}

#[test]
fn an_object_without_a_value_is_a_group_even_when_typed_and_empty() {
    let json = r##"{ "g": { "$type": "color", "$description": "nothing yet" } }"##;
    let set = parse(json).unwrap();
    let Some(Node::Group(group)) = set.root().child("g") else {
        panic!("g is a group");
    };
    assert_eq!(group.ty, Some(TokenType::Color));
    assert_eq!(group.description.as_deref(), Some("nothing yet"));
    assert!(group.is_empty());
}

#[test]
fn a_name_starting_with_a_dollar_that_is_not_a_property_is_rejected() {
    let json = format!(r##"{{ "$flavor": {{ "$type": "color", "$value": {BLUE} }} }}"##);
    assert!(matches!(parse(&json), Err(Error::InvalidName { name, .. }) if name == "$flavor"));
}

#[test]
fn a_name_containing_a_dot_or_a_brace_is_rejected() {
    for bad in ["a.b", "a{b", "a}b", ""] {
        let json = format!(r##"{{ "{bad}": {{ "$type": "dimension", "$value": {{ "value": 1, "unit": "px" }} }} }}"##);
        assert!(matches!(parse(&json), Err(Error::InvalidName { name, .. }) if name == bad), "{bad:?}");
    }
    let mut group = Group::new();
    assert!(matches!(
        group.insert_token("a.b", Token::dimension(Dimension::px(num(1.0)))),
        Err(Error::InvalidName { .. })
    ));
}

#[test]
fn a_path_is_dot_separated_names() {
    assert_eq!(path("a.b.c").to_string(), "a.b.c");
    assert_eq!(path("a.b.c").segments(), ["a", "b", "c"]);
    assert!(matches!(Path::parse(""), Err(Error::InvalidName { .. })));
    assert!(matches!(Path::parse("a..b"), Err(Error::InvalidName { .. })));
    assert!(matches!(Path::parse("a.{b}"), Err(Error::InvalidName { .. })));
}

#[test]
fn a_colour_has_a_colour_space_three_components_and_optional_alpha_and_hex() {
    let json = r##"{ "c": { "$type": "color", "$value":
        { "colorSpace": "oklch", "components": [0.7, 0.15, 250], "alpha": 0.5 } } }"##;
    let set = parse(json).unwrap();
    let Value::Color(c) = &set.get(&path("c")).unwrap().value else {
        panic!("a colour")
    };
    assert_eq!(c.color_space, ColorSpace::Oklch);
    assert_eq!(
        c.components,
        [Component::Value(num(0.7)), Component::Value(num(0.15)), Component::Value(num(250.0))]
    );
    assert_eq!(c.alpha, Some(num(0.5)));
    assert_eq!(c.hex, None);
}

#[test]
fn every_colour_space_of_the_colour_module_is_read() {
    for (name, space) in [
        ("srgb", ColorSpace::Srgb),
        ("srgb-linear", ColorSpace::SrgbLinear),
        ("hsl", ColorSpace::Hsl),
        ("hwb", ColorSpace::Hwb),
        ("lab", ColorSpace::Lab),
        ("lch", ColorSpace::Lch),
        ("oklab", ColorSpace::Oklab),
        ("oklch", ColorSpace::Oklch),
        ("display-p3", ColorSpace::DisplayP3),
        ("a98-rgb", ColorSpace::A98Rgb),
        ("prophoto-rgb", ColorSpace::ProphotoRgb),
        ("rec2020", ColorSpace::Rec2020),
        ("xyz-d65", ColorSpace::XyzD65),
        ("xyz-d50", ColorSpace::XyzD50),
    ] {
        let json = format!(
            r##"{{ "c": {{ "$type": "color", "$value": {{ "colorSpace": "{name}", "components": [0, 0, 0] }} }} }}"##
        );
        let set = parse(&json).unwrap_or_else(|e| panic!("{name}: {}", e.to_string()));
        let Value::Color(c) = &set.get(&path("c")).unwrap().value else {
            panic!()
        };
        assert_eq!(c.color_space, space, "{name}");
        assert_eq!(space.as_str(), name);
    }
}

#[test]
fn a_none_component_is_read_and_written_as_the_keyword() {
    let json = r##"{ "c": { "$type": "color", "$value": { "colorSpace": "hsl", "components": ["none", 0, 100] } } }"##;
    let set = parse(json).unwrap();
    let Value::Color(c) = &set.get(&path("c")).unwrap().value else {
        panic!()
    };
    assert_eq!(c.components[0], Component::Absent);
    let out = set.to_json_value();
    let Json::Array(list) = at(&out, &["c", "$value", "components"]) else {
        panic!("components is an array")
    };
    assert_eq!(list[0], string("none"));
}

#[test]
fn a_malformed_colour_is_rejected_with_its_path() {
    let cases = [
        (r##"{ "colorSpace": "cmyk", "components": [0, 0, 0] }"##, "cmyk"),
        (r##"{ "colorSpace": "srgb", "components": [0, 0] }"##, "three"),
        (r##"{ "colorSpace": "srgb", "components": [0, 0, 0, 0] }"##, "three"),
        (r##"{ "colorSpace": "srgb", "components": [0, "some", 0] }"##, "none"),
        (r##"{ "colorSpace": "srgb", "components": [0, 0, 0], "alpha": 1.5 }"##, "alpha"),
        (r##"{ "colorSpace": "srgb", "components": [0, 0, 0], "hex": "#fff" }"##, "hex"),
        (r##"{ "colorSpace": "srgb", "components": [0, 0, 0], "hex": "0000ff" }"##, "hex"),
        (r##"{ "colorSpace": "srgb", "components": [0, 0, 0], "hex": "#gg0000" }"##, "hex"),
        (r##"{ "components": [0, 0, 0] }"##, "colorSpace"),
        (r##"{ "colorSpace": "srgb" }"##, "components"),
        (r##""#ff0000""##, "object"),
    ];
    for (value, word) in cases {
        let json = format!(r##"{{ "g": {{ "c": {{ "$type": "color", "$value": {value} }} }} }}"##);
        match parse(&json) {
            Err(Error::InvalidValue { path: p, reason }) => {
                assert_eq!(p, path("g.c"), "{value}");
                assert!(reason.contains(word), "{value}: {reason}");
            }
            other => panic!("{value}: expected InvalidValue, got {other:?}"),
        }
    }
}

#[test]
fn a_hex_fallback_is_normalized_to_lower_case_and_agrees_with_rgb8() {
    let json = r##"{ "c": { "$type": "color", "$value": { "colorSpace": "srgb", "components": [1, 0, 0], "hex": "#FF0000" } } }"##;
    let set = parse(json).unwrap();
    assert_eq!(at(&set.to_json_value(), &["c", "$value", "hex"]), &string("#ff0000"));

    let c = rgb8([0x00, 0x66, 0xcc]);
    assert_eq!(c.color_space, ColorSpace::Srgb);
    assert_eq!(c.components, [Component::Value(num(0.0)), Component::Value(num(0.4)), Component::Value(num(0.8))]);
    assert_eq!(c.hex.map(|h| h.to_string()), Some("#0066cc".to_owned()));
    assert_eq!(c.alpha, None);
}

#[test]
fn a_dimension_is_a_number_with_a_px_or_rem_unit() {
    let json = r##"{ "s": { "$type": "dimension", "a": { "$value": { "value": 0.25, "unit": "rem" } },
                                                  "b": { "$value": { "value": 4, "unit": "px" } } } }"##;
    let set = parse(json).unwrap();
    assert_eq!(
        set.get(&path("s.a")).unwrap().value,
        Value::Dimension(Dimension { value: num(0.25), unit: Unit::Rem })
    );
    assert_eq!(set.get(&path("s.b")).unwrap().value, Value::Dimension(Dimension::px(num(4.0))));
}

#[test]
fn a_malformed_dimension_is_rejected() {
    for (value, word) in [
        (r##"{ "value": 1, "unit": "em" }"##, "em"),
        (r##"{ "value": "1", "unit": "px" }"##, "number"),
        (r##"{ "unit": "px" }"##, "value"),
        (r##"{ "value": 1 }"##, "unit"),
        (r##""4px""##, "object"),
    ] {
        let json = format!(r##"{{ "d": {{ "$type": "dimension", "$value": {value} }} }}"##);
        match parse(&json) {
            Err(Error::InvalidValue { reason, .. }) => assert!(reason.contains(word), "{value}: {reason}"),
            other => panic!("{value}: expected InvalidValue, got {other:?}"),
        }
    }
}

#[test]
fn an_alias_is_kept_as_a_reference_and_resolves_to_the_target_value() {
    let json = format!(
        r##"{{ "colors": {{ "blue": {{ "$type": "color", "$value": {BLUE} }} }},
             "semantic": {{ "primary": {{ "$type": "color", "$value": "{{colors.blue}}" }} }} }}"##
    );
    let set = parse(&json).unwrap();
    let primary = set.get(&path("semantic.primary")).unwrap();
    assert_eq!(primary.value, Value::Alias(path("colors.blue")));
    let resolved = set.resolve(&path("semantic.primary")).unwrap();
    assert_eq!(resolved, &set.get(&path("colors.blue")).unwrap().value);
    assert!(matches!(resolved, Value::Color(_)));
    assert_eq!(at(&set.to_json_value(), &["semantic", "primary", "$value"]), &string("{colors.blue}"));
}

#[test]
fn an_alias_chain_is_followed_and_a_cycle_is_an_error() {
    let json = format!(
        r##"{{ "$type": "color",
             "a": {{ "$value": "{{b}}" }}, "b": {{ "$value": "{{c}}" }}, "c": {{ "$value": {BLUE} }},
             "x": {{ "$value": "{{y}}" }}, "y": {{ "$value": "{{x}}" }} }}"##
    );
    let set = parse(&json).unwrap();
    assert!(matches!(set.resolve(&path("a")).unwrap(), Value::Color(_)));
    match set.resolve(&path("x")) {
        Err(Error::Cycle { path: p, through }) => {
            assert_eq!(p, path("x"));
            assert_eq!(through, path("y"));
        }
        other => panic!("expected Cycle, got {other:?}"),
    }
}

#[test]
fn an_alias_to_a_missing_token_or_to_another_type_is_an_error() {
    let json = format!(
        r##"{{ "blue": {{ "$type": "color", "$value": {BLUE} }},
             "gap": {{ "$type": "dimension", "$value": "{{blue}}" }},
             "gone": {{ "$type": "color", "$value": "{{nowhere}}" }} }}"##
    );
    let set = parse(&json).unwrap();
    match set.resolve(&path("gap")) {
        Err(Error::TypeMismatch { path: p, expected, target, found }) => {
            assert_eq!(p, path("gap"));
            assert_eq!(expected, TokenType::Dimension);
            assert_eq!(target, path("blue"));
            assert_eq!(found, TokenType::Color);
        }
        other => panic!("expected TypeMismatch, got {other:?}"),
    }
    assert!(matches!(set.resolve(&path("gone")), Err(Error::UnknownToken { path: p }) if p == path("nowhere")));
    assert!(matches!(set.resolve(&path("nowhere")), Err(Error::UnknownToken { path: p }) if p == path("nowhere")));
}

#[test]
fn a_malformed_reference_is_rejected_at_read_time() {
    for value in [r##""{a.b""##, r##""a.b}""##, r##""{}""##, r##""{a..b}""##, r##""plain""##] {
        let json = format!(r##"{{ "t": {{ "$type": "color", "$value": {value} }} }}"##);
        assert!(matches!(parse(&json), Err(Error::InvalidValue { .. })), "{value}");
    }
}

#[test]
fn description_deprecated_and_extensions_survive_the_round_trip() {
    let json = format!(
        r##"{{ "g": {{ "$type": "color", "$description": "brand", "$deprecated": "use semantic.*",
                     "$extensions": {{ "dev.publicsoftware.tokens": {{ "since": 1 }} }},
               "old": {{ "$value": {BLUE}, "$deprecated": true, "$description": "the 2025 blue",
                        "$extensions": {{ "org.example.tool": [1, 2] }} }},
               "kept": {{ "$value": {BLUE}, "$deprecated": false }} }} }}"##
    );
    let set = parse(&json).unwrap();
    let old = set.get(&path("g.old")).unwrap();
    assert_eq!(old.description.as_deref(), Some("the 2025 blue"));
    assert_eq!(old.deprecated, Some(Deprecated::Flag(true)));
    assert_eq!(
        old.extensions.get("org.example.tool"),
        Some(&Json::Array(vec![Json::Number(JsonNumber::PosInt(1)), Json::Number(JsonNumber::PosInt(2))]))
    );
    assert_eq!(set.get(&path("g.kept")).unwrap().deprecated, Some(Deprecated::Flag(false)));
    let Some(Node::Group(g)) = set.root().child("g") else {
        panic!()
    };
    assert_eq!(g.deprecated, Some(Deprecated::Reason("use semantic.*".to_owned())));
    assert_eq!(
        g.extensions.get("dev.publicsoftware.tokens").and_then(|t| t.get("since")),
        Some(&Json::Number(JsonNumber::PosInt(1)))
    );

    let again = parse(&to_text(&set)).unwrap();
    assert_eq!(again, set);
    let out = set.to_json_value();
    assert_eq!(at(&out, &["g", "$deprecated"]), &string("use semantic.*"));
    assert_eq!(at(&out, &["g", "old", "$deprecated"]), &Json::Bool(true));
    assert!(at(&out, &["g", "old"]).get("$type").is_none(), "an inherited type is not repeated");
}

#[test]
fn an_unknown_dollar_property_on_a_token_is_rejected() {
    let json = format!(r##"{{ "t": {{ "$type": "color", "$value": {BLUE}, "$colour": 1 }} }}"##);
    assert!(matches!(parse(&json), Err(Error::InvalidName { name, .. }) if name == "$colour"));
}

#[test]
fn export_then_import_is_identity() {
    let json = format!(
        r##"{{ "$description": "root", "$type": "dimension",
             "space": {{ "1": {{ "$value": {{ "value": 0.25, "unit": "rem" }} }}, "2": {{ "$value": {{ "value": 8, "unit": "px" }} }} }},
             "color": {{ "$type": "color", "blue": {{ "$value": {BLUE} }},
                          "t": {{ "$value": {{ "colorSpace": "display-p3", "components": [0.1, 0.2, 0.3], "alpha": 0.25 }} }},
                          "alias": {{ "$value": "{{color.blue}}" }} }},
             "root-token": {{ "$type": "color", "$value": {{ "colorSpace": "hwb", "components": [120, "none", 0] }} }} }}"##
    );
    let first = parse(&json).unwrap();
    let text = to_text(&first);
    let second = parse(&text).unwrap();
    assert_eq!(first, second);
    assert_eq!(to_text(&second), text, "the export is stable");
    assert!(text.ends_with('\n'));
    assert_eq!(
        to_serde(&first.to_json_value()),
        serde_json::from_str::<serde_json::Value>(&text).unwrap()
    );
}

#[test]
fn a_syntax_error_is_reported_as_json() {
    assert!(matches!(parse("{"), Err(Error::Json(_))));
    assert!(matches!(parse("[]"), Err(Error::InvalidValue { .. })), "the root must be an object");
}

#[test]
fn tokens_are_listed_in_path_order_with_their_paths() {
    let json = format!(
        r##"{{ "b": {{ "$type": "color", "z": {{ "$value": {BLUE} }}, "a": {{ "$value": {BLUE} }} }},
             "a": {{ "$type": "dimension", "$value": {{ "value": 1, "unit": "px" }} }} }}"##
    );
    let set = parse(&json).unwrap();
    let paths: Vec<String> = set.tokens().iter().map(|(p, _)| p.to_string()).collect();
    assert_eq!(paths, ["a", "b.a", "b.z"]);
    assert_eq!(set.tokens().len(), 3);
}

#[test]
fn a_set_is_built_in_rust_the_same_way_it_is_read() {
    let mut set = TokenSet::new();
    let mut color = Group::new();
    color.ty = Some(TokenType::Color);
    color.insert_token("blue", Token::color(rgb8([0x00, 0x66, 0xcc]))).unwrap();
    color.insert_token("primary", Token::alias(TokenType::Color, path("color.blue"))).unwrap();
    set.root_mut().insert_group("color", color).unwrap();
    let mut space = Group::new();
    space
        .insert_token("1", Token::dimension(Dimension::rem(num(0.25))).with_description("one step"))
        .unwrap();
    set.root_mut().insert_group("space", space).unwrap();

    let json = format!(
        r##"{{ "color": {{ "$type": "color", "blue": {{ "$value": {BLUE} }}, "primary": {{ "$value": "{{color.blue}}" }} }},
             "space": {{ "1": {{ "$type": "dimension", "$value": {{ "value": 0.25, "unit": "rem" }}, "$description": "one step" }} }} }}"##
    );
    assert_eq!(set, parse(&json).unwrap());
    assert!(matches!(set.root_mut().insert_group("color", Group::new()), Err(Error::Duplicate { .. })));
}

#[test]
fn the_suite_set_round_trips_and_every_alias_resolves() {
    let set = suite_tokens();
    let again = parse(&to_text(&set)).unwrap();
    assert_eq!(again, set);
    for (p, token) in set.tokens() {
        let value = set.resolve(&p).unwrap_or_else(|e| panic!("{}: {}", p.to_string(), e.to_string()));
        match token.ty {
            TokenType::Color => assert!(matches!(value, Value::Color(_)), "{}", p.to_string()),
            TokenType::Dimension => assert!(matches!(value, Value::Dimension(_)), "{}", p.to_string()),
        }
    }
}

#[test]
fn the_suite_colours_carry_an_srgb_hex_and_the_spacing_is_a_quarter_rem_scale() {
    let set = suite_tokens();
    assert_eq!(set.resolve(&path("color.accent.500")).unwrap(), &Value::Color(rgb8(palette::ACCENT_500)));
    assert_eq!(set.resolve(&path("color.neutral.0")).unwrap(), &Value::Color(rgb8([0xff, 0xff, 0xff])));
    for (p, token) in set.tokens() {
        if let Value::Color(c) = &token.value {
            assert_eq!(c.color_space, ColorSpace::Srgb, "{}", p.to_string());
            assert!(c.hex.is_some(), "{} has a hex fallback", p.to_string());
        }
        if let Value::Dimension(d) = &token.value {
            assert_eq!(d.unit, Unit::Rem, "{}", p.to_string());
            let steps = f64::from_bits(d.value.0) / 0.25;
            assert_eq!(steps.fract(), 0.0, "{} is on the grid", p.to_string());
        }
    }
    assert_eq!(set.resolve(&path("space.4")).unwrap(), &Value::Dimension(Dimension::rem(num(1.0))));
    assert!(set.tokens().len() >= 40, "{}", set.tokens().len());
}
