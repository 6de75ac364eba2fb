//! Names, paths, groups, the set and its queries.

use pub_design_system_tokens::{
    is_valid_name, Binary64, Deprecated, Dimension, Error, Group, Json, JsonNumber, NodeRef, Path, Token, TokenSet,
    TokenType, Value,
};

fn px(x: f64) -> Dimension {
    Dimension::px(Binary64(x.to_bits()))
}

#[test]
fn names_follow_the_format_rules() {
    for ok in ["a", "0", "brand-blue", "Brand Blue", "a$b", "ünïcödé"] {
        assert!(is_valid_name(ok), "{ok}");
    }
    for bad in ["", "$a", "a.b", "{a", "a}"] {
        assert!(!is_valid_name(bad), "{bad}");
    }
}

#[test]
fn paths_join_split_and_print() {
    let p = Path::parse("a.b.c").unwrap();
    assert_eq!(p.name(), Some("c"));
    assert_eq!(p.parent(), Some(Path::parse("a.b").unwrap()));
    assert_eq!(Path::root().parent(), None);
    assert_eq!(Path::root().name(), None);
    assert!(Path::root().is_root());
    assert_eq!(Path::root().to_string(), "");
    assert_eq!(Path::root().join("x"), Path::parse("x").unwrap());
    assert!(Path::root().segments().is_empty());
    assert_eq!(Path::root(), Path::default());
    assert!(matches!(
        Path::parse("a.$b"),
        Err(Error::InvalidName { parent, name }) if parent == Path::parse("a").unwrap() && name == "$b"
    ));
}

#[test]
fn a_group_refuses_bad_and_duplicate_names_and_keeps_name_order() {
    let mut g = Group::new();
    g.insert_token("z", Token::dimension(px(1.0))).unwrap();
    g.insert_group("a", Group::new()).unwrap();
    assert!(matches!(g.insert_group("a", Group::new()), Err(Error::Duplicate { name, .. }) if name == "a"));
    assert!(matches!(g.insert_group("$a", Group::new()), Err(Error::InvalidName { name, .. }) if name == "$a"));
    let names: Vec<&str> = g.children().iter().map(|(n, _)| *n).collect();
    assert_eq!(names, ["a", "z"]);
    assert_eq!(g.len(), 2);
    assert!(g.child_mut("z").is_some());
    assert!(g.remove("z").is_some());
    assert!(g.remove("z").is_none());
    assert_eq!(g.len(), 1);
}

#[test]
fn node_walks_groups_and_stops_at_tokens() {
    let mut set = TokenSet::new();
    let mut g = Group::new();
    g.insert_token("t", Token::dimension(px(1.0))).unwrap();
    set.root_mut().insert_group("g", g).unwrap();
    assert!(matches!(set.node(&Path::root()), Some(NodeRef::Group(_))));
    assert!(matches!(set.node(&Path::parse("g").unwrap()), Some(NodeRef::Group(_))));
    assert!(matches!(set.node(&Path::parse("g.t").unwrap()), Some(NodeRef::Token(_))));
    assert_eq!(set.node(&Path::parse("g.t.x").unwrap()), None);
    assert_eq!(set.node(&Path::parse("h").unwrap()), None);
    assert!(set.get(&Path::parse("g").unwrap()).is_none());
    assert_eq!(TokenSet::from_root(set.root().clone()), set);
}

#[test]
fn a_self_alias_is_a_cycle_through_itself() {
    let mut set = TokenSet::new();
    let me = Path::parse("me").unwrap();
    set.root_mut().insert_token("me", Token::alias(TokenType::Color, me.clone())).unwrap();
    assert!(matches!(
        set.resolve(&me),
        Err(Error::Cycle { path, through }) if path == me && through == me
    ));
}

#[test]
fn a_value_knows_its_type_except_an_alias() {
    assert_eq!(Value::Dimension(px(1.0)).token_type(), Some(TokenType::Dimension));
    assert_eq!(Value::Alias(Path::root()).token_type(), None);
    assert_eq!(TokenType::parse("color"), Some(TokenType::Color));
    assert_eq!(TokenType::parse("colour"), None);
    assert_eq!(TokenType::Dimension.to_string(), "dimension");
}

#[test]
fn builders_set_the_metadata() {
    let t = Token::dimension(px(1.0))
        .with_description("d")
        .with_deprecated(Deprecated::Flag(true))
        .with_extension("org.example", Json::Number(JsonNumber::PosInt(1)));
    assert_eq!(t.description.as_deref(), Some("d"));
    assert_eq!(t.deprecated, Some(Deprecated::Flag(true)));
    assert_eq!(t.extensions.get("org.example"), Some(&Json::Number(JsonNumber::PosInt(1))));
}

#[test]
fn a_child_put_in_is_found_and_a_child_taken_out_is_gone() {
    let mut g = Group::new();
    g.insert_token("m", Token::dimension(px(2.0))).unwrap();
    g.insert_token("b", Token::dimension(px(3.0))).unwrap();
    assert!(matches!(g.child("b"), Some(pub_design_system_tokens::Node::Token(t)) if t.value == Value::Dimension(px(3.0))));
    assert!(g.child("c").is_none());
    let removed = g.remove("m");
    assert!(matches!(removed, Some(pub_design_system_tokens::Node::Token(_))));
    assert!(g.child("m").is_none());
    assert!(g.child("b").is_some());
    assert!(!g.is_empty());
}

#[test]
fn a_chain_resolves_through_every_link_and_a_group_is_no_token() {
    let mut set = TokenSet::new();
    set.root_mut().insert_token("a", Token::alias(TokenType::Dimension, Path::parse("b").unwrap())).unwrap();
    set.root_mut().insert_token("b", Token::alias(TokenType::Dimension, Path::parse("c").unwrap())).unwrap();
    set.root_mut().insert_token("c", Token::dimension(px(8.0))).unwrap();
    set.root_mut().insert_group("g", Group::new()).unwrap();
    assert_eq!(set.resolve(&Path::parse("a").unwrap()).unwrap(), &Value::Dimension(px(8.0)));
    assert!(matches!(set.resolve(&Path::parse("g").unwrap()), Err(Error::UnknownToken { .. })));
    let listed: Vec<String> = set.tokens().iter().map(|(p, _)| p.to_string()).collect();
    assert_eq!(listed, ["a", "b", "c"]);
}

#[test]
fn every_listed_token_is_found_at_its_path_and_paths_increase() {
    let set = TokenSet::from_json_str(
        r#"{ "b": { "$type": "dimension", "z": { "$value": { "value": 1, "unit": "px" } },
                    "a": { "c": { "$value": { "value": 2, "unit": "px" } } } },
             "a": { "$type": "dimension", "$value": { "value": 3, "unit": "rem" } } }"#,
    )
    .unwrap();
    let listed = set.tokens();
    for (p, t) in &listed {
        assert_eq!(set.get(p), Some(*t));
    }
    let paths: Vec<String> = listed.iter().map(|(p, _)| p.to_string()).collect();
    assert_eq!(paths, ["a", "b.a.c", "b.z"]);
    let names: Vec<&str> = set.root().children().iter().map(|(n, _)| *n).collect();
    assert_eq!(names, ["a", "b"]);
    assert_eq!(set.root().len(), set.root().children().len());
}

#[test]
fn a_group_changed_through_child_mut_keeps_its_names_in_order() {
    let mut g = Group::new();
    g.insert_group("inner", Group::new()).unwrap();
    g.insert_token("a", Token::dimension(px(1.0))).unwrap();
    if let Some(pub_design_system_tokens::Node::Group(inner)) = g.child_mut("inner") {
        inner.insert_token("z", Token::dimension(px(2.0))).unwrap();
        inner.insert_token("m", Token::dimension(px(3.0))).unwrap();
    } else {
        panic!("inner is a group");
    }
    let names: Vec<&str> = g.children().iter().map(|(n, _)| *n).collect();
    assert_eq!(names, ["a", "inner"]);
    let mut set = TokenSet::new();
    set.root_mut().insert_group("g", g).unwrap();
    let paths: Vec<String> = set.tokens().iter().map(|(p, _)| p.to_string()).collect();
    assert_eq!(paths, ["g.a", "g.inner.m", "g.inner.z"]);
}
