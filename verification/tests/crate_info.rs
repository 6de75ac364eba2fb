//! The crate's name, version and error messages.

use pub_design_system_tokens::{Error, Path, TokenType, NAME, VERSION};

#[test]
fn name_follows_the_naming_rule() {
    assert_eq!(NAME, "pub-design-system-tokens");
    assert!(NAME.starts_with("pub-design-system-"));
}

#[test]
fn version_is_semver_shaped() {
    assert_eq!(VERSION.split('.').count(), 3, "{VERSION}");
}

#[test]
fn errors_print_their_path() {
    let path = Path::parse("a.b").unwrap();
    let cases: Vec<(Error, &str)> = vec![
        (Error::MissingType { path: path.clone() }, "a.b has no $type"),
        (Error::UnknownType { path: path.clone(), ty: "x".into() }, "\"x\""),
        (Error::InvalidValue { path: path.clone(), reason: "why".into() }, "a.b: invalid $value: why"),
        (Error::UnknownToken { path: path.clone() }, "no token at a.b"),
        (Error::Cycle { path: path.clone(), through: path.clone() }, "closed at a.b"),
        (
            Error::TypeMismatch {
                path: path.clone(),
                expected: TokenType::Color,
                target: Path::parse("c").unwrap(),
                found: TokenType::Dimension,
            },
            "a.b is a color but its alias target c is a dimension",
        ),
        (Error::InvalidName { parent: Path::root(), name: "$x".into() }, "\"$x\" is not"),
        (Error::InvalidName { parent: path.clone(), name: "$x".into() }, "in a.b"),
        (Error::Duplicate { parent: Path::root(), name: "x".into() }, "root group"),
        (Error::Duplicate { parent: path.clone(), name: "x".into() }, "already in a.b"),
    ];
    for (error, expected) in cases {
        let text = error.to_string();
        assert!(text.contains(expected), "{text:?} lacks {expected:?}");
    }
    let json: Error = serde_json::from_str::<serde_json::Value>("{").unwrap_err().into();
    assert!(json.to_string().starts_with("the text is not JSON"));
    assert!(json.source().is_some());
    assert!(Error::UnknownToken { path }.source().is_none());
}

#[test]
fn error_messages_are_exact() {
    let path = Path::parse("a.b").unwrap();
    assert_eq!(Error::MissingType { path: path.clone() }.to_string(), "a.b has no $type of its own and inherits none");
    assert_eq!(
        Error::UnknownType { path: path.clone(), ty: "x".into() }.to_string(),
        "a.b: unknown or unsupported $type \"x\""
    );
    assert_eq!(
        Error::Cycle { path: path.clone(), through: Path::parse("c").unwrap() }.to_string(),
        "a.b: the alias chain is circular, closed at c"
    );
    assert_eq!(
        Error::Duplicate { parent: Path::root(), name: "x".into() }.to_string(),
        "\"x\" is already in the root group"
    );
    assert_eq!(
        Error::InvalidName { parent: path, name: "$x".into() }.to_string(),
        "\"$x\" in a.b is not a valid token or group name"
    );
}
