use usefix::parsers::{
    parse_as_alias, parse_identifier, parse_identifier_like, parse_normal_identifier, parse_pub_visibility,
    parse_simple_path, parse_use_prefix, snip_whitespace, IdentifierLike, ParseErrorKind, Visibility,
};

#[test]
fn test_parse_normal_identifier() {
    let ident = "std::";

    assert_eq!(parse_normal_identifier(ident), Ok(("::", "std")))
}

#[test]
fn test_parse_identifier() {
    let ident = "std::";

    let (tail, ident) = parse_identifier(ident).unwrap();
    assert_eq!(tail, "::");
    assert_eq!(ident.get_raw(), "std");
}

#[test]
fn test_parse_raw_identifier() {
    let ident = "r#std::";

    let (tail, ident) = parse_identifier(ident).unwrap();
    assert_eq!(tail, "::");
    assert_eq!(ident.get_raw(), "r#std");
    assert_eq!(ident.get(), "std");
}

#[test]
fn lone_underscore_is_no_identifier() {
    assert_eq!(parse_normal_identifier("_::"), Err(ParseErrorKind::AlphaNumeric));
    assert_eq!(parse_normal_identifier("::a"), Err(ParseErrorKind::Alpha));
    assert_eq!(parse_normal_identifier("_a b"), Ok((" b", "_a")));
}

#[test]
fn underscore_is_identifier_like() {
    match parse_identifier_like("_;").unwrap() {
        (tail, IdentifierLike::Underscore) => assert_eq!(tail, ";"),
        _ => panic!("expected an underscore"),
    }
    match parse_identifier_like("abc;").unwrap() {
        (tail, IdentifierLike::Identifier(i)) => {
            assert_eq!(tail, ";");
            assert_eq!(i.get(), "abc");
        }
        _ => panic!("expected an identifier"),
    }
}

#[test]
fn alias_follows_as() {
    let (tail, alias) = parse_as_alias("as Foo;").unwrap();
    assert_eq!(tail, ";");
    assert_eq!(alias.get_raw(), "Foo");
    assert!(parse_as_alias("is Foo").is_err());
}

#[test]
fn whitespace_is_snipped() {
    assert_eq!(snip_whitespace(" \t x y"), (" \t ", "x y"));
    assert_eq!(snip_whitespace("x"), ("", "x"));
}

#[test]
fn simple_paths_are_read() {
    let (tail, p) = parse_simple_path("::a::b c").unwrap();
    assert_eq!(tail, " c");
    assert!(p.rooted);
    assert_eq!(p.root.get_raw(), "a");
    assert_eq!(p.children.len(), 1);
    assert_eq!(p.children[0].get_raw(), "b");
    let (tail, p) = parse_simple_path("x)").unwrap();
    assert_eq!(tail, ")");
    assert!(!p.rooted);
    assert!(parse_simple_path("a::").is_err());
    assert!(parse_simple_path("::").is_err());
}

#[test]
fn visibilities_are_read() {
    assert!(matches!(parse_pub_visibility("pub use"), Ok((" use", Visibility::Public))));
    assert!(matches!(parse_pub_visibility("pub(crate) use"), Ok((" use", Visibility::Crate))));
    assert!(matches!(parse_pub_visibility("pub(self)"), Ok(("", Visibility::This))));
    assert!(matches!(parse_pub_visibility("pub(super)x"), Ok(("x", Visibility::Super))));
    match parse_pub_visibility("pub(in a::b) use") {
        Ok((tail, Visibility::In(p))) => {
            assert_eq!(tail, " use");
            assert_eq!(p.root.get_raw(), "a");
        }
        _ => panic!("expected pub(in a::b)"),
    }
    assert!(parse_pub_visibility("pub(nope)").is_err());
    assert!(parse_pub_visibility("use").is_err());
}

#[test]
fn use_prefixes_are_read() {
    assert!(matches!(parse_use_prefix("use a;"), Ok((" a;", None))));
    assert!(matches!(parse_use_prefix("pub use a;"), Ok((" a;", Some(Visibility::Public)))));
    assert!(matches!(parse_use_prefix("pub(crate) use a;"), Ok((" a;", Some(Visibility::Crate)))));
    assert!(parse_use_prefix("pub(crate)use a;").is_err());
    assert!(parse_use_prefix("pub(x) use a;").is_err());
    assert!(parse_use_prefix("fn a()").is_err());
}

#[test]
fn unicode_identifiers_follow_xid() {
    assert_eq!(parse_normal_identifier("élan::x"), Ok(("::x", "élan")));
    assert_eq!(parse_normal_identifier("1abc"), Err(ParseErrorKind::Alpha));
    assert_eq!(parse_normal_identifier("a1_b-c"), Ok(("-c", "a1_b")));
}
