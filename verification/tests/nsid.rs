use nsid::{Lexer, Nsid, ParseNsidError, Parser, TokenKind};

#[test]
fn it_parses_valid_nsids() {
    let nsid = Nsid::from_str("com.example.foo").unwrap();

    assert_eq!(nsid.authority(), "example.com");
    assert_eq!(nsid.name(), "foo");
    assert_eq!(nsid.to_string(), "com.example.foo");

    let nsid = Nsid::from_str("com.example.*").unwrap();

    assert_eq!(nsid.authority(), "example.com");
    assert_eq!(nsid.name(), "*");
    assert_eq!(nsid.to_string(), "com.example.*");

    let nsid = Nsid::from_str("com.long-thing1.cool.fooBarBaz").unwrap();

    assert_eq!(nsid.authority(), "cool.long-thing1.com");
    assert_eq!(nsid.name(), "fooBarBaz");
    assert_eq!(nsid.to_string(), "com.long-thing1.cool.fooBarBaz");
}

#[test]
fn it_does_not_parse_invalid_nsids() {
    assert_eq!(
        Nsid::from_str("com.1example.foo"),
        Err(ParseNsidError::SyntaxError("1".to_string()))
    );
    assert_eq!(
        Nsid::from_str("com.example!.foo"),
        Err(ParseNsidError::SyntaxError("!".to_string()))
    );
    assert_eq!(
        Nsid::from_str("com.example.*.foo"),
        Err(ParseNsidError::SyntaxError("*".to_string()))
    );
    assert_eq!(Nsid::from_str("foo"), Err(ParseNsidError::TooFewSegments));
    assert_eq!(
        Nsid::from_str("foo/bar"),
        Err(ParseNsidError::SyntaxError("/".to_string()))
    );
}

#[test]
fn round_trips_valid_texts() {
    for text in [
        "com.example.foo",
        "com.example.*",
        "com.long-thing1.cool.fooBarBaz",
        "net.users.bob.ping",
        "a.b.c",
        "com.example.ab12-cd.x",
    ] {
        let nsid = Nsid::from_str(text).unwrap();
        assert_eq!(nsid.to_string(), text);
    }
}

#[test]
fn authority_is_reversed_and_dot_joined() {
    let nsid = Nsid::from_str("net.users.bob.ping").unwrap();
    assert_eq!(nsid.authority(), "bob.users.net");
    assert_eq!(nsid.name(), "ping");

    let nsid = Nsid::from_str("a.b.c").unwrap();
    assert_eq!(nsid.authority(), "b.a");
    assert_eq!(nsid.name(), "c");
}

#[test]
fn digit_run_is_reported_whole() {
    assert_eq!(
        Nsid::from_str("com.12example.foo"),
        Err(ParseNsidError::SyntaxError("12".to_string()))
    );
}

#[test]
fn empty_segments_are_syntax_errors() {
    assert_eq!(
        Nsid::from_str("com..foo"),
        Err(ParseNsidError::SyntaxError(".".to_string()))
    );
    assert_eq!(
        Nsid::from_str(".com.foo"),
        Err(ParseNsidError::SyntaxError(".".to_string()))
    );
}

#[test]
fn segment_must_start_with_a_letter() {
    assert_eq!(
        Nsid::from_str("-com.example.foo"),
        Err(ParseNsidError::SyntaxError("-".to_string()))
    );
    assert_eq!(
        Nsid::from_str("com.-example.foo"),
        Err(ParseNsidError::SyntaxError("-".to_string()))
    );
}

#[test]
fn star_is_only_accepted_in_final_position_at_segment_start() {
    assert_eq!(
        Nsid::from_str("*.example.foo"),
        Err(ParseNsidError::SyntaxError("*".to_string()))
    );
    assert_eq!(
        Nsid::from_str("com.*.foo"),
        Err(ParseNsidError::SyntaxError("*".to_string()))
    );
    assert_eq!(Nsid::from_str("*"), Err(ParseNsidError::TooFewSegments));
}

#[test]
fn star_inside_a_segment_is_kept() {
    let nsid = Nsid::from_str("com.exa*mple.foo").unwrap();
    assert_eq!(nsid.authority(), "exa*mple.com");
    assert_eq!(nsid.name(), "foo");
    assert_eq!(nsid.to_string(), "com.exa*mple.foo");

    let nsid = Nsid::from_str("com.example.foo*").unwrap();
    assert_eq!(nsid.name(), "foo*");
}

#[test]
fn too_few_segments() {
    assert_eq!(Nsid::from_str(""), Err(ParseNsidError::TooFewSegments));
    assert_eq!(Nsid::from_str("foo"), Err(ParseNsidError::TooFewSegments));
    assert_eq!(
        Nsid::from_str("com.example"),
        Err(ParseNsidError::TooFewSegments)
    );
    assert_eq!(
        Nsid::from_str("com.example."),
        Err(ParseNsidError::TooFewSegments)
    );
}

#[test]
fn a_single_trailing_dot_is_tolerated() {
    let nsid = Nsid::from_str("com.example.foo.").unwrap();
    assert_eq!(nsid.to_string(), "com.example.foo");
    assert_eq!(
        Nsid::from_str("com.example.foo.."),
        Err(ParseNsidError::SyntaxError(".".to_string()))
    );
}

#[test]
fn unrecognized_characters_are_reported_verbatim() {
    assert_eq!(
        Nsid::from_str("foo bar.baz.qux"),
        Err(ParseNsidError::SyntaxError(" ".to_string()))
    );
    assert_eq!(
        Nsid::from_str("caf\u{e9}.example.foo"),
        Err(ParseNsidError::SyntaxError("\u{e9}".to_string()))
    );
}

#[test]
fn lexer_classifies_greedy_runs() {
    let mut lexer = Lexer::new("com.1a-*!");
    let expected = [
        (TokenKind::Alpha, "com", (0, 3)),
        (TokenKind::Delim, ".", (3, 4)),
        (TokenKind::Number, "1", (4, 5)),
        (TokenKind::Alpha, "a", (5, 6)),
        (TokenKind::Dash, "-", (6, 7)),
        (TokenKind::Star, "*", (7, 8)),
        (TokenKind::Error, "!", (8, 9)),
    ];
    for (kind, lexeme, span) in expected {
        assert!(!lexer.at_end());
        let token = lexer.next().unwrap();
        assert_eq!(token.kind, kind);
        assert_eq!(token.lexeme, lexeme);
        assert_eq!(token.span, span);
    }
    assert!(lexer.at_end());
    assert!(lexer.next().is_none());
}

#[test]
fn parser_returns_segments_in_order() {
    let segments = Parser::new("com.example.foo").parse().unwrap();
    assert_eq!(segments, vec!["com", "example", "foo"]);

    let segments = Parser::new("ab12-cd.*").parse().unwrap();
    assert_eq!(segments, vec!["ab12-cd", "*"]);

    assert_eq!(
        Parser::new("a..b").parse(),
        Err(ParseNsidError::SyntaxError(".".to_string()))
    );
}

#[test]
fn identifiers_compare_structurally() {
    let a = Nsid::from_str("com.example.foo").unwrap();
    let b = Nsid::from_str("com.example.foo").unwrap();
    let c = Nsid::from_str("com.example.bar").unwrap();
    assert_eq!(a, b);
    assert_eq!(a, a.clone());
    assert_ne!(a, c);
    assert!(c < a);
    assert!(Nsid::from_str("com.a.z").unwrap() < Nsid::from_str("com.b.a").unwrap());
}
