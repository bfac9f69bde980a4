use tucant::parser::{parse_ast, parse_identifier, parse_list, parse_number, parse_root, parse_string, parse_whitespace, visitor, Span, AST};

#[test]
fn test_parse_number() {
    let span = Span::new(r#"notanumber"#);
    let number = parse_number(span).unwrap_err();
    println!("{:?}", number);
    assert_eq!(number.reason, "Failed to parse number");
    assert_eq!(number.location.string(), "");

    let span = Span::new(r#"3notendingwithanumber"#);
    let number = parse_number(span).unwrap();
    println!("{:?}", number);
    assert_eq!(number.0.inner, 3);
    assert_eq!(number.0.string(), "3");
    assert_eq!(number.1.string(), "notendingwithanumber");

    let span = Span::new(r#"3"#);
    let number = parse_number(span).unwrap();
    println!("{:?}", number);
    assert_eq!(number.0.inner, 3);
    assert_eq!(number.0.string(), "3");
    assert_eq!(number.1.string(), "");

    let span = Span::new(r#"3z9"#);
    let number = parse_number(span).unwrap();
    println!("{:?}", number);
    assert_eq!(number.0.inner, 3);
    assert_eq!(number.0.string(), "3");
    assert_eq!(number.1.string(), "z9");

    let span = Span::new(r#"3546z945"#);
    let number = parse_number(span).unwrap();
    println!("{:?}", number);
    assert_eq!(number.0.inner, 3546);
    assert_eq!(number.0.string(), "3546");
    assert_eq!(number.1.string(), "z945");

    let span = Span::new(r#"345345"#);
    let number = parse_number(span).unwrap();
    println!("{:?}", number);
    assert_eq!(number.0.inner, 345345);
    assert_eq!(number.0.string(), "345345");
    assert_eq!(number.1.string(), "");

    let span = Span::new(r#"345345sdfasd"#);
    let number = parse_number(span).unwrap();
    println!("{:?}", number);
    assert_eq!(number.0.inner, 345345);
    assert_eq!(number.0.string(), "345345");
    assert_eq!(number.1.string(), "sdfasd");

    let span = Span::new(r#"n32otanumber"#);
    let number = parse_number(span).unwrap_err();
    println!("{:?}", number);
    assert_eq!(number.reason, "Failed to parse number");
    assert_eq!(number.location.string(), "");

    let span = Span::new(r#"70708777897986976707598759785978698752otanumber"#);
    let number = parse_number(span).unwrap_err();
    println!("{:?}", number);
    assert_eq!(number.reason, "Failed to parse number");
    assert_eq!(
        number.location.string(),
        "70708777897986976707598759785978698752"
    );
}

#[test]
fn test_parse_string() {
    let span = Span::new(r#"notastring"#);
    let string = parse_string(span).unwrap_err();
    println!("{:?}", string);
    assert_eq!(string.reason, r#"Expected a `"`"#);
    assert_eq!(string.location.string(), "n");

    let span = Span::new(r#""unterminated"#);
    let string = parse_string(span).unwrap_err();
    println!("{:?}", string);
    assert_eq!(string.reason, r#"Unterminated string literal"#);
    assert_eq!(string.location.string(), r#""unterminated"#);

    let span = Span::new(r#""astring"jojo"#);
    let string = parse_string(span).unwrap();
    println!("{:?}", string);
    assert_eq!(string.0.inner, "astring");
    assert_eq!(string.0.string(), r#""astring""#);
    assert_eq!(string.1.string(), "jojo");

    let span = Span::new(r#""astring""#);
    let string = parse_string(span).unwrap();
    println!("{:?}", string);
    assert_eq!(string.0.inner, "astring");
    assert_eq!(string.0.string(), r#""astring""#);
    assert_eq!(string.1.string(), "");
}

#[test]
fn test_parse_identifier() {
    let span = Span::new(r#"7notanidentifier"#);
    let string = parse_identifier(span).unwrap_err();
    println!("{:?}", string);
    assert_eq!(string.reason, r#"Expected an identifier"#);
    assert_eq!(string.location.string(), "");

    let span = Span::new(r#""notanidentifier"#);
    let string = parse_identifier(span).unwrap_err();
    println!("{:?}", string);
    assert_eq!(string.reason, r#"Expected an identifier"#);
    assert_eq!(string.location.string(), "");

    let span = Span::new(r#"anidentifier"#);
    let string = parse_identifier(span).unwrap();
    println!("{:?}", string);
    assert_eq!(string.0.inner, "anidentifier");
    assert_eq!(string.0.string(), "anidentifier");
    assert_eq!(string.1.string(), "");

    let span = Span::new(r#"anidentifier    jlih"#);
    let string = parse_identifier(span).unwrap();
    println!("{:?}", string);
    assert_eq!(string.0.inner, "anidentifier");
    assert_eq!(string.0.string(), "anidentifier");
    assert_eq!(string.1.string(), "    jlih");
}

#[test]
fn test_parse_whitespace() {
    let span = Span::new(r#""#);
    let string = parse_whitespace(span).unwrap();
    println!("{:?}", string);
    assert_eq!(string.0.string(), "");
    assert_eq!(string.1.string(), "");

    let span = Span::new(r#"  f  fwwe wef"#);
    let string = parse_whitespace(span).unwrap();
    println!("{:?}", string);
    assert_eq!(string.0.string(), "  ");
    assert_eq!(string.1.string(), "f  fwwe wef");

    let span = Span::new(r#"dsfsdf dsf  "#);
    let string = parse_whitespace(span).unwrap();
    println!("{:?}", string);
    assert_eq!(string.0.string(), "");
    assert_eq!(string.1.string(), "dsfsdf dsf  ");
}

#[test]
fn test_parse_list() {
    let span = Span::new(r#"()"#);
    let value = parse_list(span).unwrap();
    println!("{:?}", value);
    assert_eq!(value.0.string(), "()");
    assert_eq!(value.1.string(), "");
    assert!(value.0.inner.is_empty());

    let span = Span::new(r#"(  1    2   3    )"#);
    let value = parse_list(span).unwrap();
    println!("{:?}", value);
    assert_eq!(value.0.string(), "(  1    2   3    )");
    assert_eq!(value.1.string(), "");
    assert_eq!(value.0.inner.len(), 3);
    assert!(matches!(value.0.inner[0].inner, AST::Number(1)));
    assert_eq!(value.0.inner[0].string(), "1");
    assert!(matches!(value.0.inner[1].inner, AST::Number(2)));
    assert_eq!(value.0.inner[1].string(), "2");
    assert!(matches!(value.0.inner[2].inner, AST::Number(3)));
    assert_eq!(value.0.inner[2].string(), "3");
}

#[test]
fn test_parse_ast() {
    let span = Span::new(r#"   ()"#);
    let value = parse_ast(span).unwrap();
    println!("{:?}", value);
    assert_eq!(value.0.string(), "()");
    assert_eq!(value.1.string(), "");
    let value = match value {
        (
            Span {
                inner: AST::List(list),
                ..
            },
            _,
        ) => list,
        _ => panic!("Expected AST list"),
    };
    assert!(value.is_empty());

    let span = Span::new(r#"  (  1    2   3    )"#);
    let value = parse_ast(span).unwrap();
    println!("{:?}", value);
    assert_eq!(value.0.string(), "(  1    2   3    )");
    assert_eq!(value.1.string(), "");
    let value = match value {
        (
            Span {
                inner: AST::List(list),
                ..
            },
            _,
        ) => list,
        _ => panic!("Expected AST list"),
    };
    assert_eq!(value.len(), 3);
    assert!(matches!(value[0].inner, AST::Number(1)));
    assert_eq!(value[0].string(), "1");
    assert!(matches!(value[1].inner, AST::Number(2)));
    assert_eq!(value[1].string(), "2");
    assert!(matches!(value[2].inner, AST::Number(3)));
    assert_eq!(value[2].string(), "3");
}

#[test]
fn parse_root_rejects_trailing_input() {
    let err = parse_root(Span::new("(a) b")).unwrap_err();
    assert_eq!(err.reason, "Expected end of file.");
    assert_eq!(err.location.string(), " b");
    let ok = parse_root(Span::new(" (a \"s\" 12)")).unwrap();
    assert_eq!(ok.0.string(), "(a \"s\" 12)");
}

#[test]
fn parse_ast_reports_unexpected_characters() {
    let err = parse_ast(Span::new("  ?")).unwrap_err();
    assert_eq!(err.reason, "Unexpected character. Expected `\"`, 0-9, a-z, A-Z or `(`.");
    assert_eq!(err.location.string(), "?");
    let err = parse_ast(Span::new("")).unwrap_err();
    assert_eq!(err.reason, "Unexpected end of input");
}

#[test]
fn visitor_yields_one_token_per_leaf() {
    let (ast, _) = parse_root(Span::new("(abc\n  12 \"x\")")).unwrap();
    let tokens = visitor(&ast);
    assert_eq!(tokens, vec![(0, 1, 3, 2, 0), (1, 2, 2, 1, 0), (1, 5, 3, 0, 0)]);
}

#[test]
fn span_line_columns() {
    let (ast, _) = parse_root(Span::new("(a\nbc)")).unwrap();
    assert_eq!(ast.start_line_column(), (0, 0));
    assert_eq!(ast.end_line_column(), (1, 3));
}

#[test]
fn visitor_counts_columns_and_lengths_in_bytes() {
    let (ast, _) = parse_root(Span::new("(\"\u{e4}\" b)")).unwrap();
    assert_eq!(visitor(&ast), vec![(0, 1, 4, 0, 0), (0, 6, 1, 2, 0)]);
}

#[test]
fn parse_root_leaves_trailing_whitespace() {
    let err = parse_root(Span::new("() ")).unwrap_err();
    assert_eq!(err.reason, "Expected end of file.");
    assert_eq!(err.location.string(), " ");
    assert_eq!(err.partial_parse.string(), "()");
}

#[test]
fn visitor_on_a_parsed_list() {
    let (ast, _) = parse_root(Span::new(r#"(a "b" 12)"#)).unwrap();
    assert_eq!(visitor(&ast), vec![(0, 1, 1, 2, 0), (0, 3, 3, 0, 0), (0, 7, 2, 1, 0)]);
}
