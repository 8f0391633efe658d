use script_lexer::tokenizer::{tokenize, tokenize_multi_char, tokenize_string, Cursor, Token};

#[test]
fn blank_sources_scan_to_nothing() {
    assert_eq!(tokenize(""), Ok(vec![]));
    assert_eq!(tokenize("   \t\n  "), Ok(vec![]));
    assert_eq!(tokenize("// just a comment"), Ok(vec![]));
    assert_eq!(tokenize("  // a\n\t// b\n"), Ok(vec![]));
}

#[test]
fn fixed_characters_roundtrip() {
    assert_eq!(tokenize("("), Ok(vec![Token::LParen]));
    assert_eq!(tokenize(")"), Ok(vec![Token::RParen]));
    assert_eq!(tokenize("["), Ok(vec![Token::LBracket]));
    assert_eq!(tokenize("]"), Ok(vec![Token::RBracket]));
    assert_eq!(tokenize("{"), Ok(vec![Token::LBrace]));
    assert_eq!(tokenize("}"), Ok(vec![Token::RBrace]));
    assert_eq!(tokenize("+"), Ok(vec![Token::Plus]));
    assert_eq!(tokenize("-"), Ok(vec![Token::Minus]));
    assert_eq!(tokenize("*"), Ok(vec![Token::Multiply]));
    assert_eq!(tokenize("="), Ok(vec![Token::Equals]));
    assert_eq!(tokenize("/"), Ok(vec![Token::Slash]));
}

#[test]
fn literal_kinds_classify_by_precedence() {
    assert_eq!(tokenize("123"), Ok(vec![Token::Number(123)]));
    assert_eq!(tokenize("1.5"), Ok(vec![Token::Float("1.5".to_string())]));
    assert_eq!(tokenize("true"), Ok(vec![Token::Bool(true)]));
    assert_eq!(tokenize("false"), Ok(vec![Token::Bool(false)]));
    assert_eq!(tokenize("let"), Ok(vec![Token::Let]));
    assert_eq!(tokenize("import"), Ok(vec![Token::Import]));
    assert_eq!(
        tokenize("foo_bar"),
        Ok(vec![Token::Identifier("foo_bar".to_string())])
    );
}

#[test]
fn float_text_recovers_the_value() {
    let tokens = tokenize("1.5").unwrap();
    match &tokens[0] {
        Token::Float(text) => assert_eq!(text.parse::<f64>().unwrap(), 1.5),
        other => panic!("expected a float, got {other:?}"),
    }
    let tokens = tokenize("2e3").unwrap();
    match &tokens[0] {
        Token::Float(text) => assert_eq!(text.parse::<f64>().unwrap(), 2000.0),
        other => panic!("expected a float, got {other:?}"),
    }
}

#[test]
fn digit_runs_never_become_floats_or_identifiers() {
    assert_eq!(tokenize("007"), Ok(vec![Token::Number(7)]));
    assert_eq!(tokenize("0"), Ok(vec![Token::Number(0)]));
    assert_eq!(
        tokenize("18446744073709551615"),
        Ok(vec![Token::Number(18446744073709551615)])
    );
}

#[test]
fn overflowing_digit_run_falls_to_the_float_rule() {
    assert_eq!(
        tokenize("18446744073709551616"),
        Ok(vec![Token::Float("18446744073709551616".to_string())])
    );
    assert_eq!(
        tokenize("99999999999999999999"),
        Ok(vec![Token::Float("99999999999999999999".to_string())])
    );
}

#[test]
fn float_shapes() {
    assert_eq!(tokenize("1."), Ok(vec![Token::Float("1.".to_string())]));
    assert_eq!(tokenize("1e5"), Ok(vec![Token::Float("1e5".to_string())]));
    assert_eq!(
        tokenize("1.25e2"),
        Ok(vec![Token::Float("1.25e2".to_string())])
    );
    assert_eq!(tokenize("inf"), Ok(vec![Token::Float("inf".to_string())]));
    assert_eq!(tokenize("NaN"), Ok(vec![Token::Float("NaN".to_string())]));
    assert_eq!(
        tokenize("Infinity"),
        Ok(vec![Token::Float("Infinity".to_string())])
    );
}

#[test]
fn malformed_numeric_text_is_an_identifier() {
    assert_eq!(
        tokenize("1.2.3"),
        Ok(vec![Token::Identifier("1.2.3".to_string())])
    );
    assert_eq!(tokenize("1e"), Ok(vec![Token::Identifier("1e".to_string())]));
    assert_eq!(
        tokenize("12x"),
        Ok(vec![Token::Identifier("12x".to_string())])
    );
    assert_eq!(tokenize("_"), Ok(vec![Token::Identifier("_".to_string())]));
    assert_eq!(
        tokenize("truex"),
        Ok(vec![Token::Identifier("truex".to_string())])
    );
}

#[test]
fn escaped_newline_decodes_inside_string() {
    let tokens = tokenize("\"a\\nb\"").unwrap();
    assert_eq!(tokens, vec![Token::String("a\nb".to_string())]);
    match &tokens[0] {
        Token::String(s) => assert_eq!(s.chars().count(), 3),
        other => panic!("expected a string, got {other:?}"),
    }
}

#[test]
fn string_edge_cases() {
    assert_eq!(tokenize("\"\""), Ok(vec![Token::String(String::new())]));
    assert_eq!(
        tokenize("\"a\nb\""),
        Ok(vec![Token::String("a\nb".to_string())])
    );
}

#[test]
fn unterminated_string_is_fatal() {
    assert_eq!(
        tokenize("\"unterminated"),
        Err("Unclosed string literal".to_string())
    );
    assert_eq!(tokenize("\""), Err("Unclosed string literal".to_string()));
}

#[test]
fn comment_and_trailing_newline_produce_no_tokens() {
    assert_eq!(
        tokenize("// comment\nlet x"),
        Ok(vec![Token::Let, Token::Identifier("x".to_string())])
    );
}

#[test]
fn unexpected_character_is_fatal_and_named() {
    assert_eq!(tokenize("@"), Err("Unexpected token: @".to_string()));
    assert_eq!(tokenize("."), Err("Unexpected token: .".to_string()));
    assert_eq!(tokenize("let x = #"), Err("Unexpected token: #".to_string()));
}

#[test]
fn slash_inside_expression_divides() {
    assert_eq!(
        tokenize("a/b"),
        Ok(vec![
            Token::Identifier("a".to_string()),
            Token::Slash,
            Token::Identifier("b".to_string()),
        ])
    );
    assert_eq!(
        tokenize("a//b"),
        Ok(vec![Token::Identifier("a".to_string())])
    );
}

#[test]
fn whole_statement_scans_in_order() {
    assert_eq!(
        tokenize("let x = 1 + 2 // done"),
        Ok(vec![
            Token::Let,
            Token::Identifier("x".to_string()),
            Token::Equals,
            Token::Number(1),
            Token::Plus,
            Token::Number(2),
        ])
    );
}

#[test]
fn string_reader_consumes_through_the_closing_quote() {
    let mut cursor = Cursor::new("\"ab\"rest");
    let token = tokenize_string(&mut cursor).unwrap();
    assert_eq!(token, Token::String("ab".to_string()));
    assert_eq!(cursor.peek(), Some('r'));
}

#[test]
fn word_reader_consumes_the_maximal_run() {
    let mut cursor = Cursor::new("foo_bar+1");
    let tokens = tokenize_multi_char(&mut cursor);
    assert_eq!(tokens, vec![Token::Identifier("foo_bar".to_string())]);
    assert_eq!(cursor.peek(), Some('+'));
}

#[test]
fn unicode_letters_join_identifiers() {
    assert_eq!(
        tokenize("caf\u{e9}"),
        Ok(vec![Token::Identifier("caf\u{e9}".to_string())])
    );
    assert_eq!(
        tokenize("\u{3bb}x"),
        Ok(vec![Token::Identifier("\u{3bb}x".to_string())])
    );
}

#[test]
fn every_float_text_parses_as_a_float() {
    for source in ["1.", "1e5", "1.25e2", "inf", "NaN", "Infinity", "0.5"] {
        match &tokenize(source).unwrap()[0] {
            Token::Float(text) => {
                assert!(text.parse::<f64>().is_ok(), "{text} does not parse");
            }
            other => panic!("expected a float for {source}, got {other:?}"),
        }
    }
}
