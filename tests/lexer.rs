use tankseek::query::lexer::{QueryLexer, QueryToken};

#[test]
fn test_lexer_basic() {
    let input = r#"size:>1000 file:"example.txt" !ext:tmp"#;
    let mut lexer = QueryLexer::new(input);

    let expected_tokens = vec![
        QueryToken::Ident("size".into()),
        QueryToken::Colon,
        QueryToken::GreaterThan,
        QueryToken::Ident("1000".into()),
        QueryToken::Ident("file".into()),
        QueryToken::Colon,
        QueryToken::StrLit("example.txt".into()),
        QueryToken::Not,
        QueryToken::Ident("ext".into()),
        QueryToken::Colon,
        QueryToken::Ident("tmp".into()),
    ];
    for expected in expected_tokens {
        let token = lexer.next_token();
        assert_eq!(token, Some(expected));
    }
}

#[test]
fn test_lexer_with_whitespace() {
    let input = r#"  size :  <=  2048   case : "test file.txt"  "#;
    let mut lexer = QueryLexer::new(input);

    let expected_tokens = vec![
        QueryToken::Ident("size".into()),
        QueryToken::Colon,
        QueryToken::LessThanOrEqual,
        QueryToken::Ident("2048".into()),
        QueryToken::Ident("case".into()),
        QueryToken::Colon,
        QueryToken::StrLit("test file.txt".into()),
    ];
    for expected in expected_tokens {
        let token = lexer.next_token();
        assert_eq!(token, Some(expected));
    }
}

#[test]
fn test_lexer_empty_input() {
    let input = r#"   "#;
    let mut lexer = QueryLexer::new(input);
    assert!(lexer.next_token().is_none());
}

#[test]
fn test_lexer_special_characters_in_identifiers() {
    let input = r#"wholefilename:report=v<2.0>!.txt size:>=5000"#;
    let mut lexer = QueryLexer::new(input);
    let expected_tokens = vec![
        QueryToken::Ident("wholefilename".into()),
        QueryToken::Colon,
        QueryToken::Ident("report=v<2.0>!.txt".into()),
        QueryToken::Ident("size".into()),
        QueryToken::Colon,
        QueryToken::GreaterThanOrEqual,
        QueryToken::Ident("5000".into()),
    ];
    for expected in expected_tokens {
        let token = lexer.next_token();
        assert_eq!(token, Some(expected));
    }
}

#[test]
fn test_lexer_unterminated_string() {
    let input = r#"file:"incomplete.txt size:>1000"#;
    let mut lexer = QueryLexer::new(input);

    let expected_tokens = vec![
        QueryToken::Ident("file".into()),
        QueryToken::Colon,
        QueryToken::StrLit("incomplete.txt size:>1000".into()),
    ];
    for expected in expected_tokens {
        let token = lexer.next_token();
        assert_eq!(token, Some(expected));
    }
}

#[test]
fn test_lexer_groups() {
    let input = r#"notes.txt < path:homework | size:>100KB >"#;
    let mut lexer = QueryLexer::new(input);
    let expected_tokens = vec![
        QueryToken::Ident("notes.txt".into()),
        QueryToken::LessThan,
        QueryToken::Ident("path".into()),
        QueryToken::Colon,
        QueryToken::Ident("homework".into()),
        QueryToken::Or,
        QueryToken::Ident("size".into()),
        QueryToken::Colon,
        QueryToken::GreaterThan,
        QueryToken::Ident("100KB".into()),
        QueryToken::GreaterThan,
    ];

    for expected in expected_tokens {
        let token = lexer.next_token();
        assert_eq!(token, Some(expected));
    }
}

#[test]
fn lexer_stops_after_last_token() {
    let mut lexer = QueryLexer::new("a:b");
    assert_eq!(lexer.next_token(), Some(QueryToken::Ident("a".into())));
    assert_eq!(lexer.next_token(), Some(QueryToken::Colon));
    assert_eq!(lexer.next_token(), Some(QueryToken::Ident("b".into())));
    assert_eq!(lexer.next_token(), None);
    assert_eq!(lexer.next_token(), None);
}

#[test]
fn lexer_treats_unicode_spaces_as_separators() {
    let mut lexer = QueryLexer::new("a\u{3000}b\u{a0}=");
    assert_eq!(lexer.next_token(), Some(QueryToken::Ident("a".into())));
    assert_eq!(lexer.next_token(), Some(QueryToken::Ident("b".into())));
    assert_eq!(lexer.next_token(), Some(QueryToken::Equal));
    assert_eq!(lexer.next_token(), None);
}

#[test]
fn lexer_reads_empty_literal_and_trailing_less_equal() {
    let mut lexer = QueryLexer::new("\"\"<=");
    assert_eq!(lexer.next_token(), Some(QueryToken::StrLit(String::new())));
    assert_eq!(lexer.next_token(), Some(QueryToken::LessThanOrEqual));
    assert_eq!(lexer.next_token(), None);
}
