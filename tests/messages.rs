use oxide::{parse_source, ParseError, ParseErrors, Token};

#[test]
fn token_texts() {
    assert_eq!(Token::Number(-42).text(), "-42");
    assert_eq!(Token::Number(1907).text(), "1907");
    assert_eq!(Token::Number(i64::MIN).text(), "-9223372036854775808");
    assert_eq!(Token::Illegal('@').text(), "ILLEGAL(@)");
    assert_eq!(Token::LeftBrace.text(), "{");
    assert_eq!(Token::Ident("abc".to_string()).text(), "abc");
    assert_eq!(Token::EOF.text(), "EOF");
}

#[test]
fn single_error_messages() {
    assert_eq!(
        ParseError::unexpected_token(vec![";"], Token::EOF, 8).describe(),
        "Parse error at position 8: expected ';', found 'EOF'"
    );
    assert_eq!(
        ParseError::unexpected_token(vec!["a", "b"], Token::Plus, 10).describe(),
        "Parse error at position 10: expected 'a' or 'b', found '+'"
    );
    assert_eq!(
        ParseError::unexpected_token(vec!["number", "identifier", "'('"], Token::Semicolon, 3)
            .describe(),
        "Parse error at position 3: expected one of [number, identifier, '('], found ';'"
    );
    assert_eq!(
        ParseError::unexpected_eof(vec![";"]).describe(),
        "Parse error: unexpected end of input, expected ';'"
    );
    assert_eq!(
        ParseError::unexpected_eof(vec![";", "}"]).describe(),
        "Parse error: unexpected end of input, expected one of [;, }]"
    );
    assert_eq!(
        ParseError::invalid_expression("bad", 12).describe(),
        "Parse error at position 12: bad"
    );
    assert_eq!(
        ParseError::invalid_statement("worse", 0).describe(),
        "Parse error at position 0: worse"
    );
    assert_eq!(
        ParseError::missing_expression("let", 3).describe(),
        "Parse error at position 3: missing expression in let"
    );
    assert_eq!(
        ParseError::missing_semicolon(0).describe(),
        "Parse error at position 0: missing semicolon"
    );
    assert_eq!(
        ParseError::invalid_operator(Token::Equals, 6).describe(),
        "Parse error at position 6: invalid operator '='"
    );
}

#[test]
fn error_list_messages() {
    assert_eq!(ParseErrors::new().describe(), "No parse errors");

    let one = parse_source("1 + 2").unwrap_err();
    assert_eq!(one.describe(), "Parse error at position 3: expected ';', found 'EOF'");

    let two = parse_source("let x = ; let y = 42").unwrap_err();
    assert_eq!(
        two.describe(),
        "Parse errors:\n  1: Parse error at position 3: expected one of [number, identifier, '('], found ';'\n  2: Parse error at position 8: expected ';', found 'EOF'\n"
    );
}
