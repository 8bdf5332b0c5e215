use oxide::{Lexer, Token};

#[test]
fn test_simple_tokens() {
    let mut lexer = Lexer::new("=+(){}*;");

    assert_eq!(lexer.next_token(), Token::Equals);
    assert_eq!(lexer.next_token(), Token::Plus);
    assert_eq!(lexer.next_token(), Token::LeftParen);
    assert_eq!(lexer.next_token(), Token::RightParen);
    assert_eq!(lexer.next_token(), Token::LeftBrace);
    assert_eq!(lexer.next_token(), Token::RightBrace);
    assert_eq!(lexer.next_token(), Token::Multiply);
    assert_eq!(lexer.next_token(), Token::Semicolon);
    assert_eq!(lexer.next_token(), Token::EOF);
}

#[test]
fn test_numbers() {
    let mut lexer = Lexer::new("123 456");

    assert_eq!(lexer.next_token(), Token::Number(123));
    assert_eq!(lexer.next_token(), Token::Number(456));
    assert_eq!(lexer.next_token(), Token::EOF);
}

#[test]
fn test_identifiers_and_keywords() {
    let mut lexer = Lexer::new("let x foo_bar");

    assert_eq!(lexer.next_token(), Token::Let);
    assert_eq!(lexer.next_token(), Token::Ident("x".to_string()));
    assert_eq!(lexer.next_token(), Token::Ident("foo_bar".to_string()));
    assert_eq!(lexer.next_token(), Token::EOF);
}

#[test]
fn test_complete_statement() {
    let mut lexer = Lexer::new("let x = 42;");

    assert_eq!(lexer.next_token(), Token::Let);
    assert_eq!(lexer.next_token(), Token::Ident("x".to_string()));
    assert_eq!(lexer.next_token(), Token::Equals);
    assert_eq!(lexer.next_token(), Token::Number(42));
    assert_eq!(lexer.next_token(), Token::Semicolon);
    assert_eq!(lexer.next_token(), Token::EOF);
}

#[test]
fn test_whitespace_handling() {
    let mut lexer = Lexer::new("  let   x   =   42  ;  ");

    assert_eq!(lexer.next_token(), Token::Let);
    assert_eq!(lexer.next_token(), Token::Ident("x".to_string()));
    assert_eq!(lexer.next_token(), Token::Equals);
    assert_eq!(lexer.next_token(), Token::Number(42));
    assert_eq!(lexer.next_token(), Token::Semicolon);
    assert_eq!(lexer.next_token(), Token::EOF);
}

#[test]
fn test_iterator_implementation() {
    let lexer = Lexer::new("let x = 5;");
    let tokens: Vec<Token> = lexer.collect();

    assert_eq!(
        tokens,
        vec![
            Token::Let,
            Token::Ident("x".to_string()),
            Token::Equals,
            Token::Number(5),
            Token::Semicolon,
        ]
    );
}

#[test]
fn test_tokenize_method() {
    let mut lexer = Lexer::new("let x = 5;");
    let tokens = lexer.tokenize();

    assert_eq!(
        tokens,
        vec![
            Token::Let,
            Token::Ident("x".to_string()),
            Token::Equals,
            Token::Number(5),
            Token::Semicolon,
            Token::EOF,
        ]
    );
}

#[test]
fn test_illegal_characters() {
    let mut lexer = Lexer::new("@#$");

    assert_eq!(lexer.next_token(), Token::Illegal('@'));
    assert_eq!(lexer.next_token(), Token::Illegal('#'));
    assert_eq!(lexer.next_token(), Token::Illegal('$'));
    assert_eq!(lexer.next_token(), Token::EOF);
}
