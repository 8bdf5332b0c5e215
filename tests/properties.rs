use oxide::{
    parse_source, parse_tokens, tokenize, BinaryOp, Expr, LexError, Lexer, ParseError,
    ParseErrors, Parser, Stmt, Token, TokenKind, UnaryOp,
};

fn num(n: i64) -> Expr {
    Expr::number(n)
}

fn single_expression(source: &str) -> Expr {
    let mut program = parse_source(source).unwrap();
    assert_eq!(program.statements.len(), 1);
    match program.statements.pop().unwrap() {
        Stmt::Expression(e) => e,
        other => panic!("expected an expression statement, got {:?}", other),
    }
}

#[test]
fn subtraction_chain_folds_left() {
    let e = single_expression("1-2-3;");
    let expected = Expr::binary(
        Expr::binary(num(1), BinaryOp::Subtract, num(2)),
        BinaryOp::Subtract,
        num(3),
    );
    assert_eq!(e, expected);
}

#[test]
fn division_chain_folds_left() {
    let e = single_expression("8 / 4 / 2;");
    let expected = Expr::binary(
        Expr::binary(num(8), BinaryOp::Divide, num(4)),
        BinaryOp::Divide,
        num(2),
    );
    assert_eq!(e, expected);
}

#[test]
fn mixed_same_rank_chain_folds_left() {
    let e = single_expression("a + b - c;");
    let expected = Expr::binary(
        Expr::binary(
            Expr::identifier("a".to_string()),
            BinaryOp::Add,
            Expr::identifier("b".to_string()),
        ),
        BinaryOp::Subtract,
        Expr::identifier("c".to_string()),
    );
    assert_eq!(e, expected);
}

#[test]
fn product_binds_tighter_than_sum() {
    let e = single_expression("1+2*3;");
    let expected = Expr::binary(
        num(1),
        BinaryOp::Add,
        Expr::binary(num(2), BinaryOp::Multiply, num(3)),
    );
    assert_eq!(e, expected);
}

#[test]
fn parentheses_kept_as_grouping() {
    let e = single_expression("(1+2)*3;");
    let expected = Expr::binary(
        Expr::grouping(Expr::binary(num(1), BinaryOp::Add, num(2))),
        BinaryOp::Multiply,
        num(3),
    );
    assert_eq!(e, expected);
}

#[test]
fn double_negation_nests() {
    let e = single_expression("--10;");
    let expected = Expr::unary(UnaryOp::Negate, Expr::unary(UnaryOp::Negate, num(10)));
    assert_eq!(e, expected);
}

#[test]
fn two_statements_two_diagnostics() {
    let errors = parse_source("let x = ; let y = 42").unwrap_err();
    assert_eq!(errors.len(), 2);
    match &errors.errors[0] {
        ParseError::UnexpectedToken { expected, found, position } => {
            assert_eq!(expected, &vec!["number".to_string(), "identifier".to_string(), "'('".to_string()]);
            assert_eq!(*found, Token::Semicolon);
            assert_eq!(*position, 3);
        }
        other => panic!("unexpected error {:?}", other),
    }
    match &errors.errors[1] {
        ParseError::UnexpectedToken { expected, found, position } => {
            assert_eq!(expected, &vec![";".to_string()]);
            assert_eq!(*found, Token::EOF);
            assert_eq!(*position, 8);
        }
        other => panic!("unexpected error {:?}", other),
    }
}

#[test]
fn illegal_characters_stay_apart() {
    assert_eq!(
        tokenize("@#$"),
        vec![Token::Illegal('@'), Token::Illegal('#'), Token::Illegal('$'), Token::EOF]
    );
}

#[test]
fn empty_source_gives_empty_program() {
    let program = parse_source("").unwrap();
    assert_eq!(program.statements.len(), 0);
}

#[test]
fn let_with_number() {
    let program = parse_source("let x = 42;").unwrap();
    assert_eq!(program.statements.len(), 1);
    match &program.statements[0] {
        Stmt::Let { name, value } => {
            assert_eq!(name, "x");
            assert_eq!(*value, Expr::Number(42));
        }
        other => panic!("expected a let statement, got {:?}", other),
    }
}

#[test]
fn arithmetic_scenario() {
    let e = single_expression("1 + 2 * 3 - 4 / 2;");
    let expected = Expr::binary(
        Expr::binary(num(1), BinaryOp::Add, Expr::binary(num(2), BinaryOp::Multiply, num(3))),
        BinaryOp::Subtract,
        Expr::binary(num(4), BinaryOp::Divide, num(2)),
    );
    assert_eq!(e, expected);
}

#[test]
fn largest_number_fits() {
    assert_eq!(tokenize("9223372036854775807"), vec![Token::Number(i64::MAX), Token::EOF]);
}

#[test]
fn overlong_number_is_one_illegal_token() {
    assert_eq!(
        tokenize("9223372036854775808 x"),
        vec![Token::Illegal('9'), Token::Ident("x".to_string()), Token::EOF]
    );
}

#[test]
fn deep_parentheses_fail_cleanly() {
    let source = format!("{}1{};", "(".repeat(300), ")".repeat(300));
    let errors = parse_source(&source).unwrap_err();
    match errors.first() {
        Some(ParseError::InvalidExpression { message, .. }) => {
            assert_eq!(message, "expression nested too deeply");
        }
        other => panic!("unexpected error {:?}", other),
    }
}

#[test]
fn deep_negation_fails_cleanly() {
    let source = format!("{}1;", "-".repeat(500));
    let errors = parse_source(&source).unwrap_err();
    match errors.first() {
        Some(ParseError::InvalidExpression { message, position }) => {
            assert_eq!(message, "expression nested too deeply");
            assert_eq!(*position, 200);
        }
        other => panic!("unexpected error {:?}", other),
    }
}

#[test]
fn deep_blocks_fail_cleanly() {
    let source = format!("{}{}", "{".repeat(300), "}".repeat(300));
    let errors = parse_source(&source).unwrap_err();
    match errors.first() {
        Some(ParseError::InvalidStatement { message, .. }) => {
            assert_eq!(message, "block nested too deeply");
        }
        other => panic!("unexpected error {:?}", other),
    }
}

#[test]
fn moderate_nesting_parses() {
    let source = format!("{}1{};", "(".repeat(50), ")".repeat(50));
    assert!(parse_source(&source).is_ok());
}

#[test]
fn missing_semicolon_reported_at_end() {
    let errors = parse_source("1 + 2").unwrap_err();
    assert_eq!(errors.len(), 1);
    match &errors.errors[0] {
        ParseError::UnexpectedToken { expected, found, position } => {
            assert_eq!(expected, &vec![";".to_string()]);
            assert_eq!(*found, Token::EOF);
            assert_eq!(*position, 3);
        }
        other => panic!("unexpected error {:?}", other),
    }
    assert_eq!(errors.errors[0].position(), Some(3));
}

#[test]
fn let_needs_identifier() {
    let errors = parse_source("let 5 = 1;").unwrap_err();
    match &errors.errors[0] {
        ParseError::UnexpectedToken { expected, found, position } => {
            assert_eq!(expected, &vec!["identifier".to_string()]);
            assert_eq!(*found, Token::Number(5));
            assert_eq!(*position, 1);
        }
        other => panic!("unexpected error {:?}", other),
    }
}

#[test]
fn unclosed_parenthesis() {
    let errors = parse_source("(1;").unwrap_err();
    match &errors.errors[0] {
        ParseError::UnexpectedToken { expected, found, position } => {
            assert_eq!(expected, &vec![")".to_string()]);
            assert_eq!(*found, Token::Semicolon);
            assert_eq!(*position, 2);
        }
        other => panic!("unexpected error {:?}", other),
    }
}

#[test]
fn unclosed_block() {
    let errors = parse_source("{ 1;").unwrap_err();
    match &errors.errors[0] {
        ParseError::UnexpectedToken { expected, found, .. } => {
            assert_eq!(expected, &vec!["}".to_string()]);
            assert_eq!(*found, Token::EOF);
        }
        other => panic!("unexpected error {:?}", other),
    }
}

#[test]
fn bad_statement_does_not_hide_later_ones() {
    let errors = parse_source("let = 1; 2 +; let ok = 3; )").unwrap_err();
    assert_eq!(errors.len(), 3);
    let program = parse_source("let a = 1; { let b = a; } b;").unwrap();
    assert_eq!(program.statements.len(), 3);
}

#[test]
fn tokens_without_end_marker_parse() {
    let program = parse_tokens(vec![Token::Number(1), Token::Semicolon]).unwrap();
    assert_eq!(program.statements.len(), 1);
    assert!(parse_tokens(Vec::new()).unwrap().statements.is_empty());
}

#[test]
fn unicode_space_and_letters() {
    assert_eq!(
        tokenize("let\u{A0}x\u{2003}=\t1;"),
        vec![
            Token::Let,
            Token::Ident("x".to_string()),
            Token::Equals,
            Token::Number(1),
            Token::Semicolon,
            Token::EOF,
        ]
    );
    assert_eq!(tokenize("aé1_"), vec![Token::Ident("aé1_".to_string()), Token::EOF]);
    assert_eq!(tokenize("é"), vec![Token::Illegal('é'), Token::EOF]);
    assert_eq!(tokenize("letter"), vec![Token::Ident("letter".to_string()), Token::EOF]);
}

#[test]
fn end_of_input_repeats() {
    let mut lexer = Lexer::new("x");
    assert!(!lexer.is_at_end());
    assert_eq!(lexer.position(), 0);
    assert_eq!(lexer.next(), Some(Token::Ident("x".to_string())));
    assert!(lexer.is_at_end());
    assert_eq!(lexer.position(), 1);
    assert_eq!(lexer.next(), None);
    assert_eq!(lexer.next_token(), Token::EOF);
    assert_eq!(lexer.next_token(), Token::EOF);
}

#[test]
fn token_kinds_ignore_payload() {
    assert_eq!(Token::Number(1).kind(), Token::Number(2).kind());
    assert_eq!(Token::Ident("a".to_string()).kind(), TokenKind::Ident);
    assert_ne!(Token::Number(1), Token::Number(2));
    assert_eq!(Token::Ident("a".to_string()).duplicate(), Token::Ident("a".to_string()));
    assert_eq!(BinaryOp::from_token(&Token::Minus), Some(BinaryOp::Subtract));
    assert_eq!(BinaryOp::from_token(&Token::Equals), None);
    assert_eq!(UnaryOp::from_token(&Token::Minus), Some(UnaryOp::Negate));
    assert_eq!(BinaryOp::Add.precedence(), 1);
    assert_eq!(BinaryOp::Divide.precedence(), 2);
}

#[test]
fn error_constructors_and_positions() {
    let e = ParseError::unexpected_token(vec!["a", "b"], Token::Plus, 4);
    assert_eq!(e.position(), Some(4));
    match &e {
        ParseError::UnexpectedToken { expected, .. } => {
            assert_eq!(expected, &vec!["a".to_string(), "b".to_string()])
        }
        other => panic!("unexpected {:?}", other),
    }
    assert_eq!(ParseError::unexpected_eof(vec![";"]).position(), None);
    assert_eq!(ParseError::invalid_expression("m", 1).position(), Some(1));
    assert_eq!(ParseError::invalid_statement("m", 2).position(), Some(2));
    assert_eq!(ParseError::missing_expression("let", 3).position(), Some(3));
    assert_eq!(ParseError::missing_semicolon(5).position(), Some(5));
    assert_eq!(ParseError::invalid_operator(Token::Equals, 6).position(), Some(6));

    let mut errors = ParseErrors::new();
    assert!(errors.is_empty());
    assert!(errors.first().is_none());
    errors.add(ParseError::missing_semicolon(7));
    errors.add(ParseError::missing_semicolon(8));
    assert_eq!(errors.len(), 2);
    assert_eq!(errors.first().unwrap().position(), Some(7));
}

#[test]
fn parser_reset_parses_again() {
    let mut parser = Parser::from_source("1; 2;");
    assert_eq!(parser.parse().unwrap().statements.len(), 2);
    assert_eq!(parser.position(), 4);
    parser.reset();
    assert_eq!(parser.position(), 0);
    assert_eq!(parser.parse().unwrap().statements.len(), 2);
}

#[test]
fn program_building() {
    let mut program = oxide::Program::new();
    program.add_statement(Stmt::expression(num(1)));
    program.add_statement(Stmt::let_statement("v".to_string(), num(2)));
    program.add_statement(Stmt::block(Vec::new()));
    assert_eq!(program.statements.len(), 3);
    assert!(oxide::Program::default().statements.is_empty());
}

#[test]
fn lex_error_names_digits() {
    let e = LexError::InvalidNumber("99".to_string());
    match e {
        LexError::InvalidNumber(s) => assert_eq!(s, "99"),
        LexError::UnterminatedString => panic!("wrong variant"),
    }
}
