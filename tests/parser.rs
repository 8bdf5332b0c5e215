use oxide::{BinaryOp, Expr, Parser, Stmt, UnaryOp};

#[test]
fn test_simple_let_statement() {
    let mut parser = Parser::from_source("let x = 42;");
    let program = parser.parse().unwrap();

    assert_eq!(program.statements.len(), 1);
    match &program.statements[0] {
        Stmt::Let { name, value } => {
            assert_eq!(name, "x");
            assert_eq!(*value, Expr::number(42));
        }
        _ => panic!("Expected let statement"),
    }
}

#[test]
fn test_expression_statement() {
    let mut parser = Parser::from_source("42;");
    let program = parser.parse().unwrap();

    assert_eq!(program.statements.len(), 1);
    match &program.statements[0] {
        Stmt::Expression(expr) => {
            assert_eq!(*expr, Expr::number(42));
        }
        _ => panic!("Expected expression statement"),
    }
}

#[test]
fn test_binary_expression() {
    let mut parser = Parser::from_source("1 + 2 * 3;");
    let program = parser.parse().unwrap();

    assert_eq!(program.statements.len(), 1);
    match &program.statements[0] {
        Stmt::Expression(expr) => match expr {
            Expr::Binary {
                left,
                operator,
                right,
            } => {
                assert_eq!(**left, Expr::number(1));
                assert_eq!(*operator, BinaryOp::Add);
                match right.as_ref() {
                    Expr::Binary {
                        left,
                        operator,
                        right,
                    } => {
                        assert_eq!(**left, Expr::number(2));
                        assert_eq!(*operator, BinaryOp::Multiply);
                        assert_eq!(**right, Expr::number(3));
                    }
                    _ => panic!("Expected binary expression for right operand"),
                }
            }
            _ => panic!("Expected binary expression"),
        },
        _ => panic!("Expected expression statement"),
    }
}

#[test]
fn test_grouped_expression() {
    let mut parser = Parser::from_source("(1 + 2) * 3;");
    let program = parser.parse().unwrap();

    assert_eq!(program.statements.len(), 1);
    match &program.statements[0] {
        Stmt::Expression(expr) => match expr {
            Expr::Binary {
                left,
                operator,
                right,
            } => {
                assert_eq!(*operator, BinaryOp::Multiply);
                assert_eq!(**right, Expr::number(3));
                match left.as_ref() {
                    Expr::Grouping(inner) => match inner.as_ref() {
                        Expr::Binary {
                            left,
                            operator,
                            right,
                        } => {
                            assert_eq!(**left, Expr::number(1));
                            assert_eq!(*operator, BinaryOp::Add);
                            assert_eq!(**right, Expr::number(2));
                        }
                        _ => panic!("Expected binary expression inside grouping"),
                    },
                    _ => panic!("Expected grouping expression"),
                }
            }
            _ => panic!("Expected binary expression"),
        },
        _ => panic!("Expected expression statement"),
    }
}

#[test]
fn test_unary_expression() {
    let mut parser = Parser::from_source("-42;");
    let program = parser.parse().unwrap();

    assert_eq!(program.statements.len(), 1);
    match &program.statements[0] {
        Stmt::Expression(expr) => match expr {
            Expr::Unary { operator, operand } => {
                assert_eq!(*operator, UnaryOp::Negate);
                assert_eq!(**operand, Expr::number(42));
            }
            _ => panic!("Expected unary expression"),
        },
        _ => panic!("Expected expression statement"),
    }
}

#[test]
fn test_block_statement() {
    let mut parser = Parser::from_source("{ let x = 5; 42; }");
    let program = parser.parse().unwrap();

    assert_eq!(program.statements.len(), 1);
    match &program.statements[0] {
        Stmt::Block(statements) => {
            assert_eq!(statements.len(), 2);
            match &statements[0] {
                Stmt::Let { name, value } => {
                    assert_eq!(name, "x");
                    assert_eq!(*value, Expr::number(5));
                }
                _ => panic!("Expected let statement"),
            }
            match &statements[1] {
                Stmt::Expression(expr) => {
                    assert_eq!(*expr, Expr::number(42));
                }
                _ => panic!("Expected expression statement"),
            }
        }
        _ => panic!("Expected block statement"),
    }
}

#[test]
fn test_multiple_statements() {
    let mut parser = Parser::from_source("let x = 5; let y = 10; x + y;");
    let program = parser.parse().unwrap();

    assert_eq!(program.statements.len(), 3);
}

#[test]
fn test_parse_error() {
    let mut parser = Parser::from_source("let x = ;");
    let result = parser.parse();

    assert!(result.is_err());
}

#[test]
fn test_operator_precedence() {
    let mut parser = Parser::from_source("2 + 3 * 4;");
    let program = parser.parse().unwrap();

    // Should parse as 2 + (3 * 4), not (2 + 3) * 4
    match &program.statements[0] {
        Stmt::Expression(Expr::Binary {
            left,
            operator,
            right,
        }) => {
            assert_eq!(**left, Expr::number(2));
            assert_eq!(*operator, BinaryOp::Add);
            match right.as_ref() {
                Expr::Binary {
                    left,
                    operator,
                    right,
                } => {
                    assert_eq!(**left, Expr::number(3));
                    assert_eq!(*operator, BinaryOp::Multiply);
                    assert_eq!(**right, Expr::number(4));
                }
                _ => panic!("Expected multiplication to have higher precedence"),
            }
        }
        _ => panic!("Expected binary expression"),
    }
}
