use oxide::{compile, parse_source, Expr, Stmt};

#[test]
fn test_full_pipeline() {
    let source = "let x = 5 + 3 * 2; let y = -x;";
    let program = compile(source).unwrap();

    assert_eq!(program.statements.len(), 2);
}

#[test]
fn test_parse_source_convenience() {
    let source = "let hello = 42;";
    let program = parse_source(source).unwrap();

    assert_eq!(program.statements.len(), 1);
    match &program.statements[0] {
        Stmt::Let { name, value } => {
            assert_eq!(name, "hello");
            assert_eq!(*value, Expr::Number(42));
        }
        _ => panic!("Expected let statement"),
    }
}
