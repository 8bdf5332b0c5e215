use oxide::{parse_source, BinaryOp, Expr, Program, Stmt, UnaryOp};

fn render_expr(e: &Expr) -> String {
    match e {
        Expr::Number(n) => n.to_string(),
        Expr::Identifier(name) => name.clone(),
        Expr::Binary {
            left,
            operator,
            right,
        } => {
            let op = match operator {
                BinaryOp::Add => "+",
                BinaryOp::Subtract => "-",
                BinaryOp::Multiply => "*",
                BinaryOp::Divide => "/",
            };
            format!("{} {} {}", render_expr(left), op, render_expr(right))
        }
        Expr::Unary {
            operator: UnaryOp::Negate,
            operand,
        } => format!("-{}", render_expr(operand)),
        Expr::Grouping(inner) => format!("({})", render_expr(inner)),
    }
}

fn render_stmt(s: &Stmt) -> String {
    match s {
        Stmt::Let { name, value } => format!("let {} = {};", name, render_expr(value)),
        Stmt::Expression(e) => format!("{};", render_expr(e)),
        Stmt::Block(statements) => {
            let inner: Vec<String> = statements.iter().map(render_stmt).collect();
            format!("{{ {} }}", inner.join(" "))
        }
    }
}

fn render(p: &Program) -> String {
    let parts: Vec<String> = p.statements.iter().map(render_stmt).collect();
    parts.join("\n")
}

fn assert_round_trip(source: &str) {
    let first = parse_source(source).unwrap();
    let text = render(&first);
    let second = parse_source(&text).unwrap();
    assert_eq!(format!("{:?}", first), format!("{:?}", second), "rendered as {}", text);
}

#[test]
fn rendered_programs_parse_back_the_same() {
    assert_round_trip("let x = 42;");
    assert_round_trip("1 + 2 * 3 - 4 / 2;");
    assert_round_trip("1 - 2 - 3; 8 / 4 / 2 * 7;");
    assert_round_trip("(1 + 2) * 3; -(a - b); --10; - - x * -y;");
    assert_round_trip("{ let x = 5; { x + 10; } } let y = ((1 + 2) * 3) - (4 / (5 + 6));");
    assert_round_trip("");
}
