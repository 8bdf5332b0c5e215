use vstd::prelude::*;
use crate::lexer::{Lexeme, Token};

verus! {

#[derive(Debug)]
pub enum Expr {
    Number(i64),
    Identifier(String),
    Binary { left: Box<Expr>, operator: BinaryOp, right: Box<Expr> },
    Unary { operator: UnaryOp, operand: Box<Expr> },
    Grouping(Box<Expr>),
}

#[derive(Debug, Clone, Copy, PartialEq, Eq, Structural)]
pub enum BinaryOp {
    Add,
    Subtract,
    Multiply,
    Divide,
}

#[derive(Debug, Clone, Copy, PartialEq, Eq, Structural)]
pub enum UnaryOp {
    Negate,
}

#[derive(Debug)]
pub enum Stmt {
    Let { name: String, value: Expr },
    Expression(Expr),
    Block(Vec<Stmt>),
}

/// A parsed program: its statements in source order.
#[derive(Debug)]
pub struct Program {
    pub statements: Vec<Stmt>,
}

/// The mathematical value of an expression tree.
pub enum ExprV {
    Number(i64),
    Identifier(Seq<char>),
    Binary(Box<ExprV>, BinaryOp, Box<ExprV>),
    Unary(UnaryOp, Box<ExprV>),
    Grouping(Box<ExprV>),
}

/// The mathematical value of a statement.
pub enum StmtV {
    Let(Seq<char>, ExprV),
    Expression(ExprV),
    Block(Seq<StmtV>),
}

impl View for Expr {
    type V = ExprV;

    open spec fn view(&self) -> ExprV
        decreases self,
    {
        match self {
            Expr::Number(n) => ExprV::Number(*n),
            Expr::Identifier(s) => ExprV::Identifier(s@),
            Expr::Binary { left, operator, right } => ExprV::Binary(
                Box::new((**left).view()),
                *operator,
                Box::new((**right).view()),
            ),
            Expr::Unary { operator, operand } => ExprV::Unary(*operator, Box::new((**operand).view())),
            Expr::Grouping(e) => ExprV::Grouping(Box::new((**e).view())),
        }
    }
}

impl View for Stmt {
    type V = StmtV;

    open spec fn view(&self) -> StmtV {
        stmt_view(*self)
    }
}

pub open spec fn stmt_view(s: Stmt) -> StmtV
    decreases s,
{
    match s {
        Stmt::Let { name, value } => StmtV::Let(name@, value@),
        Stmt::Expression(e) => StmtV::Expression(e@),
        Stmt::Block(v) => StmtV::Block(stmt_views(v@)),
    }
}

/// The views of a sequence of statements.
pub open spec fn stmt_views(ss: Seq<Stmt>) -> Seq<StmtV>
    decreases ss,
{
    Seq::new(
        ss.len(),
        |i: int|
            if 0 <= i < ss.len() {
                stmt_view(ss[i])
            } else {
                StmtV::Block(Seq::empty())
            },
    )
}

pub proof fn lemma_stmt_views_push(ss: Seq<Stmt>, s: Stmt)
    ensures
        stmt_views(ss.push(s)) == stmt_views(ss).push(s@),
{
    assert(stmt_views(ss.push(s)) =~= stmt_views(ss).push(s@));
}

impl View for Program {
    type V = Seq<StmtV>;

    open spec fn view(&self) -> Seq<StmtV> {
        stmt_views(self.statements@)
    }
}

impl PartialEq for Expr {
    fn eq(&self, o: &Expr) -> (r: bool)
        decreases self,
    {
        match (self, o) {
            (Expr::Number(a), Expr::Number(b)) => *a == *b,
            (Expr::Identifier(a), Expr::Identifier(b)) => *a == *b,
            (
                Expr::Binary { left: l1, operator: o1, right: r1 },
                Expr::Binary { left: l2, operator: o2, right: r2 },
            ) => *o1 == *o2 && (**l1).eq(&**l2) && (**r1).eq(&**r2),
            (Expr::Unary { operator: o1, operand: e1 }, Expr::Unary { operator: o2, operand: e2 }) =>
                *o1 == *o2 && (**e1).eq(&**e2),
            (Expr::Grouping(e1), Expr::Grouping(e2)) => (**e1).eq(&**e2),
            _ => false,
        }
    }
}

impl vstd::std_specs::cmp::PartialEqSpecImpl for Expr {
    open spec fn obeys_eq_spec() -> bool {
        true
    }

    open spec fn eq_spec(&self, o: &Expr) -> bool {
        self@ == o@
    }
}

/// How tightly a binary operator binds; a higher rank binds tighter.
pub open spec fn rank(op: BinaryOp) -> u8 {
    match op {
        BinaryOp::Add | BinaryOp::Subtract => 1,
        BinaryOp::Multiply | BinaryOp::Divide => 2,
    }
}

/// The binary operator a token stands for, if any.
pub open spec fn binary_op_of(t: Lexeme) -> Option<BinaryOp> {
    match t {
        Lexeme::Plus => Some(BinaryOp::Add),
        Lexeme::Minus => Some(BinaryOp::Subtract),
        Lexeme::Multiply => Some(BinaryOp::Multiply),
        Lexeme::Divide => Some(BinaryOp::Divide),
        _ => None,
    }
}

/// The unary operator a token stands for, if any.
pub open spec fn unary_op_of(t: Lexeme) -> Option<UnaryOp> {
    match t {
        Lexeme::Minus => Some(UnaryOp::Negate),
        _ => None,
    }
}

impl Program {
    pub fn new() -> (r: Program)
        ensures
            r@ == Seq::<StmtV>::empty(),
    {
        Program { statements: Vec::new() }
    }

    pub fn add_statement(&mut self, stmt: Stmt)
        ensures
            final(self)@ == old(self)@.push(stmt@),
    {
        self.statements.push(stmt);
        assert(self@ =~= old(self)@.push(stmt@));
    }
}

impl Default for Program {
    fn default() -> (r: Program)
        ensures
            r@ == Seq::<StmtV>::empty(),
    {
        Program::new()
    }
}

impl Expr {
    pub fn number(value: i64) -> (r: Expr)
        ensures
            r@ == ExprV::Number(value),
    {
        Expr::Number(value)
    }

    pub fn identifier(name: String) -> (r: Expr)
        ensures
            r@ == ExprV::Identifier(name@),
    {
        Expr::Identifier(name)
    }

    pub fn binary(left: Expr, operator: BinaryOp, right: Expr) -> (r: Expr)
        ensures
            r@ == ExprV::Binary(Box::new(left@), operator, Box::new(right@)),
    {
        Expr::Binary { left: Box::new(left), operator, right: Box::new(right) }
    }

    pub fn unary(operator: UnaryOp, operand: Expr) -> (r: Expr)
        ensures
            r@ == ExprV::Unary(operator, Box::new(operand@)),
    {
        Expr::Unary { operator, operand: Box::new(operand) }
    }

    pub fn grouping(expr: Expr) -> (r: Expr)
        ensures
            r@ == ExprV::Grouping(Box::new(expr@)),
    {
        Expr::Grouping(Box::new(expr))
    }
}

impl BinaryOp {
    pub fn from_token(token: &Token) -> (r: Option<BinaryOp>)
        ensures
            r == binary_op_of(token@),
    {
        match token {
            Token::Plus => Some(BinaryOp::Add),
            Token::Minus => Some(BinaryOp::Subtract),
            Token::Multiply => Some(BinaryOp::Multiply),
            Token::Divide => Some(BinaryOp::Divide),
            _ => None,
        }
    }

    pub fn precedence(&self) -> (r: u8)
        ensures
            r == rank(*self),
    {
        match self {
            BinaryOp::Add | BinaryOp::Subtract => 1,
            BinaryOp::Multiply | BinaryOp::Divide => 2,
        }
    }
}

impl UnaryOp {
    pub fn from_token(token: &Token) -> (r: Option<UnaryOp>)
        ensures
            r == unary_op_of(token@),
    {
        match token {
            Token::Minus => Some(UnaryOp::Negate),
            _ => None,
        }
    }
}

impl Stmt {
    pub fn let_statement(name: String, value: Expr) -> (r: Stmt)
        ensures
            r@ == StmtV::Let(name@, value@),
    {
        Stmt::Let { name, value }
    }

    pub fn expression(expr: Expr) -> (r: Stmt)
        ensures
            r@ == StmtV::Expression(expr@),
    {
        Stmt::Expression(expr)
    }

    pub fn block(statements: Vec<Stmt>) -> (r: Stmt)
        ensures
            r@ == StmtV::Block(stmt_views(statements@)),
    {
        let r = Stmt::Block(statements);
        r
    }
}

} // verus!
