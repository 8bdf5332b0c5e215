use vstd::prelude::*;
use crate::ast::{BinaryOp, Expr, ExprV, Program, Stmt, StmtV, UnaryOp, binary_op_of, rank, stmt_views, unary_op_of};
use crate::error::{Fault, ParseError, ParseErrors};
use crate::lexer::{Lexeme, Lexer, Token, TokenKind, kind_of, lexemes, tokens_of};

verus! {

/// How deeply expressions and blocks may nest before parsing gives up with an error.
pub const MAX_DEPTH: usize = 200;

/// The token at index `i`; past the end the input reads as `EOF`.
pub open spec fn at(t: Seq<Lexeme>, i: int) -> Lexeme {
    if 0 <= i < t.len() {
        t[i]
    } else {
        Lexeme::EOF
    }
}

/// The cursor after moving past index `i`; it never moves past `EOF`.
pub open spec fn step(t: Seq<Lexeme>, i: int) -> int {
    if at(t, i) is EOF {
        i
    } else {
        i + 1
    }
}

/// How a token kind is named in an error.
pub open spec fn kind_name(k: TokenKind) -> Seq<char> {
    match k {
        TokenKind::Number => "number"@,
        TokenKind::Ident => "identifier"@,
        TokenKind::Let => "let"@,
        TokenKind::Equals => "="@,
        TokenKind::Plus => "+"@,
        TokenKind::Minus => "-"@,
        TokenKind::Multiply => "*"@,
        TokenKind::Divide => "/"@,
        TokenKind::Semicolon => ";"@,
        TokenKind::LeftParen => "("@,
        TokenKind::RightParen => ")"@,
        TokenKind::LeftBrace => "{"@,
        TokenKind::RightBrace => "}"@,
        TokenKind::EOF => "EOF"@,
        TokenKind::Illegal => "ILLEGAL"@,
    }
}

pub open spec fn too_deep(position: int) -> Fault {
    Fault::InvalidExpression { message: "expression nested too deeply"@, position }
}

pub open spec fn block_too_deep(position: int) -> Fault {
    Fault::InvalidStatement { message: "block nested too deeply"@, position }
}

/// The index an error reports for the token just moved past.
pub open spec fn last_index(j: int) -> int {
    if j > 0 {
        j - 1
    } else {
        0
    }
}

/// Requires a token of kind `k` at `i` and moves past it.
pub open spec fn expect(t: Seq<Lexeme>, i: int, k: TokenKind) -> (Result<(), Fault>, int) {
    if kind_of(at(t, i)) == k {
        (Ok(()), step(t, i))
    } else {
        (Err(Fault::UnexpectedToken { expected: seq![kind_name(k)], found: at(t, i), position: i }), i)
    }
}

pub open spec fn in_range(t: Seq<Lexeme>, i: int, d: int) -> bool {
    0 <= i <= t.len() && 0 <= d <= MAX_DEPTH
}

/// `binary(m) := unary (op unary_or_binary)*`, taking operators of rank at least `m`,
/// each with a right operand parsed at the next rank up.
pub open spec fn binary(t: Seq<Lexeme>, i: int, m: int, d: int) -> (Result<ExprV, Fault>, int)
    decreases MAX_DEPTH - d, t.len() - i, 3int,
    when in_range(t, i, d)
{
    let (r, p) = unary(t, i, d);
    match r {
        Err(e) => (Err(e), p),
        Ok(l) => if i <= p <= t.len() {
            binary_rest(t, l, p, m, d)
        } else {
            (Ok(l), p)
        },
    }
}

/// Folds operators of rank at least `m` onto the left operand `l`, the cursor at `k`.
pub open spec fn binary_rest(t: Seq<Lexeme>, l: ExprV, k: int, m: int, d: int) -> (
    Result<ExprV, Fault>,
    int,
)
    decreases MAX_DEPTH - d, t.len() - k, 2int,
    when in_range(t, k, d)
{
    match binary_op_of(at(t, k)) {
        None => (Ok(l), k),
        Some(op) => if (rank(op) as int) < m {
            (Ok(l), k)
        } else {
            let (r, p) = binary(t, k + 1, rank(op) + 1, d);
            match r {
                Err(e) => (Err(e), p),
                Ok(right) => {
                    let e = ExprV::Binary(Box::new(l), op, Box::new(right));
                    if k < p <= t.len() {
                        binary_rest(t, e, p, m, d)
                    } else {
                        (Ok(e), p)
                    }
                },
            }
        },
    }
}

/// `unary := '-' unary | primary`
pub open spec fn unary(t: Seq<Lexeme>, i: int, d: int) -> (Result<ExprV, Fault>, int)
    decreases MAX_DEPTH - d, t.len() - i, 1int,
    when in_range(t, i, d)
{
    if d >= MAX_DEPTH {
        (Err(too_deep(i)), i)
    } else {
        match unary_op_of(at(t, i)) {
            Some(op) => {
                let (r, p) = unary(t, i + 1, d + 1);
                match r {
                    Err(e) => (Err(e), p),
                    Ok(e) => (Ok(ExprV::Unary(op, Box::new(e))), p),
                }
            },
            None => primary(t, i, d),
        }
    }
}

/// `primary := NUMBER | IDENTIFIER | '(' expression ')'`; a token that cannot start
/// an expression is reported where it stands and left in place.
pub open spec fn primary(t: Seq<Lexeme>, i: int, d: int) -> (Result<ExprV, Fault>, int)
    decreases MAX_DEPTH - d, t.len() - i, 0int,
    when in_range(t, i, d) && d < MAX_DEPTH
{
    let tok = at(t, i);
    let j = step(t, i);
    match tok {
        Lexeme::Number(v) => (Ok(ExprV::Number(v)), j),
        Lexeme::Ident(s) => (Ok(ExprV::Identifier(s)), j),
        Lexeme::LeftParen => {
            let (r, p) = binary(t, j, 0, d + 1);
            match r {
                Err(e) => (Err(e), p),
                Ok(e) => {
                    let (c, q) = expect(t, p, TokenKind::RightParen);
                    match c {
                        Err(f) => (Err(f), q),
                        Ok(_) => (Ok(ExprV::Grouping(Box::new(e))), q),
                    }
                },
            }
        },
        _ => (
            Err(
                Fault::UnexpectedToken {
                    expected: seq!["number"@, "identifier"@, "'('"@],
                    found: tok,
                    position: i,
                },
            ),
            i,
        ),
    }
}

/// `statement := let_stmt | block_stmt | expr_stmt`, chosen by the first token.
pub open spec fn statement(t: Seq<Lexeme>, i: int, d: int) -> (Result<StmtV, Fault>, int)
    decreases MAX_DEPTH - d, t.len() - i, 5int,
    when in_range(t, i, d)
{
    match at(t, i) {
        Lexeme::Let => let_statement(t, i, d),
        Lexeme::LeftBrace => block_statement(t, i, d),
        _ => expression_statement(t, i, d),
    }
}

/// `let_stmt := 'let' IDENTIFIER '=' expression ';'`
pub open spec fn let_statement(t: Seq<Lexeme>, i: int, d: int) -> (Result<StmtV, Fault>, int)
    decreases MAX_DEPTH - d, t.len() - i, 4int,
    when in_range(t, i, d)
{
    let (c, p) = expect(t, i, TokenKind::Let);
    if c is Err {
        (Err(c->Err_0), p)
    } else {
        let q = step(t, p);
        match at(t, p) {
            Lexeme::Ident(name) => {
                let (eq, after_eq) = expect(t, q, TokenKind::Equals);
                if eq is Err {
                    (Err(eq->Err_0), after_eq)
                } else {
                    let (r, after_value) = binary(t, after_eq, 0, d);
                    match r {
                        Err(e) => (Err(e), after_value),
                        Ok(value) => {
                            let (semi, after_semi) = expect(t, after_value, TokenKind::Semicolon);
                            if semi is Err {
                                (Err(semi->Err_0), after_semi)
                            } else {
                                (Ok(StmtV::Let(name, value)), after_semi)
                            }
                        },
                    }
                }
            },
            tok => (
                Err(
                    Fault::UnexpectedToken {
                        expected: seq!["identifier"@],
                        found: tok,
                        position: last_index(q),
                    },
                ),
                q,
            ),
        }
    }
}

/// `block_stmt := '{' statement* '}'`
pub open spec fn block_statement(t: Seq<Lexeme>, i: int, d: int) -> (Result<StmtV, Fault>, int)
    decreases MAX_DEPTH - d, t.len() - i, 4int,
    when in_range(t, i, d)
{
    let (c, p) = expect(t, i, TokenKind::LeftBrace);
    if c is Err {
        (Err(c->Err_0), p)
    } else if d >= MAX_DEPTH {
        (Err(block_too_deep(p)), p)
    } else {
        let (r, q) = block_items(t, p, d + 1);
        match r {
            Err(e) => (Err(e), q),
            Ok(items) => {
                let (eq, q2) = expect(t, q, TokenKind::RightBrace);
                if eq is Err {
                    (Err(eq->Err_0), q2)
                } else {
                    (Ok(StmtV::Block(items)), q2)
                }
            },
        }
    }
}

/// The statements of a block body, up to a `}` or the end of input.
pub open spec fn block_items(t: Seq<Lexeme>, j: int, d: int) -> (Result<Seq<StmtV>, Fault>, int)
    decreases MAX_DEPTH - d, t.len() - j, 6int,
    when in_range(t, j, d)
{
    if at(t, j) is RightBrace || at(t, j) is EOF {
        (Ok(Seq::empty()), j)
    } else {
        let (r, p) = statement(t, j, d);
        match r {
            Err(e) => (Err(e), p),
            Ok(s) => if j < p <= t.len() {
                prepend(s, block_items(t, p, d))
            } else {
                (Ok(seq![s]), p)
            },
        }
    }
}

pub open spec fn prepend(s: StmtV, r: (Result<Seq<StmtV>, Fault>, int)) -> (
    Result<Seq<StmtV>, Fault>,
    int,
) {
    match r.0 {
        Ok(ss) => (Ok(seq![s] + ss), r.1),
        Err(e) => (Err(e), r.1),
    }
}

/// Puts `pre` in front of the statements of a successful result.
pub open spec fn prepend_all(pre: Seq<StmtV>, r: (Result<Seq<StmtV>, Fault>, int)) -> (
    Result<Seq<StmtV>, Fault>,
    int,
) {
    match r.0 {
        Ok(ss) => (Ok(pre + ss), r.1),
        Err(e) => (Err(e), r.1),
    }
}

/// `expr_stmt := expression ';'`
pub open spec fn expression_statement(t: Seq<Lexeme>, i: int, d: int) -> (
    Result<StmtV, Fault>,
    int,
)
    decreases MAX_DEPTH - d, t.len() - i, 4int,
    when in_range(t, i, d)
{
    let (r, p) = binary(t, i, 0, d);
    match r {
        Err(e) => (Err(e), p),
        Ok(e) => {
            let (c, q) = expect(t, p, TokenKind::Semicolon);
            if c is Err {
                (Err(c->Err_0), q)
            } else {
                (Ok(StmtV::Expression(e)), q)
            }
        },
    }
}

/// Skips tokens from `q` on until just after a `;`, or up to a `let` or `{`, or the end.
pub open spec fn skip_to_boundary(t: Seq<Lexeme>, q: int) -> int
    decreases t.len() - q,
    when 0 <= q <= t.len()
{
    if at(t, q) is EOF {
        q
    } else if q > 0 && t[q - 1] is Semicolon {
        q
    } else if at(t, q) is Let || at(t, q) is LeftBrace {
        q
    } else {
        skip_to_boundary(t, q + 1)
    }
}

/// Recovery after a failed statement that stopped at `p`: move at least one token,
/// then on to the next statement boundary.
pub open spec fn recover(t: Seq<Lexeme>, p: int) -> int {
    skip_to_boundary(t, step(t, p))
}

/// The statements parsed and the errors met from index `i` to the end.
pub open spec fn program_from(t: Seq<Lexeme>, i: int) -> (Seq<StmtV>, Seq<Fault>)
    decreases t.len() - i,
    when 0 <= i <= t.len()
{
    if at(t, i) is EOF {
        (Seq::empty(), Seq::empty())
    } else {
        let (r, p) = statement(t, i, 0);
        let n = match r {
            Ok(_) => p,
            Err(_) => recover(t, p),
        };
        let rest = if i < n <= t.len() {
            program_from(t, n)
        } else {
            (Seq::empty(), Seq::empty())
        };
        match r {
            Ok(s) => (seq![s] + rest.0, rest.1),
            Err(e) => (rest.0, seq![e] + rest.1),
        }
    }
}

/// The view of a whole parse: the program, or every error found.
pub open spec fn program_outcome(r: Result<Program, ParseErrors>) -> Result<Seq<StmtV>, Seq<Fault>> {
    match r {
        Ok(p) => Ok(p@),
        Err(e) => Err(e@),
    }
}

/// The outcome of parsing from index `i`: every statement, or else every error.
pub open spec fn outcome_from(t: Seq<Lexeme>, i: int) -> Result<Seq<StmtV>, Seq<Fault>> {
    let (ss, es) = program_from(t, i);
    if es.len() == 0 {
        Ok(ss)
    } else {
        Err(es)
    }
}

/// The outcome of parsing a token sequence: every statement, or else every error.
pub open spec fn parse_outcome(t: Seq<Lexeme>) -> Result<Seq<StmtV>, Seq<Fault>> {
    outcome_from(t, 0)
}

/// The view of a parse step's result.
pub open spec fn outcome<T: View>(r: Result<T, ParseError>) -> Result<T::V, Fault> {
    match r {
        Ok(x) => Ok(x@),
        Err(e) => Err(e@),
    }
}

/// How a token kind is named in an error.
pub fn kind_label(k: TokenKind) -> (r: &'static str)
    ensures
        r@ == kind_name(k),
{
    match k {
        TokenKind::Number => "number",
        TokenKind::Ident => "identifier",
        TokenKind::Let => "let",
        TokenKind::Equals => "=",
        TokenKind::Plus => "+",
        TokenKind::Minus => "-",
        TokenKind::Multiply => "*",
        TokenKind::Divide => "/",
        TokenKind::Semicolon => ";",
        TokenKind::LeftParen => "(",
        TokenKind::RightParen => ")",
        TokenKind::LeftBrace => "{",
        TokenKind::RightBrace => "}",
        TokenKind::EOF => "EOF",
        TokenKind::Illegal => "ILLEGAL",
    }
}

/// A recursive-descent parser with a forward-only cursor over a token sequence.
pub struct Parser {
    tokens: Vec<Token>,
    current: usize,
}

impl Parser {
    /// The tokens being parsed.
    pub closed spec fn toks(&self) -> Seq<Lexeme> {
        lexemes(self.tokens@)
    }

    /// The index of the current token.
    pub closed spec fn cur(&self) -> int {
        self.current as int
    }

    pub closed spec fn wf(&self) -> bool {
        self.current <= self.tokens@.len()
    }

    pub proof fn lemma_wf(&self)
        requires
            self.wf(),
        ensures
            0 <= self.cur() <= self.toks().len(),
    {
    }

    pub fn new(tokens: Vec<Token>) -> (r: Parser)
        ensures
            r.wf(),
            r.toks() == lexemes(tokens@),
            r.cur() == 0,
    {
        Parser { tokens, current: 0 }
    }

    pub fn from_source(source: &str) -> (r: Parser)
        ensures
            r.wf(),
            r.toks() == tokens_of(source@),
            r.cur() == 0,
    {
        let mut lexer = Lexer::new(source);
        let tokens = lexer.tokenize();
        Parser::new(tokens)
    }

    /// The current token, without advancing.
    fn peek(&self) -> (r: &Token)
        requires
            self.wf(),
        ensures
            r@ == at(self.toks(), self.cur()),
    {
        if self.current < self.tokens.len() {
            &self.tokens[self.current]
        } else {
            &Token::EOF
        }
    }

    /// The token just moved past.
    fn previous(&self) -> (r: &Token)
        requires
            self.wf(),
        ensures
            r@ == if self.cur() > 0 {
                self.toks()[self.cur() - 1]
            } else {
                Lexeme::EOF
            },
    {
        if self.current > 0 {
            &self.tokens[self.current - 1]
        } else {
            &Token::EOF
        }
    }

    fn is_at_end(&self) -> (r: bool)
        requires
            self.wf(),
        ensures
            r == (at(self.toks(), self.cur()) is EOF),
    {
        self.peek().kind() == TokenKind::EOF
    }

    /// Moves to the next token, unless at the end.
    fn advance(&mut self)
        requires
            old(self).wf(),
        ensures
            final(self).wf(),
            final(self).toks() == old(self).toks(),
            final(self).cur() == step(old(self).toks(), old(self).cur()),
    {
        let n = self.tokens.len();
        if !self.is_at_end() {
            assert(self.current < n);
            self.current = self.current + 1;
        }
    }

    /// Moves past a token of kind `expected`, or reports what was found instead.
    fn consume(&mut self, expected: TokenKind) -> (r: Result<(), ParseError>)
        requires
            old(self).wf(),
        ensures
            final(self).wf(),
            final(self).toks() == old(self).toks(),
            (outcome(r), final(self).cur()) == expect(old(self).toks(), old(self).cur(), expected),
    {
        if self.peek().kind() == expected {
            self.advance();
            Ok(())
        } else {
            let label = kind_label(expected);
            let labels = vec![label];
            assert(crate::error::str_texts(labels@) =~= seq![kind_name(expected)]);
            Err(ParseError::unexpected_token(labels, self.peek().duplicate(), self.current))
        }
    }

    /// The index reported for the token just moved past.
    fn last_position(&self) -> (r: usize)
        ensures
            r == last_index(self.cur()),
    {
        if self.current > 0 {
            self.current - 1
        } else {
            0
        }
    }

    /// `expression := binary(0)`
    fn expression(&mut self, depth: usize) -> (r: Result<Expr, ParseError>)
        requires
            old(self).wf(),
            depth <= MAX_DEPTH,
        ensures
            final(self).wf(),
            final(self).toks() == old(self).toks(),
            (outcome(r), final(self).cur()) == binary(
                old(self).toks(),
                old(self).cur(),
                0,
                depth as int,
            ),
            old(self).cur() <= final(self).cur(),
            r is Ok ==> old(self).cur() < final(self).cur(),
        decreases MAX_DEPTH - depth, old(self).toks().len() - old(self).cur(), 3int,
    {
        proof {
            old(self).lemma_wf();
        }
        self.binary_expression(0, depth)
    }

    /// Precedence climbing: operands at the unary level, joined by operators of rank
    /// at least `min_precedence`, folded to the left.
    fn binary_expression(&mut self, min_precedence: u8, depth: usize) -> (r: Result<Expr, ParseError>)
        requires
            old(self).wf(),
            depth <= MAX_DEPTH,
        ensures
            final(self).wf(),
            final(self).toks() == old(self).toks(),
            (outcome(r), final(self).cur()) == binary(
                old(self).toks(),
                old(self).cur(),
                min_precedence as int,
                depth as int,
            ),
            old(self).cur() <= final(self).cur(),
            r is Ok ==> old(self).cur() < final(self).cur(),
        decreases MAX_DEPTH - depth, old(self).toks().len() - old(self).cur(), 2int,
    {
        let ghost t = self.toks();
        let ghost i = self.cur();
        let ghost m = min_precedence as int;
        let ghost d = depth as int;
        proof {
            self.lemma_wf();
        }
        let mut left = match self.unary_expression(depth) {
            Ok(e) => e,
            Err(e) => {
                return Err(e);
            },
        };
        proof {
            self.lemma_wf();
        }
        loop
            invariant
                self.wf(),
                self.toks() == t,
                t == old(self).toks(),
                i == old(self).cur(),
                m == min_precedence as int,
                d == depth as int,
                d <= MAX_DEPTH,
                0 <= i < self.cur() <= t.len(),
                binary_rest(t, left@, self.cur(), m, d) == binary(t, i, m, d),
            ensures
                binary_rest(t, left@, self.cur(), m, d) == (Ok::<ExprV, Fault>(left@), self.cur()),
            decreases t.len() - self.cur(),
        {
            let op = match BinaryOp::from_token(self.peek()) {
                Some(op) => op,
                None => {
                    break ;
                },
            };
            if op.precedence() < min_precedence {
                break ;
            }
            let ghost k = self.cur();
            self.advance();
            let right = match self.binary_expression(op.precedence() + 1, depth) {
                Ok(e) => e,
                Err(e) => {
                    return Err(e);
                },
            };
            proof {
                self.lemma_wf();
            }
            left = Expr::binary(left, op, right);
            assert(k < self.cur());
        }
        Ok(left)
    }

    /// `unary := '-' unary | primary`
    fn unary_expression(&mut self, depth: usize) -> (r: Result<Expr, ParseError>)
        requires
            old(self).wf(),
            depth <= MAX_DEPTH,
        ensures
            final(self).wf(),
            final(self).toks() == old(self).toks(),
            (outcome(r), final(self).cur()) == unary(old(self).toks(), old(self).cur(), depth as int),
            old(self).cur() <= final(self).cur(),
            r is Ok ==> old(self).cur() < final(self).cur(),
        decreases MAX_DEPTH - depth, old(self).toks().len() - old(self).cur(), 1int,
    {
        proof {
            self.lemma_wf();
        }
        if depth >= MAX_DEPTH {
            return Err(ParseError::invalid_expression("expression nested too deeply", self.current));
        }
        match UnaryOp::from_token(self.peek()) {
            Some(op) => {
                self.advance();
                match self.unary_expression(depth + 1) {
                    Ok(operand) => Ok(Expr::unary(op, operand)),
                    Err(e) => Err(e),
                }
            },
            None => self.primary_expression(depth),
        }
    }

    /// `primary := NUMBER | IDENTIFIER | '(' expression ')'`
    fn primary_expression(&mut self, depth: usize) -> (r: Result<Expr, ParseError>)
        requires
            old(self).wf(),
            depth < MAX_DEPTH,
        ensures
            final(self).wf(),
            final(self).toks() == old(self).toks(),
            (outcome(r), final(self).cur()) == primary(old(self).toks(), old(self).cur(), depth as int),
            old(self).cur() <= final(self).cur(),
            r is Ok ==> old(self).cur() < final(self).cur(),
        decreases MAX_DEPTH - depth, old(self).toks().len() - old(self).cur(), 0int,
    {
        proof {
            self.lemma_wf();
        }
        let token = self.peek().duplicate();
        match token {
            Token::Number(value) => {
                self.advance();
                Ok(Expr::number(value))
            },
            Token::Ident(name) => {
                self.advance();
                Ok(Expr::identifier(name))
            },
            Token::LeftParen => {
                self.advance();
                let expr = match self.expression(depth + 1) {
                    Ok(e) => e,
                    Err(e) => {
                        return Err(e);
                    },
                };
                match self.consume(TokenKind::RightParen) {
                    Ok(()) => Ok(Expr::grouping(expr)),
                    Err(e) => Err(e),
                }
            },
            token => {
                let expected = vec!["number", "identifier", "'('"];
                assert(crate::error::str_texts(expected@) =~= seq![
                    "number"@,
                    "identifier"@,
                    "'('"@,
                ]);
                Err(ParseError::unexpected_token(expected, token, self.current))
            },
        }
    }

    /// `statement := let_stmt | block_stmt | expr_stmt`
    fn statement(&mut self, depth: usize) -> (r: Result<Stmt, ParseError>)
        requires
            old(self).wf(),
            depth <= MAX_DEPTH,
        ensures
            final(self).wf(),
            final(self).toks() == old(self).toks(),
            (outcome(r), final(self).cur()) == statement(old(self).toks(), old(self).cur(), depth as int),
            old(self).cur() <= final(self).cur(),
            r is Ok ==> old(self).cur() < final(self).cur(),
        decreases MAX_DEPTH - depth, old(self).toks().len() - old(self).cur(), 5int,
    {
        proof {
            self.lemma_wf();
        }
        match self.peek().kind() {
            TokenKind::Let => self.let_statement(depth),
            TokenKind::LeftBrace => self.block_statement(depth),
            _ => self.expression_statement(depth),
        }
    }

    /// `let_stmt := 'let' IDENTIFIER '=' expression ';'`
    fn let_statement(&mut self, depth: usize) -> (r: Result<Stmt, ParseError>)
        requires
            old(self).wf(),
            depth <= MAX_DEPTH,
        ensures
            final(self).wf(),
            final(self).toks() == old(self).toks(),
            (outcome(r), final(self).cur()) == let_statement(old(self).toks(), old(self).cur(), depth as int),
            old(self).cur() <= final(self).cur(),
            r is Ok ==> old(self).cur() < final(self).cur(),
        decreases MAX_DEPTH - depth, old(self).toks().len() - old(self).cur(), 4int,
    {
        proof {
            self.lemma_wf();
        }
        match self.consume(TokenKind::Let) {
            Ok(()) => {},
            Err(e) => {
                return Err(e);
            },
        }
        let token = self.peek().duplicate();
        self.advance();
        let name = match token {
            Token::Ident(name) => name,
            token => {
                let expected = vec!["identifier"];
                assert(crate::error::str_texts(expected@) =~= seq!["identifier"@]);
                return Err(ParseError::unexpected_token(expected, token, self.last_position()));
            },
        };
        match self.consume(TokenKind::Equals) {
            Ok(()) => {},
            Err(e) => {
                return Err(e);
            },
        }
        proof {
            self.lemma_wf();
        }
        let value = match self.expression(depth) {
            Ok(v) => v,
            Err(e) => {
                return Err(e);
            },
        };
        match self.consume(TokenKind::Semicolon) {
            Ok(()) => Ok(Stmt::let_statement(name, value)),
            Err(e) => Err(e),
        }
    }

    /// `block_stmt := '{' statement* '}'`
    fn block_statement(&mut self, depth: usize) -> (r: Result<Stmt, ParseError>)
        requires
            old(self).wf(),
            depth <= MAX_DEPTH,
        ensures
            final(self).wf(),
            final(self).toks() == old(self).toks(),
            (outcome(r), final(self).cur()) == block_statement(
                old(self).toks(),
                old(self).cur(),
                depth as int,
            ),
            old(self).cur() <= final(self).cur(),
            r is Ok ==> old(self).cur() < final(self).cur(),
        decreases MAX_DEPTH - depth, old(self).toks().len() - old(self).cur(), 4int,
    {
        let ghost t = self.toks();
        proof {
            self.lemma_wf();
        }
        match self.consume(TokenKind::LeftBrace) {
            Ok(()) => {},
            Err(e) => {
                return Err(e);
            },
        }
        if depth >= MAX_DEPTH {
            return Err(ParseError::invalid_statement("block nested too deeply", self.current));
        }
        proof {
            self.lemma_wf();
        }
        let ghost body_start = self.cur();
        let ghost d = depth + 1;
        let mut statements: Vec<Stmt> = Vec::new();
        assert(stmt_views(statements@) =~= Seq::<StmtV>::empty());
        assert(prepend_all(stmt_views(statements@), block_items(t, body_start, d)) =~= block_items(t, body_start, d));
        loop
            invariant
                self.wf(),
                self.toks() == t,
                t == old(self).toks(),
                d == depth + 1,
                d <= MAX_DEPTH,
                expect(t, old(self).cur(), TokenKind::LeftBrace) == (Ok::<(), Fault>(()), body_start),
                old(self).cur() < body_start <= self.cur() <= t.len(),
                prepend_all(stmt_views(statements@), block_items(t, self.cur(), d)) == block_items(t, body_start, d),
            ensures
                block_items(t, body_start, d) == (Ok::<Seq<StmtV>, Fault>(stmt_views(statements@)), self.cur()),
            decreases t.len() - self.cur(),
        {
            let kind = self.peek().kind();
            if kind == TokenKind::RightBrace || kind == TokenKind::EOF {
                assert(stmt_views(statements@) + Seq::<StmtV>::empty() =~= stmt_views(statements@));
                break ;
            }
            let ghost c = self.cur();
            let ghost pre = stmt_views(statements@);
            match self.statement(depth + 1) {
                Ok(stmt) => {
                    proof {
                        self.lemma_wf();
                        crate::ast::lemma_stmt_views_push(statements@, stmt);
                    }
                    let ghost rest = block_items(t, self.cur(), d);
                    assert(block_items(t, c, d) == prepend(stmt@, rest));
                    proof {
                        if rest.0 is Ok {
                            let ss = rest.0->Ok_0;
                            assert(pre + (seq![stmt@] + ss) =~= pre.push(stmt@) + ss);
                        }
                    }
                    statements.push(stmt);
                },
                Err(e) => {
                    assert(block_items(t, c, d) == (Err::<Seq<StmtV>, Fault>(e@), self.cur()));
                    assert(block_items(t, body_start, d) == (Err::<Seq<StmtV>, Fault>(e@), self.cur()));
                    return Err(e);
                },
            }
        }
        match self.consume(TokenKind::RightBrace) {
            Ok(()) => Ok(Stmt::block(statements)),
            Err(e) => Err(e),
        }
    }

    /// `expr_stmt := expression ';'`
    fn expression_statement(&mut self, depth: usize) -> (r: Result<Stmt, ParseError>)
        requires
            old(self).wf(),
            depth <= MAX_DEPTH,
        ensures
            final(self).wf(),
            final(self).toks() == old(self).toks(),
            (outcome(r), final(self).cur()) == expression_statement(
                old(self).toks(),
                old(self).cur(),
                depth as int,
            ),
            old(self).cur() <= final(self).cur(),
            r is Ok ==> old(self).cur() < final(self).cur(),
        decreases MAX_DEPTH - depth, old(self).toks().len() - old(self).cur(), 4int,
    {
        proof {
            self.lemma_wf();
        }
        let expr = match self.expression(depth) {
            Ok(e) => e,
            Err(e) => {
                return Err(e);
            },
        };
        match self.consume(TokenKind::Semicolon) {
            Ok(()) => Ok(Stmt::expression(expr)),
            Err(e) => Err(e),
        }
    }

    /// After a failed statement: moves at least one token, then on to the next
    /// statement boundary.
    fn synchronize(&mut self)
        requires
            old(self).wf(),
        ensures
            final(self).wf(),
            final(self).toks() == old(self).toks(),
            final(self).cur() == recover(old(self).toks(), old(self).cur()),
            old(self).cur() <= final(self).cur(),
            !(at(old(self).toks(), old(self).cur()) is EOF) ==> old(self).cur() < final(self).cur(),
    {
        let ghost t = self.toks();
        let ghost i = self.cur();
        proof {
            self.lemma_wf();
        }
        self.advance();
        proof {
            self.lemma_wf();
        }
        loop
            invariant
                self.wf(),
                self.toks() == t,
                t == old(self).toks(),
                i == old(self).cur(),
                step(t, i) <= self.cur() <= t.len(),
                skip_to_boundary(t, self.cur()) == recover(t, i),
            ensures
                self.cur() == recover(t, i),
            decreases t.len() - self.cur(),
        {
            if self.is_at_end() {
                break ;
            }
            if self.previous().kind() == TokenKind::Semicolon {
                break ;
            }
            let kind = self.peek().kind();
            if kind == TokenKind::Let || kind == TokenKind::LeftBrace {
                break ;
            }
            self.advance();
            proof {
                self.lemma_wf();
            }
        }
    }

    /// Parses statements up to the end of input, recovering after each failed one.
    /// The program comes back only when no statement failed; otherwise every error does.
    pub fn parse(&mut self) -> (r: Result<Program, ParseErrors>)
        requires
            old(self).wf(),
        ensures
            final(self).wf(),
            final(self).toks() == old(self).toks(),
            program_outcome(r) == outcome_from(old(self).toks(), old(self).cur()),
    {
        let ghost t = self.toks();
        let ghost i0 = self.cur();
        proof {
            self.lemma_wf();
        }
        let mut program = Program::new();
        let mut errors = ParseErrors::new();
        assert(program@ + program_from(t, i0).0 =~= program_from(t, i0).0);
        assert(errors@ + program_from(t, i0).1 =~= program_from(t, i0).1);
        while !self.is_at_end()
            invariant
                self.wf(),
                self.toks() == t,
                t == old(self).toks(),
                i0 == old(self).cur(),
                0 <= i0 <= self.cur() <= t.len(),
                program@ + program_from(t, self.cur()).0 == program_from(t, i0).0,
                errors@ + program_from(t, self.cur()).1 == program_from(t, i0).1,
            decreases t.len() - self.cur(),
        {
            let ghost c = self.cur();
            let ghost pre_s = program@;
            let ghost pre_e = errors@;
            match self.statement(0) {
                Ok(stmt) => {
                    proof {
                        self.lemma_wf();
                    }
                    let ghost rest = program_from(t, self.cur());
                    assert(program_from(t, c) == (seq![stmt@] + rest.0, rest.1));
                    program.add_statement(stmt);
                    assert(pre_s + (seq![stmt@] + rest.0) =~= program@ + rest.0);
                },
                Err(error) => {
                    let ghost p = self.cur();
                    let ghost f = error@;
                    errors.add(error);
                    self.synchronize();
                    proof {
                        self.lemma_wf();
                    }
                    let ghost rest = program_from(t, self.cur());
                    assert(program_from(t, c) == (rest.0, seq![f] + rest.1));
                    assert(pre_e + (seq![f] + rest.1) =~= errors@ + rest.1);
                },
            }
        }
        assert(program@ + Seq::<StmtV>::empty() =~= program@);
        assert(errors@ + Seq::<Fault>::empty() =~= errors@);
        if errors.is_empty() {
            Ok(program)
        } else {
            Err(errors)
        }
    }

    /// The index of the current token.
    pub fn position(&self) -> (r: usize)
        ensures
            r == self.cur(),
    {
        self.current
    }

    /// Moves the cursor back to the first token.
    pub fn reset(&mut self)
        requires
            old(self).wf(),
        ensures
            final(self).wf(),
            final(self).toks() == old(self).toks(),
            final(self).cur() == 0,
    {
        self.current = 0;
    }
}

/// Parses source text: it is scanned into tokens, which are then parsed.
pub fn parse_source(source: &str) -> (r: Result<Program, ParseErrors>)
    ensures
        program_outcome(r) == parse_outcome(tokens_of(source@)),
{
    let mut parser = Parser::from_source(source);
    parser.parse()
}

/// Parses a sequence of tokens.
pub fn parse_tokens(tokens: Vec<Token>) -> (r: Result<Program, ParseErrors>)
    ensures
        program_outcome(r) == parse_outcome(lexemes(tokens@)),
{
    let mut parser = Parser::new(tokens);
    parser.parse()
}

/// Parses source text in one step.
pub fn compile(source: &str) -> (r: Result<Program, ParseErrors>)
    ensures
        program_outcome(r) == parse_outcome(tokens_of(source@)),
{
    parse_source(source)
}

} // verus!
