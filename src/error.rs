use vstd::prelude::*;
use crate::lexer::{Lexeme, Token};

verus! {

#[derive(Debug)]
pub enum ParseError {
    UnexpectedToken { expected: Vec<String>, found: Token, position: usize },
    UnexpectedEndOfInput { expected: Vec<String> },
    InvalidExpression { message: String, position: usize },
    InvalidStatement { message: String, position: usize },
    MissingExpression { context: String, position: usize },
    MissingSemicolon { position: usize },
    InvalidOperator { operator: Token, position: usize },
}

/// The mathematical value of a parse error.
pub enum Fault {
    UnexpectedToken { expected: Seq<Seq<char>>, found: Lexeme, position: int },
    UnexpectedEndOfInput { expected: Seq<Seq<char>> },
    InvalidExpression { message: Seq<char>, position: int },
    InvalidStatement { message: Seq<char>, position: int },
    MissingExpression { context: Seq<char>, position: int },
    MissingSemicolon { position: int },
    InvalidOperator { operator: Lexeme, position: int },
}

pub open spec fn texts(v: Seq<String>) -> Seq<Seq<char>> {
    v.map_values(|s: String| s@)
}

pub open spec fn str_texts(v: Seq<&str>) -> Seq<Seq<char>> {
    v.map_values(|s: &str| s@)
}

impl View for ParseError {
    type V = Fault;

    open spec fn view(&self) -> Fault {
        match self {
            ParseError::UnexpectedToken { expected, found, position } => Fault::UnexpectedToken {
                expected: texts(expected@),
                found: found@,
                position: *position as int,
            },
            ParseError::UnexpectedEndOfInput { expected } => Fault::UnexpectedEndOfInput {
                expected: texts(expected@),
            },
            ParseError::InvalidExpression { message, position } => Fault::InvalidExpression {
                message: message@,
                position: *position as int,
            },
            ParseError::InvalidStatement { message, position } => Fault::InvalidStatement {
                message: message@,
                position: *position as int,
            },
            ParseError::MissingExpression { context, position } => Fault::MissingExpression {
                context: context@,
                position: *position as int,
            },
            ParseError::MissingSemicolon { position } => Fault::MissingSemicolon {
                position: *position as int,
            },
            ParseError::InvalidOperator { operator, position } => Fault::InvalidOperator {
                operator: operator@,
                position: *position as int,
            },
        }
    }
}

pub open spec fn fault_position(f: Fault) -> Option<int> {
    match f {
        Fault::UnexpectedToken { position, .. } => Some(position),
        Fault::UnexpectedEndOfInput { .. } => None,
        Fault::InvalidExpression { position, .. } => Some(position),
        Fault::InvalidStatement { position, .. } => Some(position),
        Fault::MissingExpression { position, .. } => Some(position),
        Fault::MissingSemicolon { position } => Some(position),
        Fault::InvalidOperator { position, .. } => Some(position),
    }
}

/// Owned copies of string slices.
fn owned_texts(items: Vec<&str>) -> (r: Vec<String>)
    ensures
        texts(r@) == str_texts(items@),
{
    let mut r: Vec<String> = Vec::new();
    let mut i: usize = 0;
    while i < items.len()
        invariant
            i <= items@.len(),
            r@.len() == i,
            texts(r@) == str_texts(items@.subrange(0, i as int)),
        decreases items@.len() - i,
    {
        let ghost before = r@;
        let item: &str = items[i];
        let owned = String::from_str(item);
        assert(owned@ == items@[i as int]@);
        r.push(owned);
        assert(r@ == before.push(owned));
        i = i + 1;
        assert forall|k: int| 0 <= k < i implies texts(r@)[k] == str_texts(
            items@.subrange(0, i as int),
        )[k] by {
            if k < i - 1 {
                assert(texts(before)[k] == str_texts(items@.subrange(0, i - 1))[k]);
            }
        }
        assert(texts(r@) =~= str_texts(items@.subrange(0, i as int)));
    }
    assert(items@.subrange(0, i as int) =~= items@);
    r
}

impl ParseError {
    pub fn unexpected_token(expected: Vec<&str>, found: Token, position: usize) -> (r: ParseError)
        ensures
            r@ == (Fault::UnexpectedToken {
                expected: str_texts(expected@),
                found: found@,
                position: position as int,
            }),
    {
        ParseError::UnexpectedToken { expected: owned_texts(expected), found, position }
    }

    pub fn unexpected_eof(expected: Vec<&str>) -> (r: ParseError)
        ensures
            r@ == (Fault::UnexpectedEndOfInput { expected: str_texts(expected@) }),
    {
        ParseError::UnexpectedEndOfInput { expected: owned_texts(expected) }
    }

    pub fn invalid_expression(message: &str, position: usize) -> (r: ParseError)
        ensures
            r@ == (Fault::InvalidExpression { message: message@, position: position as int }),
    {
        ParseError::InvalidExpression { message: String::from_str(message), position }
    }

    pub fn invalid_statement(message: &str, position: usize) -> (r: ParseError)
        ensures
            r@ == (Fault::InvalidStatement { message: message@, position: position as int }),
    {
        ParseError::InvalidStatement { message: String::from_str(message), position }
    }

    pub fn missing_expression(context: &str, position: usize) -> (r: ParseError)
        ensures
            r@ == (Fault::MissingExpression { context: context@, position: position as int }),
    {
        ParseError::MissingExpression { context: String::from_str(context), position }
    }

    pub fn missing_semicolon(position: usize) -> (r: ParseError)
        ensures
            r@ == (Fault::MissingSemicolon { position: position as int }),
    {
        ParseError::MissingSemicolon { position }
    }

    pub fn invalid_operator(operator: Token, position: usize) -> (r: ParseError)
        ensures
            r@ == (Fault::InvalidOperator { operator: operator@, position: position as int }),
    {
        ParseError::InvalidOperator { operator, position }
    }

    /// The token index the error points at; the end of input has none.
    pub fn position(&self) -> (r: Option<usize>)
        ensures
            match r {
                Some(p) => fault_position(self@) == Some(p as int),
                None => fault_position(self@) is None,
            },
    {
        match self {
            ParseError::UnexpectedToken { position, .. } => Some(*position),
            ParseError::InvalidExpression { position, .. } => Some(*position),
            ParseError::InvalidStatement { position, .. } => Some(*position),
            ParseError::MissingExpression { position, .. } => Some(*position),
            ParseError::MissingSemicolon { position } => Some(*position),
            ParseError::InvalidOperator { position, .. } => Some(*position),
            ParseError::UnexpectedEndOfInput { .. } => None,
        }
    }
}

/// The result of one grammar rule.
pub type ParseResult<T> = Result<T, ParseError>;

pub open spec fn fault_views(v: Seq<ParseError>) -> Seq<Fault> {
    v.map_values(|e: ParseError| e@)
}

/// All errors of one parse, in the order they were found.
#[derive(Debug)]
pub struct ParseErrors {
    pub errors: Vec<ParseError>,
}

impl View for ParseErrors {
    type V = Seq<Fault>;

    open spec fn view(&self) -> Seq<Fault> {
        fault_views(self.errors@)
    }
}

impl ParseErrors {
    pub fn new() -> (r: ParseErrors)
        ensures
            r@ == Seq::<Fault>::empty(),
    {
        ParseErrors { errors: Vec::new() }
    }

    pub fn add(&mut self, error: ParseError)
        ensures
            final(self)@ == old(self)@.push(error@),
    {
        self.errors.push(error);
        assert(self@ =~= old(self)@.push(error@));
    }

    pub fn is_empty(&self) -> (r: bool)
        ensures
            r == (self@.len() == 0),
    {
        self.errors.len() == 0
    }

    pub fn len(&self) -> (r: usize)
        ensures
            r == self@.len(),
    {
        self.errors.len()
    }

    pub fn first(&self) -> (r: Option<&ParseError>)
        ensures
            match r {
                Some(e) => self@.len() > 0 && e@ == self@[0],
                None => self@.len() == 0,
            },
    {
        if self.errors.len() == 0 {
            None
        } else {
            Some(&self.errors[0])
        }
    }
}

impl Default for ParseErrors {
    fn default() -> (r: ParseErrors)
        ensures
            r@ == Seq::<Fault>::empty(),
    {
        ParseErrors::new()
    }
}

} // verus!
