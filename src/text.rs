use vstd::prelude::*;
use vstd::string::StringExecFns;
use crate::error::{Fault, ParseError, ParseErrors};
use crate::lexer::{Lexeme, Token, push_char};

verus! {

pub open spec fn digit_char(d: int) -> char {
    if d == 0 {
        '0'
    } else if d == 1 {
        '1'
    } else if d == 2 {
        '2'
    } else if d == 3 {
        '3'
    } else if d == 4 {
        '4'
    } else if d == 5 {
        '5'
    } else if d == 6 {
        '6'
    } else if d == 7 {
        '7'
    } else if d == 8 {
        '8'
    } else {
        '9'
    }
}

/// The base-10 digits of `n`.
pub open spec fn decimal(n: nat) -> Seq<char>
    decreases n,
{
    if n < 10 {
        seq![digit_char(n as int)]
    } else {
        decimal(n / 10).push(digit_char((n % 10) as int))
    }
}

/// An integer written in base 10, with a leading `-` when negative.
pub open spec fn int_text(v: int) -> Seq<char> {
    if v < 0 {
        seq!['-'] + decimal((-v) as nat)
    } else {
        decimal(v as nat)
    }
}

/// How a token is written in a message.
pub open spec fn token_text(t: Lexeme) -> Seq<char> {
    match t {
        Lexeme::Number(n) => int_text(n as int),
        Lexeme::Ident(s) => s,
        Lexeme::Let => "let"@,
        Lexeme::Equals => "="@,
        Lexeme::Plus => "+"@,
        Lexeme::Minus => "-"@,
        Lexeme::Multiply => "*"@,
        Lexeme::Divide => "/"@,
        Lexeme::Semicolon => ";"@,
        Lexeme::LeftParen => "("@,
        Lexeme::RightParen => ")"@,
        Lexeme::LeftBrace => "{"@,
        Lexeme::RightBrace => "}"@,
        Lexeme::EOF => "EOF"@,
        Lexeme::Illegal(c) => "ILLEGAL("@ + seq![c] + ")"@,
    }
}

/// The items joined with `", "` between them.
pub open spec fn joined(v: Seq<Seq<char>>) -> Seq<char>
    decreases v.len(),
{
    if v.len() == 0 {
        Seq::empty()
    } else if v.len() == 1 {
        v[0]
    } else {
        joined(v.drop_last()) + ", "@ + v.last()
    }
}

pub open spec fn at_position(p: int) -> Seq<char> {
    "Parse error at position "@ + decimal(p as nat) + ": "@
}

/// The message of one error.
pub open spec fn fault_text(f: Fault) -> Seq<char> {
    match f {
        Fault::UnexpectedToken { expected, found, position } => if expected.len() == 1 {
            at_position(position) + "expected '"@ + expected[0] + "', found '"@ + token_text(found)
                + "'"@
        } else if expected.len() == 2 {
            at_position(position) + "expected '"@ + expected[0] + "' or '"@ + expected[1]
                + "', found '"@ + token_text(found) + "'"@
        } else {
            at_position(position) + "expected one of ["@ + joined(expected) + "], found '"@
                + token_text(found) + "'"@
        },
        Fault::UnexpectedEndOfInput { expected } => if expected.len() == 1 {
            "Parse error: unexpected end of input, expected '"@ + expected[0] + "'"@
        } else {
            "Parse error: unexpected end of input, expected one of ["@ + joined(expected) + "]"@
        },
        Fault::InvalidExpression { message, position } => at_position(position) + message,
        Fault::InvalidStatement { message, position } => at_position(position) + message,
        Fault::MissingExpression { context, position } => at_position(position)
            + "missing expression in "@ + context,
        Fault::MissingSemicolon { position } => at_position(position) + "missing semicolon"@,
        Fault::InvalidOperator { operator, position } => at_position(position)
            + "invalid operator '"@ + token_text(operator) + "'"@,
    }
}

/// Lines `  k: message` for the errors of `fs`, numbered from 1.
pub open spec fn numbered(fs: Seq<Fault>) -> Seq<char>
    decreases fs.len(),
{
    if fs.len() == 0 {
        Seq::empty()
    } else {
        numbered(fs.drop_last()) + "  "@ + decimal(fs.len()) + ": "@ + fault_text(fs.last())
            + "\n"@
    }
}

/// A list of errors: one stands alone, several make a numbered list.
pub open spec fn faults_text(fs: Seq<Fault>) -> Seq<char> {
    if fs.len() == 0 {
        "No parse errors"@
    } else if fs.len() == 1 {
        fault_text(fs[0])
    } else {
        "Parse errors:\n"@ + numbered(fs)
    }
}

fn digit_of(d: u64) -> (c: char)
    requires
        d < 10,
    ensures
        c == digit_char(d as int),
{
    if d == 0 {
        '0'
    } else if d == 1 {
        '1'
    } else if d == 2 {
        '2'
    } else if d == 3 {
        '3'
    } else if d == 4 {
        '4'
    } else if d == 5 {
        '5'
    } else if d == 6 {
        '6'
    } else if d == 7 {
        '7'
    } else if d == 8 {
        '8'
    } else {
        '9'
    }
}

/// Appends the base-10 digits of `n`.
pub fn push_decimal(out: &mut String, n: u64)
    ensures
        final(out)@ == old(out)@ + decimal(n as nat),
    decreases n,
{
    if n >= 10 {
        push_decimal(out, n / 10);
    }
    push_char(out, digit_of(n % 10));
    assert(out@ =~= old(out)@ + decimal(n as nat));
}

/// Appends `v` in base 10, with a leading `-` when negative.
pub fn push_int(out: &mut String, v: i64)
    ensures
        final(out)@ == old(out)@ + int_text(v as int),
{
    if v < 0 {
        push_char(out, '-');
        let magnitude = (0i128 - v as i128) as u64;
        push_decimal(out, magnitude);
        assert(out@ =~= old(out)@ + int_text(v as int));
    } else {
        push_decimal(out, v as u64);
    }
}

/// Appends the items of `items` with `", "` between them.
fn push_joined(out: &mut String, items: &Vec<String>)
    ensures
        final(out)@ == old(out)@ + joined(crate::error::texts(items@)),
{
    let ghost v = crate::error::texts(items@);
    let mut i: usize = 0;
    while i < items.len()
        invariant
            i <= items@.len(),
            v == crate::error::texts(items@),
            v.len() == items@.len(),
            out@ == old(out)@ + joined(v.subrange(0, i as int)),
        decreases items@.len() - i,
    {
        let ghost before = out@;
        if i > 0 {
            out.append(", ");
        }
        out.append(items[i].as_str());
        i = i + 1;
        let ghost w = v.subrange(0, i as int);
        assert(w.drop_last() =~= v.subrange(0, i - 1));
        assert(w.last() == items@[i - 1]@);
        assert(out@ =~= old(out)@ + joined(w));
    }
    assert(v.subrange(0, i as int) =~= v);
}

impl Token {
    /// How this token is written in a message.
    pub fn text(&self) -> (r: String)
        ensures
            r@ == token_text(self@),
    {
        match self {
            Token::Number(n) => {
                let mut out = String::new();
                push_int(&mut out, *n);
                assert(out@ =~= token_text(self@));
                out
            },
            Token::Ident(s) => s.clone(),
            Token::Let => String::from_str("let"),
            Token::Equals => String::from_str("="),
            Token::Plus => String::from_str("+"),
            Token::Minus => String::from_str("-"),
            Token::Multiply => String::from_str("*"),
            Token::Divide => String::from_str("/"),
            Token::Semicolon => String::from_str(";"),
            Token::LeftParen => String::from_str("("),
            Token::RightParen => String::from_str(")"),
            Token::LeftBrace => String::from_str("{"),
            Token::RightBrace => String::from_str("}"),
            Token::EOF => String::from_str("EOF"),
            Token::Illegal(c) => {
                let mut out = String::from_str("ILLEGAL(");
                push_char(&mut out, *c);
                out.append(")");
                out
            },
        }
    }
}

fn push_position(out: &mut String, position: usize)
    ensures
        final(out)@ == old(out)@ + at_position(position as int),
{
    out.append("Parse error at position ");
    push_decimal(out, position as u64);
    out.append(": ");
    assert(out@ =~= old(out)@ + at_position(position as int));
}

impl ParseError {
    /// The message of this error.
    pub fn describe(&self) -> (r: String)
        ensures
            r@ == fault_text(self@),
    {
        let mut out = String::new();
        match self {
            ParseError::UnexpectedToken { expected, found, position } => {
                push_position(&mut out, *position);
                if expected.len() == 1 {
                    out.append("expected '");
                    out.append(expected[0].as_str());
                    out.append("', found '");
                } else if expected.len() == 2 {
                    out.append("expected '");
                    out.append(expected[0].as_str());
                    out.append("' or '");
                    out.append(expected[1].as_str());
                    out.append("', found '");
                } else {
                    out.append("expected one of [");
                    push_joined(&mut out, expected);
                    out.append("], found '");
                }
                let found_text = found.text();
                out.append(found_text.as_str());
                out.append("'");
            },
            ParseError::UnexpectedEndOfInput { expected } => {
                if expected.len() == 1 {
                    out.append("Parse error: unexpected end of input, expected '");
                    out.append(expected[0].as_str());
                    out.append("'");
                } else {
                    out.append("Parse error: unexpected end of input, expected one of [");
                    push_joined(&mut out, expected);
                    out.append("]");
                }
            },
            ParseError::InvalidExpression { message, position } => {
                push_position(&mut out, *position);
                out.append(message.as_str());
            },
            ParseError::InvalidStatement { message, position } => {
                push_position(&mut out, *position);
                out.append(message.as_str());
            },
            ParseError::MissingExpression { context, position } => {
                push_position(&mut out, *position);
                out.append("missing expression in ");
                out.append(context.as_str());
            },
            ParseError::MissingSemicolon { position } => {
                push_position(&mut out, *position);
                out.append("missing semicolon");
            },
            ParseError::InvalidOperator { operator, position } => {
                push_position(&mut out, *position);
                out.append("invalid operator '");
                let op_text = operator.text();
                out.append(op_text.as_str());
                out.append("'");
            },
        }
        assert(out@ =~= fault_text(self@));
        out
    }
}

impl ParseErrors {
    /// The errors as text: one stands alone, several make a numbered list.
    pub fn describe(&self) -> (r: String)
        ensures
            r@ == faults_text(self@),
    {
        let n = self.errors.len();
        if n == 0 {
            return String::from_str("No parse errors");
        }
        if n == 1 {
            return self.errors[0].describe();
        }
        let mut out = String::from_str("Parse errors:\n");
        let ghost fs = self@;
        let mut i: usize = 0;
        while i < n
            invariant
                n == self.errors@.len(),
                fs == self@,
                fs.len() == n,
                i <= n,
                out@ == "Parse errors:\n"@ + numbered(fs.subrange(0, i as int)),
            decreases n - i,
        {
            out.append("  ");
            push_decimal(&mut out, (i + 1) as u64);
            out.append(": ");
            let line = self.errors[i].describe();
            out.append(line.as_str());
            out.append("\n");
            i = i + 1;
            let ghost w = fs.subrange(0, i as int);
            assert(w.drop_last() =~= fs.subrange(0, i - 1));
            assert(w.last() == self.errors@[i - 1]@);
            assert(out@ =~= "Parse errors:\n"@ + numbered(w));
        }
        assert(fs.subrange(0, n as int) =~= fs);
        out
    }
}

} // verus!
