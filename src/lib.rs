pub mod ast;
pub mod error;
pub mod laws;
pub mod lexer;
pub mod parse;
pub mod text;

pub use ast::{BinaryOp, Expr, ExprV, Program, Stmt, StmtV, UnaryOp};
pub use error::{Fault, ParseError, ParseErrors, ParseResult};
pub use lexer::{tokenize, LexError, Lexeme, Lexer, Token, TokenKind};
pub use parse::{compile, parse_source, parse_tokens, Parser};
