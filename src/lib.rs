//! Front end of a small imperative language: a lexer that turns source text
//! into tokens with byte spans, and a one-pass parser that turns tokens into a
//! syntax tree.

pub mod lexer;
pub mod lexer_facts;
pub mod one_pass;
mod text;

pub use lexer::{lex, LexError, NumericConstant, Span, Token, TokenKind, MAIN_FILE};
pub use one_pass::{BooleanOp, LiteralValue, Node, ParseError, VM};
