//! Lexical analysis for a small Lisp-style calculator language.

pub mod lexer;

pub use lexer::{get_escape_sequence, LexError, Lexer, Token, TokenModel};
