//! Lexer for the cakebear compiler: TypeScript source text to a token stream.
//!
//! The tokens are those of the first language phase: keywords, identifiers,
//! number and string literals, and the punctuation and operators of
//! arithmetic, boolean logic, comparison, calls and assignment. Whitespace and
//! `//` / `/* */` comments between tokens are skipped. Every token carries the
//! span of source bytes it was read from.

pub mod ast;
pub mod laws;
pub mod lexeme_laws;
pub mod lexer;
pub mod message;
pub mod scan_facts;
pub mod syntax;
pub mod token;
pub mod utf8_text;

pub use ast::Span;
pub use lexer::{is_ident_cont, is_ident_start, lex, Lexer};
pub use token::{LexError, LexErrorKind, Token, TokenKind};
