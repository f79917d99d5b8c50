//! Tokens and lexical errors, with the mathematical values they stand for.

use vstd::prelude::*;

use crate::ast::Span;

verus! {

/// The kind of a token.
///
/// `Number` carries the literal's source text (decimal digits, optionally
/// followed by `.` and more digits); its numeric value is that text read as a
/// decimal number.
#[derive(Debug, Clone, PartialEq)]
pub enum TokenKind {
    // Literals
    Ident(String),
    Number(String),
    Str(String),
    // Keywords
    Function,
    Const,
    Let,
    Return,
    If,
    Else,
    While,
    True,
    False,
    Null,
    Undefined,
    // Type-name keywords
    NumberKw,
    StringKw,
    BooleanKw,
    // Punctuation
    LParen,
    RParen,
    LBrace,
    RBrace,
    Comma,
    Semi,
    Colon,
    Dot,
    // Operators
    Eq,
    EqEq,
    EqEqEq,
    NotEq,
    NotEqEq,
    Plus,
    Minus,
    Star,
    Slash,
    Lt,
    LtEq,
    Gt,
    GtEq,
    AmpAmp,
    PipePipe,
    Bang,
    Eof,
}

/// What a [`TokenKind`] stands for: the same kinds, with the text they carry
/// taken as a sequence of characters.
pub enum SpecTokenKind {
    Ident(Seq<char>),
    Number(Seq<char>),
    Str(Seq<char>),
    Function,
    Const,
    Let,
    Return,
    If,
    Else,
    While,
    True,
    False,
    Null,
    Undefined,
    NumberKw,
    StringKw,
    BooleanKw,
    LParen,
    RParen,
    LBrace,
    RBrace,
    Comma,
    Semi,
    Colon,
    Dot,
    Eq,
    EqEq,
    EqEqEq,
    NotEq,
    NotEqEq,
    Plus,
    Minus,
    Star,
    Slash,
    Lt,
    LtEq,
    Gt,
    GtEq,
    AmpAmp,
    PipePipe,
    Bang,
    Eof,
}

impl View for TokenKind {
    type V = SpecTokenKind;

    open spec fn view(&self) -> SpecTokenKind {
        match self {
            TokenKind::Ident(s) => SpecTokenKind::Ident(s@),
            TokenKind::Number(s) => SpecTokenKind::Number(s@),
            TokenKind::Str(s) => SpecTokenKind::Str(s@),
            TokenKind::Function => SpecTokenKind::Function,
            TokenKind::Const => SpecTokenKind::Const,
            TokenKind::Let => SpecTokenKind::Let,
            TokenKind::Return => SpecTokenKind::Return,
            TokenKind::If => SpecTokenKind::If,
            TokenKind::Else => SpecTokenKind::Else,
            TokenKind::While => SpecTokenKind::While,
            TokenKind::True => SpecTokenKind::True,
            TokenKind::False => SpecTokenKind::False,
            TokenKind::Null => SpecTokenKind::Null,
            TokenKind::Undefined => SpecTokenKind::Undefined,
            TokenKind::NumberKw => SpecTokenKind::NumberKw,
            TokenKind::StringKw => SpecTokenKind::StringKw,
            TokenKind::BooleanKw => SpecTokenKind::BooleanKw,
            TokenKind::LParen => SpecTokenKind::LParen,
            TokenKind::RParen => SpecTokenKind::RParen,
            TokenKind::LBrace => SpecTokenKind::LBrace,
            TokenKind::RBrace => SpecTokenKind::RBrace,
            TokenKind::Comma => SpecTokenKind::Comma,
            TokenKind::Semi => SpecTokenKind::Semi,
            TokenKind::Colon => SpecTokenKind::Colon,
            TokenKind::Dot => SpecTokenKind::Dot,
            TokenKind::Eq => SpecTokenKind::Eq,
            TokenKind::EqEq => SpecTokenKind::EqEq,
            TokenKind::EqEqEq => SpecTokenKind::EqEqEq,
            TokenKind::NotEq => SpecTokenKind::NotEq,
            TokenKind::NotEqEq => SpecTokenKind::NotEqEq,
            TokenKind::Plus => SpecTokenKind::Plus,
            TokenKind::Minus => SpecTokenKind::Minus,
            TokenKind::Star => SpecTokenKind::Star,
            TokenKind::Slash => SpecTokenKind::Slash,
            TokenKind::Lt => SpecTokenKind::Lt,
            TokenKind::LtEq => SpecTokenKind::LtEq,
            TokenKind::Gt => SpecTokenKind::Gt,
            TokenKind::GtEq => SpecTokenKind::GtEq,
            TokenKind::AmpAmp => SpecTokenKind::AmpAmp,
            TokenKind::PipePipe => SpecTokenKind::PipePipe,
            TokenKind::Bang => SpecTokenKind::Bang,
            TokenKind::Eof => SpecTokenKind::Eof,
        }
    }
}

/// A token: its kind and the bytes of the source it was read from.
#[derive(Debug, Clone, PartialEq)]
pub struct Token {
    pub kind: TokenKind,
    pub span: Span,
}

/// What a [`Token`] stands for.
pub struct SpecToken {
    pub kind: SpecTokenKind,
    pub span: Span,
}

impl View for Token {
    type V = SpecToken;

    open spec fn view(&self) -> SpecToken {
        SpecToken { kind: self.kind@, span: self.span }
    }
}

/// Why the lexer stopped.
#[derive(Debug, Clone, PartialEq)]
pub enum LexErrorKind {
    UnexpectedChar(char),
    UnterminatedString,
    /// Kept for callers that match on it; digit runs of the accepted numeric
    /// shape always form a valid literal, so the lexer never reports it.
    InvalidNumber,
}

/// A lexical error and the bytes of the source it concerns.
#[derive(Debug, Clone, PartialEq)]
pub struct LexError {
    pub kind: LexErrorKind,
    pub span: Span,
}

} // verus!
