//! The lexical grammar, stated over the UTF-8 bytes of the source.
//!
//! Positions are byte offsets. Whitespace and comments between tokens are
//! skipped; each token is the longest match of its form at its start.

use vstd::prelude::*;
use vstd::utf8::*;

use crate::ast::Span;
use crate::scan_facts::lemma_next_token_progress;
use crate::token::{LexError, LexErrorKind, SpecToken, SpecTokenKind};

verus! {

/// The byte at offset `i` of `b`, if there is one.
pub open spec fn byte_at(b: Seq<u8>, i: int) -> Option<u8> {
    if 0 <= i < b.len() {
        Some(b[i])
    } else {
        None
    }
}

pub open spec fn is_whitespace(c: u8) -> bool {
    c == ' ' as u8 || c == '\t' as u8 || c == '\n' as u8 || c == '\r' as u8
}

pub open spec fn is_digit(c: u8) -> bool {
    '0' as u8 <= c <= '9' as u8
}

pub open spec fn is_letter(c: u8) -> bool {
    ('a' as u8 <= c <= 'z' as u8) || ('A' as u8 <= c <= 'Z' as u8)
}

/// A byte that may begin an identifier: an ASCII letter, `_` or `$`.
pub open spec fn ident_start_byte(c: u8) -> bool {
    is_letter(c) || c == '_' as u8 || c == '$' as u8
}

/// A byte that may continue an identifier: an ASCII letter or digit, `_` or `$`.
pub open spec fn ident_cont_byte(c: u8) -> bool {
    ident_start_byte(c) || is_digit(c)
}

/// Where the scanner of trivia stands: between tokens, or inside a comment.
pub enum Trivia {
    Code,
    LineComment,
    BlockComment,
}

/// The offset reached from `p` in state `mode` by skipping whitespace,
/// `// ...` comments (up to and including the newline) and `/* ... */`
/// comments. An unterminated comment runs to the end of the input.
pub open spec fn trivia_end(b: Seq<u8>, p: int, mode: Trivia) -> int
    decreases b.len() - p,
{
    if p < 0 || p >= b.len() {
        p
    } else {
        match mode {
            Trivia::Code => {
                if is_whitespace(b[p]) {
                    trivia_end(b, p + 1, Trivia::Code)
                } else if b[p] == '/' as u8 && byte_at(b, p + 1) == Some('/' as u8) {
                    trivia_end(b, p + 2, Trivia::LineComment)
                } else if b[p] == '/' as u8 && byte_at(b, p + 1) == Some('*' as u8) {
                    trivia_end(b, p + 2, Trivia::BlockComment)
                } else {
                    p
                }
            },
            Trivia::LineComment => {
                if b[p] == '\n' as u8 {
                    trivia_end(b, p + 1, Trivia::Code)
                } else {
                    trivia_end(b, p + 1, Trivia::LineComment)
                }
            },
            Trivia::BlockComment => {
                if b[p] == '*' as u8 && byte_at(b, p + 1) == Some('/' as u8) {
                    trivia_end(b, p + 2, Trivia::Code)
                } else {
                    trivia_end(b, p + 1, Trivia::BlockComment)
                }
            },
        }
    }
}

/// The offset of the next token (or of the end of input) at or after `p`.
pub open spec fn skip_trivia(b: Seq<u8>, p: int) -> int {
    trivia_end(b, p, Trivia::Code)
}

/// The end of the run of ASCII digits that starts at `p`.
pub open spec fn digits_end(b: Seq<u8>, p: int) -> int
    decreases b.len() - p,
{
    if 0 <= p < b.len() && is_digit(b[p]) {
        digits_end(b, p + 1)
    } else {
        p
    }
}

/// The end of the numeric literal that starts at `p`: digits, then a `.`
/// and more digits only when a digit follows the `.`.
pub open spec fn number_end(b: Seq<u8>, p: int) -> int {
    let e: int = digits_end(b, p);
    if byte_at(b, e) == Some('.' as u8) && byte_at(b, e + 1) is Some && is_digit(
        byte_at(b, e + 1)->0,
    ) {
        digits_end(b, e + 1)
    } else {
        e
    }
}

/// The end of the run of identifier bytes that starts at `p`.
pub open spec fn ident_end(b: Seq<u8>, p: int) -> int
    decreases b.len() - p,
{
    if 0 <= p < b.len() && ident_cont_byte(b[p]) {
        ident_end(b, p + 1)
    } else {
        p
    }
}

/// The characters of the source bytes `start..end`.
pub open spec fn text(b: Seq<u8>, start: int, end: int) -> Seq<char> {
    decode_utf8(b.subrange(start, end))
}

/// The keyword that the word `w` spells, if any.
pub open spec fn keyword(w: Seq<u8>) -> Option<SpecTokenKind> {
    if w == seq!['f' as u8, 'u' as u8, 'n' as u8, 'c' as u8, 't' as u8, 'i' as u8, 'o' as u8, 'n' as u8] {
        Some(SpecTokenKind::Function)
    } else if w == seq!['c' as u8, 'o' as u8, 'n' as u8, 's' as u8, 't' as u8] {
        Some(SpecTokenKind::Const)
    } else if w == seq!['l' as u8, 'e' as u8, 't' as u8] {
        Some(SpecTokenKind::Let)
    } else if w == seq!['r' as u8, 'e' as u8, 't' as u8, 'u' as u8, 'r' as u8, 'n' as u8] {
        Some(SpecTokenKind::Return)
    } else if w == seq!['i' as u8, 'f' as u8] {
        Some(SpecTokenKind::If)
    } else if w == seq!['e' as u8, 'l' as u8, 's' as u8, 'e' as u8] {
        Some(SpecTokenKind::Else)
    } else if w == seq!['w' as u8, 'h' as u8, 'i' as u8, 'l' as u8, 'e' as u8] {
        Some(SpecTokenKind::While)
    } else if w == seq!['t' as u8, 'r' as u8, 'u' as u8, 'e' as u8] {
        Some(SpecTokenKind::True)
    } else if w == seq!['f' as u8, 'a' as u8, 'l' as u8, 's' as u8, 'e' as u8] {
        Some(SpecTokenKind::False)
    } else if w == seq!['n' as u8, 'u' as u8, 'l' as u8, 'l' as u8] {
        Some(SpecTokenKind::Null)
    } else if w == seq![
        'u' as u8, 'n' as u8, 'd' as u8, 'e' as u8, 'f' as u8, 'i' as u8, 'n' as u8, 'e' as u8, 'd' as u8,
    ] {
        Some(SpecTokenKind::Undefined)
    } else if w == seq!['n' as u8, 'u' as u8, 'm' as u8, 'b' as u8, 'e' as u8, 'r' as u8] {
        Some(SpecTokenKind::NumberKw)
    } else if w == seq!['s' as u8, 't' as u8, 'r' as u8, 'i' as u8, 'n' as u8, 'g' as u8] {
        Some(SpecTokenKind::StringKw)
    } else if w == seq!['b' as u8, 'o' as u8, 'o' as u8, 'l' as u8, 'e' as u8, 'a' as u8, 'n' as u8] {
        Some(SpecTokenKind::BooleanKw)
    } else {
        None
    }
}

/// The token that the word `b[start..end]` forms: a keyword, or else an identifier.
pub open spec fn word_kind(b: Seq<u8>, start: int, end: int) -> SpecTokenKind {
    match keyword(b.subrange(start, end)) {
        Some(k) => k,
        None => SpecTokenKind::Ident(text(b, start, end)),
    }
}

/// The byte that the escape sequence `\e` stands for inside a string literal:
/// `\n`, `\t`, `\r` and `\0` stand for newline, tab, carriage return and NUL;
/// any other escaped character stands for itself.
pub open spec fn escaped(e: u8) -> u8 {
    if e == 'n' as u8 {
        '\n' as u8
    } else if e == 't' as u8 {
        '\t' as u8
    } else if e == 'r' as u8 {
        '\r' as u8
    } else if e == '0' as u8 {
        0
    } else {
        e
    }
}

/// Puts `x` in front of the bytes of a successful string body.
pub open spec fn prepend_bytes(x: Seq<u8>, r: Result<(Seq<u8>, int), int>) -> Result<(Seq<u8>, int), int> {
    match r {
        Ok((content, end)) => Ok((x + content, end)),
        Err(end) => Err(end),
    }
}

/// The body of a string literal delimited by `quote`, read from `p`:
/// either the bytes it stands for and the offset just past the closing quote,
/// or, when a newline or the end of input comes first, the offset where the
/// error span ends.
pub open spec fn string_body(b: Seq<u8>, quote: u8, p: int) -> Result<(Seq<u8>, int), int>
    decreases b.len() - p,
{
    if p < 0 || p >= b.len() || b[p] == '\n' as u8 {
        Err(p)
    } else if b[p] == quote {
        Ok((Seq::empty(), p + 1))
    } else if b[p] == '\\' as u8 {
        if p + 1 >= b.len() {
            // a backslash as the last byte leaves the literal open at the end of input
            Err(p + 1)
        } else {
            prepend_bytes(seq![escaped(b[p + 1])], string_body(b, quote, p + 2))
        }
    } else {
        prepend_bytes(seq![b[p]], string_body(b, quote, p + 1))
    }
}

/// The span `start..end` as `u32` offsets.
pub open spec fn span(start: int, end: int) -> Span {
    Span { start: start as u32, end: end as u32 }
}

/// The token that starts at offset `p` (after trivia) and the offset just past
/// it, or the error that stops the lexer there.
pub open spec fn scan_token(b: Seq<u8>, p: int) -> Result<(SpecTokenKind, int), LexError> {
    if p >= b.len() {
        Ok((SpecTokenKind::Eof, p))
    } else {
        let c: u8 = b[p];
        let next = byte_at(b, p + 1);
        if c == '(' as u8 {
            Ok((SpecTokenKind::LParen, p + 1))
        } else if c == ')' as u8 {
            Ok((SpecTokenKind::RParen, p + 1))
        } else if c == '{' as u8 {
            Ok((SpecTokenKind::LBrace, p + 1))
        } else if c == '}' as u8 {
            Ok((SpecTokenKind::RBrace, p + 1))
        } else if c == ',' as u8 {
            Ok((SpecTokenKind::Comma, p + 1))
        } else if c == ';' as u8 {
            Ok((SpecTokenKind::Semi, p + 1))
        } else if c == ':' as u8 {
            Ok((SpecTokenKind::Colon, p + 1))
        } else if c == '.' as u8 {
            Ok((SpecTokenKind::Dot, p + 1))
        } else if c == '+' as u8 {
            Ok((SpecTokenKind::Plus, p + 1))
        } else if c == '-' as u8 {
            Ok((SpecTokenKind::Minus, p + 1))
        } else if c == '*' as u8 {
            Ok((SpecTokenKind::Star, p + 1))
        } else if c == '/' as u8 {
            Ok((SpecTokenKind::Slash, p + 1))
        } else if c == '=' as u8 {
            if next == Some('=' as u8) {
                if byte_at(b, p + 2) == Some('=' as u8) {
                    Ok((SpecTokenKind::EqEqEq, p + 3))
                } else {
                    Ok((SpecTokenKind::EqEq, p + 2))
                }
            } else {
                Ok((SpecTokenKind::Eq, p + 1))
            }
        } else if c == '!' as u8 {
            if next == Some('=' as u8) {
                if byte_at(b, p + 2) == Some('=' as u8) {
                    Ok((SpecTokenKind::NotEqEq, p + 3))
                } else {
                    Ok((SpecTokenKind::NotEq, p + 2))
                }
            } else {
                Ok((SpecTokenKind::Bang, p + 1))
            }
        } else if c == '<' as u8 {
            if next == Some('=' as u8) {
                Ok((SpecTokenKind::LtEq, p + 2))
            } else {
                Ok((SpecTokenKind::Lt, p + 1))
            }
        } else if c == '>' as u8 {
            if next == Some('=' as u8) {
                Ok((SpecTokenKind::GtEq, p + 2))
            } else {
                Ok((SpecTokenKind::Gt, p + 1))
            }
        } else if c == '&' as u8 && next == Some('&' as u8) {
            Ok((SpecTokenKind::AmpAmp, p + 2))
        } else if c == '|' as u8 && next == Some('|' as u8) {
            Ok((SpecTokenKind::PipePipe, p + 2))
        } else if c == '"' as u8 || c == '\'' as u8 {
            match string_body(b, c, p + 1) {
                Ok((content, end)) => Ok((SpecTokenKind::Str(decode_utf8(content)), end)),
                Err(end) => Err(
                    LexError { kind: LexErrorKind::UnterminatedString, span: span(p, end) },
                ),
            }
        } else if is_digit(c) {
            let e: int = number_end(b, p);
            Ok((SpecTokenKind::Number(text(b, p, e)), e))
        } else if ident_start_byte(c) {
            let e: int = ident_end(b, p);
            Ok((word_kind(b, p, e), e))
        } else {
            let rest = b.subrange(p, b.len() as int);
            Err(
                LexError {
                    kind: LexErrorKind::UnexpectedChar(decode_first_scalar(rest) as char),
                    span: span(p, p + length_of_first_scalar(rest)),
                },
            )
        }
    }
}

/// One step of the lexer from offset `pos`: skip trivia, then read a token.
/// On success, the token and the offset where the next step begins.
pub open spec fn next_token(b: Seq<u8>, pos: int) -> Result<(SpecToken, int), LexError> {
    let p: int = skip_trivia(b, pos);
    match scan_token(b, p) {
        Ok((kind, end)) => Ok((SpecToken { kind, span: span(p, end) }, end)),
        Err(e) => Err(e),
    }
}

/// The tokens read from offset `pos` to the end of input, the last one being
/// the end-of-input token; or the first error met on the way.
pub open spec fn tokens_from(b: Seq<u8>, pos: int) -> Result<Seq<SpecToken>, LexError>
    decreases b.len() - pos,
    when 0 <= pos <= b.len()
{
    match next_token(b, pos) {
        Err(e) => Err(e),
        Ok((t, end)) => {
            if t.kind is Eof {
                Ok(seq![t])
            } else {
                proof {
                    lemma_next_token_progress(b, pos);
                }
                match tokens_from(b, end) {
                    Ok(rest) => Ok(seq![t] + rest),
                    Err(e) => Err(e),
                }
            }
        },
    }
}

/// The tokens of the whole source `b`, or the first lexical error in it.
pub open spec fn tokens(b: Seq<u8>) -> Result<Seq<SpecToken>, LexError> {
    tokens_from(b, 0)
}

} // verus!
