//! The lexer: source text to tokens, proved to follow the grammar in
//! [`crate::syntax`].

use vstd::prelude::*;
use vstd::string::StringSliceAdditionalSpecFns;
use vstd::utf8::*;

use crate::ast::Span;
use crate::scan_facts::{
    lemma_digits_end, lemma_ident_end, lemma_next_token_progress, lemma_prepend_bytes_assoc,
    lemma_scan_token_progress, lemma_trivia_end_bounds,
};
use crate::syntax;
use crate::syntax::{byte_at, Trivia};
use crate::token::{LexError, LexErrorKind, SpecToken, SpecTokenKind, Token, TokenKind};
use crate::utf8_text::{
    at_boundary, lemma_after_ascii, lemma_ascii_at_boundary, lemma_at_boundary_is_char_boundary,
    lemma_at_boundary_suffix, lemma_encode_ascii_char, lemma_encode_utf8_concat,
    lemma_after_first_char, lemma_first_char, lemma_slice_valid, lemma_start_at_boundary,
};

verus! {

broadcast use vstd::utf8::group_utf8_lib;

/// A byte that may begin an identifier: an ASCII letter, `_` or `$`.
pub fn is_ident_start(b: u8) -> (r: bool)
    ensures
        r == syntax::ident_start_byte(b),
        r == (('a' as u8 <= b <= 'z' as u8) || ('A' as u8 <= b <= 'Z' as u8) || b == '_' as u8 || b
            == '$' as u8),
{
    is_ascii_alphabetic(b) || b == '_' as u8 || b == '$' as u8
}

/// A byte that may continue an identifier: an ASCII letter or digit, `_` or `$`.
pub fn is_ident_cont(b: u8) -> (r: bool)
    ensures
        r == syntax::ident_cont_byte(b),
        r == (('a' as u8 <= b <= 'z' as u8) || ('A' as u8 <= b <= 'Z' as u8) || ('0' as u8 <= b
            <= '9' as u8) || b == '_' as u8 || b == '$' as u8),
{
    is_ascii_alphanumeric(b) || b == '_' as u8 || b == '$' as u8
}

fn is_ascii_digit(b: u8) -> (r: bool)
    ensures
        r == syntax::is_digit(b),
{
    '0' as u8 <= b && b <= '9' as u8
}

fn is_ascii_alphabetic(b: u8) -> (r: bool)
    ensures
        r == syntax::is_letter(b),
{
    ('a' as u8 <= b && b <= 'z' as u8) || ('A' as u8 <= b && b <= 'Z' as u8)
}

fn is_ascii_alphanumeric(b: u8) -> (r: bool)
    ensures
        r == (syntax::is_letter(b) || syntax::is_digit(b)),
{
    is_ascii_alphabetic(b) || is_ascii_digit(b)
}

/// A cursor over the source text.
pub struct Lexer<'a> {
    src: &'a str,
    bytes: &'a [u8],
    pos: usize,
}

impl<'a> Lexer<'a> {
    /// The UTF-8 bytes of the source.
    pub closed spec fn input(&self) -> Seq<u8> {
        self.bytes@
    }

    /// The byte offset the cursor stands at.
    pub closed spec fn position(&self) -> int {
        self.pos as int
    }

    /// The cursor reads the bytes of its source and stands at the start of a
    /// character or at the end.
    pub closed spec fn wf(&self) -> bool {
        &&& self.bytes@ == self.src.spec_bytes()
        &&& self.pos <= self.bytes@.len() <= usize::MAX
        &&& at_boundary(self.bytes@, self.pos as int)
    }

    /// A well-formed cursor stands inside its input, at the start of a
    /// character, over valid UTF-8.
    pub proof fn lemma_wf(&self)
        requires
            self.wf(),
        ensures
            0 <= self.position() <= self.input().len(),
            at_boundary(self.input(), self.position()),
            valid_utf8(self.input()),
    {
    }

    /// A cursor at the start of `src`.
    pub fn new(src: &'a str) -> (lx: Self)
        ensures
            lx.wf(),
            lx.input() == src.spec_bytes(),
            lx.position() == 0,
            valid_utf8(lx.input()),
            at_boundary(lx.input(), lx.position()),
    {
        let lx = Self { src, bytes: src.as_bytes(), pos: 0 };
        proof {
            lemma_start_at_boundary(src.spec_bytes());
            assert(lx.bytes@.len() == lx.bytes.len());
        }
        lx
    }

    /// The byte under the cursor, if any.
    pub fn peek(&self) -> (r: Option<u8>)
        ensures
            r == byte_at(self.input(), self.position()),
    {
        if self.pos < self.bytes.len() {
            Some(self.bytes[self.pos])
        } else {
            None
        }
    }

    /// The byte `offset` bytes past the cursor, if any.
    pub fn peek_at(&self, offset: usize) -> (r: Option<u8>)
        requires
            self.position() + offset <= usize::MAX,
        ensures
            r == byte_at(self.input(), self.position() + offset),
    {
        let i: usize = self.pos + offset;
        if i < self.bytes.len() {
            Some(self.bytes[i])
        } else {
            None
        }
    }

    /// Moves the cursor past whitespace and comments.
    pub fn skip_trivia(&mut self)
        requires
            old(self).wf(),
        ensures
            final(self).wf(),
            final(self).input() == old(self).input(),
            final(self).position() == syntax::skip_trivia(old(self).input(), old(self).position()),
            old(self).position() <= final(self).position() <= final(self).input().len(),
            at_boundary(final(self).input(), final(self).position()),
    {
        let ghost b = self.bytes@;
        let ghost target: int = syntax::skip_trivia(b, self.pos as int);
        proof {
            lemma_trivia_end_bounds(b, self.pos as int, Trivia::Code);
        }
        loop
            invariant
                self.wf(),
                self.bytes@ == b,
                syntax::trivia_end(b, self.pos as int, Trivia::Code) == target,
            ensures
                self.wf(),
                self.bytes@ == b,
                self.pos == target,
            decreases b.len() - self.pos,
        {
            let ghost before: usize = self.pos;
            let c: u8 = match self.peek() {
                Some(c) => c,
                None => break ,
            };
            if c == ' ' as u8 || c == '\t' as u8 || c == '\n' as u8 || c == '\r' as u8 {
                proof {
                    lemma_after_ascii(b, self.pos as int);
                }
                self.pos += 1;
            } else if c == '/' as u8 && self.peek_at(1) == Some('/' as u8) {
                self.pos += 2;
                loop
                    invariant_except_break
                        self.bytes@ == b,
                        b == self.src.spec_bytes(),
                        before + 2 <= self.pos <= b.len() <= usize::MAX,
                        syntax::trivia_end(b, self.pos as int, Trivia::LineComment) == target,
                    ensures
                        self.wf(),
                        self.bytes@ == b,
                        before < self.pos,
                        syntax::trivia_end(b, self.pos as int, Trivia::Code) == target,
                    decreases b.len() - self.pos,
                {
                    match self.peek() {
                        Some(d) => {
                            self.pos += 1;
                            if d == '\n' as u8 {
                                proof {
                                    lemma_after_ascii(b, self.pos - 1);
                                }
                                break ;
                            }
                        },
                        None => break ,
                    }
                }
            } else if c == '/' as u8 && self.peek_at(1) == Some('*' as u8) {
                self.pos += 2;
                loop
                    invariant_except_break
                        self.bytes@ == b,
                        b == self.src.spec_bytes(),
                        before + 2 <= self.pos <= b.len() <= usize::MAX,
                        syntax::trivia_end(b, self.pos as int, Trivia::BlockComment) == target,
                    ensures
                        self.wf(),
                        self.bytes@ == b,
                        before < self.pos,
                        syntax::trivia_end(b, self.pos as int, Trivia::Code) == target,
                    decreases b.len() - self.pos,
                {
                    match self.peek() {
                        Some(d) => {
                            if d == '*' as u8 && self.peek_at(1) == Some('/' as u8) {
                                proof {
                                    lemma_after_ascii(b, self.pos + 1);
                                }
                                self.pos += 2;
                                break ;
                            }
                            self.pos += 1;
                        },
                        None => break ,
                    }
                }
            } else {
                break ;
            }
        }
    }

    /// The source text of the bytes `i..j`.
    fn slice(&self, i: usize, j: usize) -> (r: &'a str)
        requires
            self.wf(),
            i <= j <= self.input().len(),
            at_boundary(self.input(), i as int),
            at_boundary(self.input(), j as int),
        ensures
            r.spec_bytes() == self.input().subrange(i as int, j as int),
            r@ == syntax::text(self.input(), i as int, j as int),
    {
        let ghost b = self.bytes@;
        proof {
            lemma_at_boundary_is_char_boundary(b, i as int);
        }
        let (_, tail) = self.src.split_at(i);
        proof {
            assert(tail.spec_bytes() == b.subrange(i as int, b.len() as int));
            lemma_at_boundary_suffix(b, i as int, j as int);
            lemma_at_boundary_is_char_boundary(tail.spec_bytes(), (j - i) as int);
        }
        let (mid, _) = tail.split_at(j - i);
        proof {
            assert(mid.spec_bytes() =~= b.subrange(i as int, j as int));
        }
        mid
    }

    /// Reads a one-byte token.
    fn single(&mut self, kind: TokenKind) -> (r: TokenKind)
        requires
            old(self).wf(),
            old(self).position() < old(self).input().len(),
        ensures
            final(self).input() == old(self).input(),
            final(self).position() == old(self).position() + 1,
            r == kind,
            old(self).input()[old(self).position()] < 0x80 ==> final(self).wf(),
    {
        proof {
            if self.bytes@[self.pos as int] < 0x80 {
                lemma_after_ascii(self.bytes@, self.pos as int);
            }
        }
        self.pos += 1;
        kind
    }

    /// Moves past the ASCII byte under the cursor.
    fn bump(&mut self)
        requires
            old(self).wf(),
            old(self).position() < old(self).input().len(),
            old(self).input()[old(self).position()] < 0x80,
        ensures
            final(self).wf(),
            final(self).input() == old(self).input(),
            final(self).position() == old(self).position() + 1,
    {
        proof {
            lemma_after_ascii(self.bytes@, self.pos as int);
        }
        self.pos += 1;
    }

    /// Reads `=`, `==` or `===`.
    fn lex_eq(&mut self) -> (r: TokenKind)
        requires
            old(self).wf(),
            old(self).position() < old(self).input().len(),
            old(self).input()[old(self).position()] == '=' as u8,
        ensures
            final(self).wf(),
            final(self).input() == old(self).input(),
            syntax::scan_token(old(self).input(), old(self).position()) == Ok::<
                (SpecTokenKind, int),
                LexError,
            >((r@, final(self).position())),
    {
        self.bump();
        if self.peek() == Some('=' as u8) {
            self.bump();
            if self.peek() == Some('=' as u8) {
                self.bump();
                TokenKind::EqEqEq
            } else {
                TokenKind::EqEq
            }
        } else {
            TokenKind::Eq
        }
    }

    /// Reads `!`, `!=` or `!==`.
    fn lex_bang(&mut self) -> (r: TokenKind)
        requires
            old(self).wf(),
            old(self).position() < old(self).input().len(),
            old(self).input()[old(self).position()] == '!' as u8,
        ensures
            final(self).wf(),
            final(self).input() == old(self).input(),
            syntax::scan_token(old(self).input(), old(self).position()) == Ok::<
                (SpecTokenKind, int),
                LexError,
            >((r@, final(self).position())),
    {
        self.bump();
        if self.peek() == Some('=' as u8) {
            self.bump();
            if self.peek() == Some('=' as u8) {
                self.bump();
                TokenKind::NotEqEq
            } else {
                TokenKind::NotEq
            }
        } else {
            TokenKind::Bang
        }
    }

    /// Reads `<` or `<=`.
    fn lex_lt(&mut self) -> (r: TokenKind)
        requires
            old(self).wf(),
            old(self).position() < old(self).input().len(),
            old(self).input()[old(self).position()] == '<' as u8,
        ensures
            final(self).wf(),
            final(self).input() == old(self).input(),
            syntax::scan_token(old(self).input(), old(self).position()) == Ok::<
                (SpecTokenKind, int),
                LexError,
            >((r@, final(self).position())),
    {
        self.bump();
        if self.peek() == Some('=' as u8) {
            self.bump();
            TokenKind::LtEq
        } else {
            TokenKind::Lt
        }
    }

    /// Reads `>` or `>=`.
    fn lex_gt(&mut self) -> (r: TokenKind)
        requires
            old(self).wf(),
            old(self).position() < old(self).input().len(),
            old(self).input()[old(self).position()] == '>' as u8,
        ensures
            final(self).wf(),
            final(self).input() == old(self).input(),
            syntax::scan_token(old(self).input(), old(self).position()) == Ok::<
                (SpecTokenKind, int),
                LexError,
            >((r@, final(self).position())),
    {
        self.bump();
        if self.peek() == Some('=' as u8) {
            self.bump();
            TokenKind::GtEq
        } else {
            TokenKind::Gt
        }
    }

    /// Moves past a run of ASCII digits.
    fn skip_digits(&mut self)
        requires
            old(self).wf(),
        ensures
            final(self).wf(),
            final(self).input() == old(self).input(),
            final(self).position() == syntax::digits_end(old(self).input(), old(self).position()),
    {
        let ghost b = self.bytes@;
        let ghost target: int = syntax::digits_end(b, self.pos as int);
        loop
            invariant
                self.wf(),
                self.bytes@ == b,
                syntax::digits_end(b, self.pos as int) == target,
            ensures
                self.wf(),
                self.bytes@ == b,
                self.pos == target,
            decreases b.len() - self.pos,
        {
            match self.peek() {
                Some(d) => {
                    if is_ascii_digit(d) {
                        self.bump();
                    } else {
                        break ;
                    }
                },
                None => break ,
            }
        }
    }

    /// Reads a numeric literal: digits, then `.` and digits when a digit follows the `.`.
    fn lex_number(&mut self) -> (r: TokenKind)
        requires
            old(self).wf(),
            old(self).position() < old(self).input().len(),
            syntax::is_digit(old(self).input()[old(self).position()]),
        ensures
            final(self).wf(),
            final(self).input() == old(self).input(),
            syntax::scan_token(old(self).input(), old(self).position()) == Ok::<
                (SpecTokenKind, int),
                LexError,
            >((r@, final(self).position())),
    {
        let ghost b = self.bytes@;
        let begin: usize = self.pos;
        proof {
            lemma_digits_end(b, begin as int);
        }
        self.skip_digits();
        if self.peek() == Some('.' as u8) {
            let fraction: bool = match self.peek_at(1) {
                Some(d) => is_ascii_digit(d),
                None => false,
            };
            if fraction {
                proof {
                    lemma_digits_end(b, self.pos + 1);
                }
                self.bump();
                self.skip_digits();
            }
        }
        let text = self.slice(begin, self.pos);
        TokenKind::Number(text.to_owned())
    }

    /// Appends the character `c` that the escaped byte under the cursor stands
    /// for, and moves past that byte.
    fn push_escape(&mut self, s: &mut String, lit: &str, c: char)
        requires
            old(self).wf(),
            old(self).position() < old(self).input().len(),
            old(self).input()[old(self).position()] < 0x80,
            lit@ == seq![c],
            (c as u32) < 0x80,
            c as u8 == syntax::escaped(old(self).input()[old(self).position()]),
        ensures
            final(self).wf(),
            final(self).input() == old(self).input(),
            final(self).position() == old(self).position() + 1,
            encode_utf8(final(s)@) == encode_utf8(old(s)@) + seq![c as u8],
    {
        let ghost before = s@;
        s.append(lit);
        proof {
            lemma_encode_utf8_concat(before, lit@);
            lemma_encode_ascii_char(c);
        }
        self.bump();
    }

    /// Reads a string literal delimited by the quote under the cursor.
    ///
    /// The body is copied in runs of plain characters; after a backslash,
    /// `n`, `t`, `r`, `0`, `\\`, `'`, `"` and a newline stand for the
    /// characters they escape, and any other character stands for itself.
    fn lex_string(&mut self, start: usize) -> (r: Result<TokenKind, LexError>)
        requires
            old(self).wf(),
            old(self).input().len() <= u32::MAX,
            start == old(self).position() < old(self).input().len(),
            old(self).input()[start as int] == '"' as u8 || old(self).input()[start as int]
                == '\'' as u8,
        ensures
            final(self).wf(),
            old(self).position() <= final(self).position(),
            final(self).input() == old(self).input(),
            match (r, syntax::scan_token(old(self).input(), start as int)) {
                (Ok(k), Ok((sk, end))) => k@ == sk && final(self).position() == end,
                (Err(e), Err(se)) => e == se && final(self).position() == e.span.end,
                _ => false,
            },
    {
        let ghost b = self.bytes@;
        let quote: u8 = self.bytes[self.pos];
        self.bump();
        let mut s = String::new();
        let mut run_start: usize = self.pos;
        let ghost body = syntax::string_body(b, quote, start + 1);
        proof {
            assert(encode_utf8(s@) + b.subrange(run_start as int, self.pos as int) =~= Seq::<
                u8,
            >::empty());
            assert(syntax::prepend_bytes(Seq::empty(), body) == body);
        }
        loop
            invariant
                self.bytes@ == b,
                b == old(self).input(),
                body == syntax::string_body(b, quote, start + 1),
                start == old(self).position(),
                b == self.src.spec_bytes(),
                b.len() <= u32::MAX,
                b.len() <= usize::MAX,
                valid_utf8(b),
                quote == b[start as int],
                quote == '"' as u8 || quote == '\'' as u8,
                start < run_start <= self.pos <= b.len(),
                at_boundary(b, run_start as int),
                forall|k: int|
                    run_start <= k < self.pos ==> #[trigger] b[k] != quote && b[k] != '\\' as u8
                        && b[k] != '\n' as u8,
                syntax::prepend_bytes(
                    encode_utf8(s@) + b.subrange(run_start as int, self.pos as int),
                    syntax::string_body(b, quote, self.pos as int),
                ) == body,
            decreases b.len() - self.pos,
        {
            let ghost p: int = self.pos as int;
            let c: u8 = match self.peek() {
                Some(c) => c,
                None => {
                    return Err(
                        LexError {
                            kind: LexErrorKind::UnterminatedString,
                            span: Span { start: start as u32, end: self.pos as u32 },
                        },
                    );
                },
            };
            if c == '\n' as u8 {
                proof {
                    lemma_ascii_at_boundary(b, p);
                }
                return Err(
                    LexError {
                        kind: LexErrorKind::UnterminatedString,
                        span: Span { start: start as u32, end: self.pos as u32 },
                    },
                );
            } else if c == quote || c == '\\' as u8 {
                // flush the run of plain characters before the quote or backslash
                proof {
                    lemma_ascii_at_boundary(b, p);
                }
                let piece = self.slice(run_start, self.pos);
                let ghost before = s@;
                s.append(piece);
                proof {
                    lemma_encode_utf8_concat(before, piece@);
                    assert(encode_utf8(s@) + b.subrange(p, p) =~= encode_utf8(s@));
                    assert(syntax::prepend_bytes(encode_utf8(s@), syntax::string_body(b, quote, p))
                        == body);
                }
                if c == quote {
                    self.bump();
                    proof {
                        assert(encode_utf8(s@) + Seq::<u8>::empty() =~= encode_utf8(s@));
                    }
                    return Ok(TokenKind::Str(s));
                }
                self.bump();
                proof {
                    if p + 1 < b.len() {
                        assert(syntax::string_body(b, quote, p) == syntax::prepend_bytes(
                            seq![syntax::escaped(b[p + 1])],
                            syntax::string_body(b, quote, p + 2),
                        ));
                        lemma_prepend_bytes_assoc(
                            encode_utf8(s@),
                            seq![syntax::escaped(b[p + 1])],
                            syntax::string_body(b, quote, p + 2),
                        );
                    }
                }
                match self.peek() {
                    None => {
                        return Err(
                            LexError {
                                kind: LexErrorKind::UnterminatedString,
                                span: Span { start: start as u32, end: self.pos as u32 },
                            },
                        );
                    },
                    Some(e) => {
                        if e == 'n' as u8 {
                            proof {
                                reveal_strlit("\n");
                                assert("\n"@ =~= seq!['\n']);
                            }
                            self.push_escape(&mut s, "\n", '\n');
                        } else if e == 't' as u8 {
                            proof {
                                reveal_strlit("\t");
                                assert("\t"@ =~= seq!['\t']);
                            }
                            self.push_escape(&mut s, "\t", '\t');
                        } else if e == 'r' as u8 {
                            proof {
                                reveal_strlit("\r");
                                assert("\r"@ =~= seq!['\r']);
                            }
                            self.push_escape(&mut s, "\r", '\r');
                        } else if e == '\\' as u8 {
                            proof {
                                reveal_strlit("\\");
                                assert("\\"@ =~= seq!['\\']);
                            }
                            self.push_escape(&mut s, "\\", '\\');
                        } else if e == '\'' as u8 {
                            proof {
                                reveal_strlit("'");
                                assert("'"@ =~= seq!['\'']);
                            }
                            self.push_escape(&mut s, "'", '\'');
                        } else if e == '"' as u8 {
                            proof {
                                reveal_strlit("\"");
                                assert("\""@ =~= seq!['"']);
                            }
                            self.push_escape(&mut s, "\"", '"');
                        } else if e == '0' as u8 {
                            proof {
                                reveal_strlit("\0");
                                assert("\0"@ =~= seq!['\0']);
                            }
                            self.push_escape(&mut s, "\0", '\0');
                        } else if e == '\n' as u8 {
                            proof {
                                reveal_strlit("\n");
                                assert("\n"@ =~= seq!['\n']);
                            }
                            self.push_escape(&mut s, "\n", '\n');
                        } else {
                            // the escaped character stands for itself: it starts the next run
                            proof {
                                lemma_after_ascii(b, p);
                                assert(syntax::escaped(e) == e);
                            }
                        }
                    },
                }
                run_start = self.pos;
                proof {
                    assert(encode_utf8(s@) + b.subrange(run_start as int, self.pos as int)
                        =~= encode_utf8(s@));
                }
            } else {
                proof {
                    assert(b.subrange(run_start as int, p) + seq![b[p]] =~= b.subrange(
                        run_start as int,
                        p + 1,
                    ));
                    lemma_prepend_bytes_assoc(
                        encode_utf8(s@) + b.subrange(run_start as int, p),
                        seq![b[p]],
                        syntax::string_body(b, quote, p + 1),
                    );
                    assert(encode_utf8(s@) + b.subrange(run_start as int, p + 1) =~= (encode_utf8(
                        s@,
                    ) + b.subrange(run_start as int, p)) + seq![b[p]]);
                }
                self.pos += 1;
            }
        }
    }

    /// Reads the token that starts under the cursor.
    fn scan(&mut self) -> (r: Result<TokenKind, LexError>)
        requires
            old(self).wf(),
            old(self).input().len() <= u32::MAX,
            old(self).position() < old(self).input().len(),
        ensures
            final(self).wf(),
            old(self).position() <= final(self).position(),
            final(self).input() == old(self).input(),
            match (r, syntax::scan_token(old(self).input(), old(self).position())) {
                (Ok(k), Ok((sk, end))) => k@ == sk && final(self).position() == end,
                (Err(e), Err(se)) => e == se && final(self).position() == e.span.end,
                _ => false,
            },
    {
        let ghost b = self.bytes@;
        let start: usize = self.pos;
        let c: u8 = self.bytes[self.pos];
        proof {
            lemma_scan_token_progress(b, start as int);
        }
        if c == '(' as u8 {
            Ok(self.single(TokenKind::LParen))
        } else if c == ')' as u8 {
            Ok(self.single(TokenKind::RParen))
        } else if c == '{' as u8 {
            Ok(self.single(TokenKind::LBrace))
        } else if c == '}' as u8 {
            Ok(self.single(TokenKind::RBrace))
        } else if c == ',' as u8 {
            Ok(self.single(TokenKind::Comma))
        } else if c == ';' as u8 {
            Ok(self.single(TokenKind::Semi))
        } else if c == ':' as u8 {
            Ok(self.single(TokenKind::Colon))
        } else if c == '.' as u8 {
            Ok(self.single(TokenKind::Dot))
        } else if c == '+' as u8 {
            Ok(self.single(TokenKind::Plus))
        } else if c == '-' as u8 {
            Ok(self.single(TokenKind::Minus))
        } else if c == '*' as u8 {
            Ok(self.single(TokenKind::Star))
        } else if c == '/' as u8 {
            Ok(self.single(TokenKind::Slash))
        } else if c == '=' as u8 {
            Ok(self.lex_eq())
        } else if c == '!' as u8 {
            Ok(self.lex_bang())
        } else if c == '<' as u8 {
            Ok(self.lex_lt())
        } else if c == '>' as u8 {
            Ok(self.lex_gt())
        } else if c == '&' as u8 && self.peek_at(1) == Some('&' as u8) {
            self.bump();
            self.bump();
            Ok(TokenKind::AmpAmp)
        } else if c == '|' as u8 && self.peek_at(1) == Some('|' as u8) {
            self.bump();
            self.bump();
            Ok(TokenKind::PipePipe)
        } else if c == '"' as u8 || c == '\'' as u8 {
            self.lex_string(start)
        } else if is_ascii_digit(c) {
            Ok(self.lex_number())
        } else if is_ident_start(c) {
            Ok(self.lex_ident_or_keyword())
        } else {
            let rest = self.slice(start, self.bytes.len());
            proof {
                lemma_slice_valid(b, start as int);
                lemma_first_char(b.subrange(start as int, b.len() as int));
            }
            let ch: char = rest.get_char(0);
            let end: usize = start + len_utf8(ch);
            proof {
                lemma_after_first_char(b, start as int);
            }
            self.pos = end;
            Err(
                LexError {
                    kind: LexErrorKind::UnexpectedChar(ch),
                    span: Span { start: start as u32, end: end as u32 },
                },
            )
        }
    }

    /// Skips trivia, then reads the next token: the end-of-input token once
    /// the input is used up.
    pub fn next_token(&mut self) -> (r: Result<Token, LexError>)
        requires
            old(self).wf(),
            old(self).input().len() <= u32::MAX,
        ensures
            final(self).wf(),
            final(self).input() == old(self).input(),
            old(self).position() <= final(self).position() <= final(self).input().len(),
            at_boundary(final(self).input(), final(self).position()),
            match (r, syntax::next_token(old(self).input(), old(self).position())) {
                (Ok(t), Ok((st, end))) => t@ == st && final(self).position() == end,
                (Err(e), Err(se)) => e == se && final(self).position() == e.span.end,
                _ => false,
            },
    {
        self.skip_trivia();
        let start: usize = self.pos;
        if self.pos >= self.bytes.len() {
            return Ok(
                Token { kind: TokenKind::Eof, span: Span { start: start as u32, end: start as u32 } },
            );
        }
        match self.scan() {
            Ok(kind) => {
                let end: usize = self.pos;
                Ok(Token { kind, span: Span { start: start as u32, end: end as u32 } })
            },
            Err(e) => Err(e),
        }
    }

    /// Reads an identifier or keyword.
    fn lex_ident_or_keyword(&mut self) -> (r: TokenKind)
        requires
            old(self).wf(),
            old(self).position() < old(self).input().len(),
            syntax::ident_start_byte(old(self).input()[old(self).position()]),
        ensures
            final(self).wf(),
            final(self).input() == old(self).input(),
            syntax::scan_token(old(self).input(), old(self).position()) == Ok::<
                (SpecTokenKind, int),
                LexError,
            >((r@, final(self).position())),
    {
        let ghost b = self.bytes@;
        let begin: usize = self.pos;
        let ghost target: int = syntax::ident_end(b, begin as int);
        loop
            invariant
                self.wf(),
                self.bytes@ == b,
                syntax::ident_end(b, self.pos as int) == target,
            ensures
                self.wf(),
                self.bytes@ == b,
                self.pos == target,
            decreases b.len() - self.pos,
        {
            match self.peek() {
                Some(d) => {
                    if is_ident_cont(d) {
                        self.bump();
                    } else {
                        break ;
                    }
                },
                None => break ,
            }
        }
        proof {
            lemma_ident_end(b, begin as int);
        }
        match keyword_kind(&self.bytes[begin..self.pos]) {
            Some(k) => k,
            None => TokenKind::Ident(self.slice(begin, self.pos).to_owned()),
        }
    }
}

/// Whether two byte strings are equal.
fn bytes_eq(a: &[u8], b: &[u8]) -> (r: bool)
    ensures
        r == (a@ == b@),
{
    if a.len() != b.len() {
        return false;
    }
    let mut i: usize = 0;
    while i < a.len()
        invariant
            a@.len() == b@.len(),
            i <= a@.len(),
            forall|k: int| 0 <= k < i ==> a@[k] == b@[k],
        decreases a@.len() - i,
    {
        if a[i] != b[i] {
            return false;
        }
        i = i + 1;
    }
    assert(a@ =~= b@);
    true
}

/// The keyword that `word` spells, if any.
fn keyword_kind(word: &[u8]) -> (r: Option<TokenKind>)
    ensures
        match r {
            Some(k) => syntax::keyword(word@) == Some(k@),
            None => syntax::keyword(word@) is None,
        },
{
    if bytes_eq(word, &['f' as u8, 'u' as u8, 'n' as u8, 'c' as u8, 't' as u8, 'i' as u8, 'o' as u8, 'n' as u8]) {
        Some(TokenKind::Function)
    } else if bytes_eq(word, &['c' as u8, 'o' as u8, 'n' as u8, 's' as u8, 't' as u8]) {
        Some(TokenKind::Const)
    } else if bytes_eq(word, &['l' as u8, 'e' as u8, 't' as u8]) {
        Some(TokenKind::Let)
    } else if bytes_eq(word, &['r' as u8, 'e' as u8, 't' as u8, 'u' as u8, 'r' as u8, 'n' as u8]) {
        Some(TokenKind::Return)
    } else if bytes_eq(word, &['i' as u8, 'f' as u8]) {
        Some(TokenKind::If)
    } else if bytes_eq(word, &['e' as u8, 'l' as u8, 's' as u8, 'e' as u8]) {
        Some(TokenKind::Else)
    } else if bytes_eq(word, &['w' as u8, 'h' as u8, 'i' as u8, 'l' as u8, 'e' as u8]) {
        Some(TokenKind::While)
    } else if bytes_eq(word, &['t' as u8, 'r' as u8, 'u' as u8, 'e' as u8]) {
        Some(TokenKind::True)
    } else if bytes_eq(word, &['f' as u8, 'a' as u8, 'l' as u8, 's' as u8, 'e' as u8]) {
        Some(TokenKind::False)
    } else if bytes_eq(word, &['n' as u8, 'u' as u8, 'l' as u8, 'l' as u8]) {
        Some(TokenKind::Null)
    } else if bytes_eq(
        word,
        &['u' as u8, 'n' as u8, 'd' as u8, 'e' as u8, 'f' as u8, 'i' as u8, 'n' as u8, 'e' as u8, 'd' as u8],
    ) {
        Some(TokenKind::Undefined)
    } else if bytes_eq(word, &['n' as u8, 'u' as u8, 'm' as u8, 'b' as u8, 'e' as u8, 'r' as u8]) {
        Some(TokenKind::NumberKw)
    } else if bytes_eq(word, &['s' as u8, 't' as u8, 'r' as u8, 'i' as u8, 'n' as u8, 'g' as u8]) {
        Some(TokenKind::StringKw)
    } else if bytes_eq(word, &['b' as u8, 'o' as u8, 'o' as u8, 'l' as u8, 'e' as u8, 'a' as u8, 'n' as u8]) {
        Some(TokenKind::BooleanKw)
    } else {
        None
    }
}

/// The number of bytes that `c` takes in UTF-8.
fn len_utf8(c: char) -> (n: usize)
    ensures
        n == encode_scalar(c as u32).len(),
{
    let v: u32 = c as u32;
    if v < 0x80 {
        1
    } else if v < 0x800 {
        2
    } else if v < 0x10000 {
        3
    } else {
        4
    }
}

/// The views of a list of tokens.
pub open spec fn token_views(v: Seq<Token>) -> Seq<SpecToken> {
    v.map_values(|t: Token| t@)
}

/// `rest`, with the tokens `done` read before it in front.
pub open spec fn after_tokens(done: Seq<SpecToken>, rest: Result<Seq<SpecToken>, LexError>) -> Result<
    Seq<SpecToken>,
    LexError,
> {
    match rest {
        Ok(ts) => Ok(done + ts),
        Err(e) => Err(e),
    }
}

/// Splits `src` into tokens, ending with the end-of-input token, or reports the
/// first lexical error.
///
/// Spans are byte offsets into `src`; the source must be at most `u32::MAX`
/// bytes long so that every offset fits in a span.
pub fn lex(src: &str) -> (r: Result<Vec<Token>, LexError>)
    requires
        src.spec_bytes().len() <= u32::MAX,
    ensures
        match (r, syntax::tokens(src.spec_bytes())) {
            (Ok(v), Ok(ts)) => token_views(v@) == ts,
            (Err(e), Err(se)) => e == se,
            _ => false,
        },
{
    let mut lx = Lexer::new(src);
    let mut out: Vec<Token> = Vec::new();
    let ghost b = src.spec_bytes();
    proof {
        assert(token_views(out@) =~= Seq::<SpecToken>::empty());
        assert(after_tokens(Seq::empty(), syntax::tokens_from(b, 0)) =~= syntax::tokens_from(b, 0));
    }
    loop
        invariant
            lx.wf(),
            lx.input() == b,
            b == src.spec_bytes(),
            b.len() <= u32::MAX,
            0 <= lx.position() <= b.len(),
            syntax::tokens(b) == after_tokens(token_views(out@), syntax::tokens_from(b, lx.position())),
        decreases b.len() - lx.position(),
    {
        let ghost pos: int = lx.position();
        proof {
            lemma_next_token_progress(b, pos);
        }
        let tok = match lx.next_token() {
            Ok(t) => t,
            Err(e) => {
                proof {
                    assert(syntax::tokens_from(b, pos) == Err::<Seq<SpecToken>, LexError>(e));
                }
                return Err(e);
            },
        };
        let done: bool = matches!(tok.kind, TokenKind::Eof);
        let ghost before = token_views(out@);
        out.push(tok);
        proof {
            assert(token_views(out@) =~= before + seq![tok@]);
            if done {
                assert(syntax::tokens_from(b, pos) == Ok::<Seq<SpecToken>, LexError>(seq![tok@]));
            } else {
                match syntax::tokens_from(b, lx.position()) {
                    Ok(rest) => {
                        assert(before + (seq![tok@] + rest) =~= (before + seq![tok@]) + rest);
                    },
                    Err(_) => {},
                }
            }
        }
        if done {
            return Ok(out);
        }
    }
}

} // verus!
