//! Facts about the lexical grammar: every step stays inside the input, moves
//! forward, and stops at the start of a character.

use vstd::prelude::*;
use vstd::utf8::*;

use crate::syntax::{
    byte_at, digits_end, ident_cont_byte, ident_end, ident_start_byte, is_digit, is_whitespace,
    next_token, prepend_bytes, scan_token, skip_trivia, string_body, trivia_end, Trivia,
};
use crate::utf8_text::{at_boundary, lemma_after_ascii};

verus! {

pub proof fn lemma_trivia_end_bounds(b: Seq<u8>, p: int, mode: Trivia)
    requires
        0 <= p <= b.len(),
    ensures
        p <= trivia_end(b, p, mode) <= b.len(),
    decreases b.len() - p,
{
    if p < b.len() {
        match mode {
            Trivia::Code => {
                if is_whitespace(b[p]) {
                    lemma_trivia_end_bounds(b, p + 1, Trivia::Code);
                } else if b[p] == '/' as u8 && byte_at(b, p + 1) == Some('/' as u8) {
                    lemma_trivia_end_bounds(b, p + 2, Trivia::LineComment);
                } else if b[p] == '/' as u8 && byte_at(b, p + 1) == Some('*' as u8) {
                    lemma_trivia_end_bounds(b, p + 2, Trivia::BlockComment);
                }
            },
            Trivia::LineComment => {
                if b[p] == '\n' as u8 {
                    lemma_trivia_end_bounds(b, p + 1, Trivia::Code);
                } else {
                    lemma_trivia_end_bounds(b, p + 1, Trivia::LineComment);
                }
            },
            Trivia::BlockComment => {
                if b[p] == '*' as u8 && byte_at(b, p + 1) == Some('/' as u8) {
                    lemma_trivia_end_bounds(b, p + 2, Trivia::Code);
                } else {
                    lemma_trivia_end_bounds(b, p + 1, Trivia::BlockComment);
                }
            },
        }
    }
}

/// Skipping trivia from the start of a character ends at the start of a character.
pub proof fn lemma_trivia_end_boundary(b: Seq<u8>, p: int, mode: Trivia)
    requires
        valid_utf8(b),
        0 <= p <= b.len(),
        mode is Code ==> at_boundary(b, p),
    ensures
        at_boundary(b, trivia_end(b, p, mode)),
    decreases b.len() - p,
{
    if p < b.len() {
        match mode {
            Trivia::Code => {
                if is_whitespace(b[p]) {
                    lemma_after_ascii(b, p);
                    lemma_trivia_end_boundary(b, p + 1, Trivia::Code);
                } else if b[p] == '/' as u8 && byte_at(b, p + 1) == Some('/' as u8) {
                    lemma_trivia_end_boundary(b, p + 2, Trivia::LineComment);
                } else if b[p] == '/' as u8 && byte_at(b, p + 1) == Some('*' as u8) {
                    lemma_trivia_end_boundary(b, p + 2, Trivia::BlockComment);
                }
            },
            Trivia::LineComment => {
                if b[p] == '\n' as u8 {
                    lemma_after_ascii(b, p);
                    lemma_trivia_end_boundary(b, p + 1, Trivia::Code);
                } else {
                    lemma_trivia_end_boundary(b, p + 1, Trivia::LineComment);
                }
            },
            Trivia::BlockComment => {
                if b[p] == '*' as u8 && byte_at(b, p + 1) == Some('/' as u8) {
                    lemma_after_ascii(b, p + 1);
                    lemma_trivia_end_boundary(b, p + 2, Trivia::Code);
                } else {
                    lemma_trivia_end_boundary(b, p + 1, Trivia::BlockComment);
                }
            },
        }
    }
}

pub proof fn lemma_digits_end(b: Seq<u8>, p: int)
    requires
        0 <= p <= b.len(),
    ensures
        p <= digits_end(b, p) <= b.len(),
        forall|i: int| p <= i < digits_end(b, p) ==> is_digit(#[trigger] b[i]),
        digits_end(b, p) < b.len() ==> !is_digit(b[digits_end(b, p)]),
    decreases b.len() - p,
{
    if p < b.len() && is_digit(b[p]) {
        lemma_digits_end(b, p + 1);
    }
}

pub proof fn lemma_ident_end(b: Seq<u8>, p: int)
    requires
        0 <= p <= b.len(),
    ensures
        p <= ident_end(b, p) <= b.len(),
        forall|i: int| p <= i < ident_end(b, p) ==> ident_cont_byte(#[trigger] b[i]),
        ident_end(b, p) < b.len() ==> !ident_cont_byte(b[ident_end(b, p)]),
    decreases b.len() - p,
{
    if p < b.len() && ident_cont_byte(b[p]) {
        lemma_ident_end(b, p + 1);
    }
}

/// A string body that closes ends just past a closing quote, inside the input.
pub proof fn lemma_string_body_end(b: Seq<u8>, quote: u8, p: int)
    requires
        0 <= p <= b.len(),
    ensures
        string_body(b, quote, p) matches Ok((_, end)) ==> p < end <= b.len() && b[end - 1] == quote,
        string_body(b, quote, p) matches Err(end) ==> p <= end <= b.len(),
    decreases b.len() - p,
{
    if p < b.len() && b[p] != '\n' as u8 && b[p] != quote {
        if b[p] == '\\' as u8 {
            if p + 1 < b.len() {
                lemma_string_body_end(b, quote, p + 2);
            }
        } else {
            lemma_string_body_end(b, quote, p + 1);
        }
    }
}

/// A token read at `p` lies inside the input, is not empty unless it is the
/// end-of-input token, and ends at the start of a character.
pub proof fn lemma_scan_token_progress(b: Seq<u8>, p: int)
    requires
        0 <= p <= b.len(),
    ensures
        scan_token(b, p) matches Ok((kind, end)) ==> {
            &&& p <= end <= b.len()
            &&& (kind is Eof <==> end == p)
            &&& (kind is Eof <==> p == b.len())
            &&& (valid_utf8(b) ==> at_boundary(b, end))
        },
{
    if p < b.len() {
        let c: u8 = b[p];
        lemma_digits_end(b, p);
        lemma_ident_end(b, p);
        if c == '"' as u8 || c == '\'' as u8 {
            lemma_string_body_end(b, c, p + 1);
            if let Ok((_, end)) = string_body(b, c, p + 1) {
                if valid_utf8(b) {
                    lemma_after_ascii(b, end - 1);
                }
            }
        } else if is_digit(c) {
            let e: int = digits_end(b, p);
            if byte_at(b, e) == Some('.' as u8) && byte_at(b, e + 1) is Some && is_digit(
                byte_at(b, e + 1)->0,
            ) {
                lemma_digits_end(b, e + 1);
                if valid_utf8(b) {
                    lemma_after_ascii(b, digits_end(b, e + 1) - 1);
                }
            } else {
                lemma_digits_end(b, p + 1);
                assert(e > p);
                assert(is_digit(b[e - 1]));
                if valid_utf8(b) {
                    lemma_after_ascii(b, e - 1);
                }
            }
        } else if ident_start_byte(c) {
            let e: int = ident_end(b, p);
            lemma_ident_end(b, p + 1);
            assert(e > p);
            assert(ident_cont_byte(b[e - 1]));
            if valid_utf8(b) {
                lemma_after_ascii(b, e - 1);
            }
        } else if c < 0x80 {
            if valid_utf8(b) {
                lemma_after_ascii(b, p);
            }
            if p + 1 < b.len() && b[p + 1] < 0x80 {
                if valid_utf8(b) {
                    lemma_after_ascii(b, p + 1);
                }
            }
            if p + 2 < b.len() && b[p + 2] < 0x80 {
                if valid_utf8(b) {
                    lemma_after_ascii(b, p + 2);
                }
            }
        }
    }
}

} // verus!

verus! {

/// A step of the lexer stays inside the input and, unless it reaches the end
/// of input, moves forward.
pub proof fn lemma_next_token_progress(b: Seq<u8>, pos: int)
    requires
        0 <= pos <= b.len(),
    ensures
        next_token(b, pos) matches Ok((t, end)) ==> {
            &&& pos <= skip_trivia(b, pos) <= end <= b.len()
            &&& (t.kind is Eof <==> end == skip_trivia(b, pos))
            &&& (t.kind is Eof <==> skip_trivia(b, pos) == b.len())
            &&& (!(t.kind is Eof) ==> pos < end)
            &&& (valid_utf8(b) ==> at_boundary(b, end))
        },
{
    lemma_trivia_end_bounds(b, pos, Trivia::Code);
    lemma_scan_token_progress(b, skip_trivia(b, pos));
}

/// Bytes put in front one after the other are the same as put in front together.
pub proof fn lemma_prepend_bytes_assoc(x: Seq<u8>, y: Seq<u8>, r: Result<(Seq<u8>, int), int>)
    ensures
        prepend_bytes(x, prepend_bytes(y, r)) == prepend_bytes(x + y, r),
{
    if let Ok((content, end)) = r {
        assert(x + (y + content) =~= (x + y) + content);
    }
}

} // verus!
