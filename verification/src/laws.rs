//! Laws of the lexer, stated over the grammar in [`crate::syntax`] that
//! [`crate::lexer::lex`] is proved to follow.

use vstd::prelude::*;
use vstd::utf8::*;

use crate::scan_facts::{
    lemma_digits_end, lemma_ident_end, lemma_next_token_progress, lemma_string_body_end,
    lemma_trivia_end_bounds, lemma_trivia_end_boundary,
};
use crate::syntax::{
    digits_end, ident_cont_byte, is_digit, keyword, next_token, number_end, scan_token,
    skip_trivia, span, string_body, text, tokens, tokens_from, Trivia,
};
use crate::token::{LexError, LexErrorKind, SpecToken, SpecTokenKind};
use crate::utf8_text::{at_boundary, lemma_first_char, lemma_slice_valid, lemma_start_at_boundary};

verus! {

/// The token `t` is what the grammar reads at the start of its span, and it
/// ends where its span ends.
pub open spec fn read_at_span(b: Seq<u8>, t: SpecToken) -> bool {
    scan_token(b, t.span.start as int) == Ok::<(SpecTokenKind, int), LexError>(
        (t.kind, t.span.end as int),
    )
}

/// The shape of every token list read from `pos` on.
pub open spec fn well_formed_tokens(b: Seq<u8>, pos: int, ts: Seq<SpecToken>) -> bool {
    &&& ts.len() > 0
    &&& ts.last().kind is Eof
    &&& ts.last().span == span(b.len() as int, b.len() as int)
    &&& forall|i: int| 0 <= i < ts.len() - 1 ==> !(#[trigger] ts[i].kind is Eof)
    &&& ts[0].span.start == skip_trivia(b, pos)
    &&& forall|i: int|
        0 <= i < ts.len() ==> skip_trivia(b, pos) <= #[trigger] ts[i].span.start
            <= ts[i].span.end <= b.len()
    &&& forall|i: int, j: int|
        #![trigger ts[i], ts[j]]
        0 <= i < j < ts.len() ==> ts[i].span.end <= ts[j].span.start
    &&& forall|i: int|
        0 < i < ts.len() ==> #[trigger] ts[i].span.start == skip_trivia(
            b,
            ts[i - 1].span.end as int,
        )
    &&& forall|i: int| 0 <= i < ts.len() ==> read_at_span(b, #[trigger] ts[i])
    &&& forall|i: int|
        0 <= i < ts.len() ==> !(#[trigger] ts[i].kind is Eof) ==> ts[i].span.start
            < ts[i].span.end
}

/// The shape of the tokens read from `pos` on, and where an error comes from.
pub proof fn lemma_tokens_from_shape(b: Seq<u8>, pos: int)
    requires
        b.len() <= u32::MAX,
        0 <= pos <= b.len(),
    ensures
        tokens_from(b, pos) matches Ok(ts) ==> well_formed_tokens(b, pos, ts),
        tokens_from(b, pos) matches Err(e) ==> exists|p: int|
            skip_trivia(b, pos) <= p <= b.len() && (valid_utf8(b) && at_boundary(b, pos) ==> at_boundary(b, p))
                && #[trigger] scan_token(b, p) == Err::<(SpecTokenKind, int), LexError>(e),
    decreases b.len() - pos,
{
    lemma_next_token_progress(b, pos);
    lemma_trivia_end_bounds(b, pos, Trivia::Code);
    if valid_utf8(b) && at_boundary(b, pos) {
        lemma_trivia_end_boundary(b, pos, Trivia::Code);
    }
    let p: int = skip_trivia(b, pos);
    match next_token(b, pos) {
        Err(e) => {
            assert(scan_token(b, p) == Err::<(SpecTokenKind, int), LexError>(e));
        },
        Ok((t, end)) => {
            if t.kind is Eof {
                let ts = seq![t];
                assert(ts.last() == t);
            } else {
                lemma_tokens_from_shape(b, end);
                lemma_trivia_end_bounds(b, end, Trivia::Code);
                match tokens_from(b, end) {
                    Ok(rest) => {
                        let ts = seq![t] + rest;
                        assert(tokens_from(b, pos) == Ok::<Seq<SpecToken>, LexError>(ts));
                        assert(ts.last() == rest.last());
                        // every later token is a token of `rest`, one place on
                        assert forall|i: int| 0 < i < ts.len() implies #[trigger] ts[i] == rest[i
                            - 1] by {}
                        assert(well_formed_tokens(b, pos, ts));
                    },
                    Err(e) => {
                        let q: int = choose|q: int|
                            skip_trivia(b, end) <= q <= b.len() && (valid_utf8(b) && at_boundary(b, end)
                                ==> at_boundary(b, q)) && #[trigger] scan_token(b, q) == Err::<
                                (SpecTokenKind, int),
                                LexError,
                            >(e);
                        assert(pos <= q);
                    },
                }
            }
        },
    }
}

/// A string body that fails to close stops at a newline or at the end of input.
proof fn lemma_string_body_error(b: Seq<u8>, quote: u8, p: int)
    requires
        0 <= p <= b.len(),
    ensures
        string_body(b, quote, p) matches Err(end) ==> end >= b.len() || (0 <= end < b.len()
            && b[end] == '\n' as u8),
    decreases b.len() - p,
{
    if p < b.len() && b[p] != '\n' as u8 && b[p] != quote {
        if b[p] == '\\' as u8 {
            if p + 1 < b.len() {
                lemma_string_body_error(b, quote, p + 2);
            }
        } else {
            lemma_string_body_error(b, quote, p + 1);
        }
    }
}

/// What the tokens that carry text are made of.
proof fn lemma_scan_ok(b: Seq<u8>, p: int)
    requires
        0 <= p <= b.len(),
    ensures
        scan_token(b, p) matches Ok((SpecTokenKind::Ident(name), e)) ==> {
            &&& name == text(b, p, e)
            &&& keyword(b.subrange(p, e)) is None
            &&& forall|k: int| p <= k < e ==> ident_cont_byte(#[trigger] b[k])
        },
        scan_token(b, p) matches Ok((SpecTokenKind::Number(t), e)) ==> {
            &&& t == text(b, p, e)
            &&& is_digit(b[p])
            &&& is_digit(b[e - 1])
        },
        scan_token(b, p) matches Ok((SpecTokenKind::Str(_), e)) ==> {
            &&& p + 2 <= e
            &&& (b[p] == '"' as u8 || b[p] == '\'' as u8)
            &&& b[e - 1] == b[p]
        },
{
    if p < b.len() {
        lemma_ident_end(b, p);
        lemma_digits_end(b, p);
        let c: u8 = b[p];
        if c == '"' as u8 || c == '\'' as u8 {
            lemma_string_body_end(b, c, p + 1);
        }
        let d: int = digits_end(b, p);
        if is_digit(c) {
            lemma_digits_end(b, p + 1);
            if d + 1 <= b.len() {
                lemma_digits_end(b, d + 1);
            }
            if number_end(b, p) != d {
                lemma_digits_end(b, d + 2);
                assert(is_digit(b[d + 1]));
            }
        }
    }
}

/// What an error reported at `p` says about the source there.
proof fn lemma_scan_err(b: Seq<u8>, p: int)
    requires
        valid_utf8(b),
        b.len() <= u32::MAX,
        0 <= p <= b.len(),
        at_boundary(b, p),
    ensures
        scan_token(b, p) matches Err(e) ==> {
            &&& p < b.len()
            &&& e.span.start == p
            &&& p < e.span.end <= b.len()
            &&& match e.kind {
                LexErrorKind::UnexpectedChar(c) => e.span.end <= b.len() && text(
                    b,
                    p,
                    e.span.end as int,
                ) == seq![c],
                LexErrorKind::UnterminatedString => {
                    &&& (b[p] == '"' as u8 || b[p] == '\'' as u8)
                    &&& (e.span.end >= b.len() || b[e.span.end as int] == '\n' as u8)
                },
                LexErrorKind::InvalidNumber => false,
            }
        },
{
    if p < b.len() {
        let c: u8 = b[p];
        if c == '"' as u8 || c == '\'' as u8 {
            lemma_string_body_end(b, c, p + 1);
            lemma_string_body_error(b, c, p + 1);
        }
        if let Err(e) = scan_token(b, p) {
            if let LexErrorKind::UnexpectedChar(ch) = e.kind {
                let rest = b.subrange(p, b.len() as int);
                lemma_slice_valid(b, p);
                lemma_first_char(rest);
                decode_utf8_first_scalar(rest);
                let n: int = length_of_first_scalar(rest);
                assert(take_first_scalar(rest) =~= b.subrange(p, p + n));
                let one = seq![ch];
                assert(one.drop_first() =~= Seq::<char>::empty());
                assert(encode_utf8(one.drop_first()) =~= Seq::<u8>::empty());
                assert(encode_utf8(one) =~= encode_scalar(ch as u32));
                encode_utf8_decode_utf8(one);
            }
        }
    }
}

/// Lexing succeeds with a list that ends with the end-of-input token, whose
/// span is the empty span at the end of the source; no earlier token is the
/// end-of-input token.
pub proof fn law_single_eof_at_end(b: Seq<u8>)
    requires
        b.len() <= u32::MAX,
    ensures
        tokens(b) matches Ok(ts) ==> {
            &&& ts.len() > 0
            &&& ts.last().kind is Eof
            &&& ts.last().span == span(b.len() as int, b.len() as int)
            &&& forall|i: int| 0 <= i < ts.len() - 1 ==> !(#[trigger] ts[i].kind is Eof)
        },
{
    lemma_tokens_from_shape(b, 0);
}

/// Token spans lie within the source, in order and without overlapping; every
/// token except the end-of-input token covers at least one byte.
pub proof fn law_spans_ordered(b: Seq<u8>)
    requires
        b.len() <= u32::MAX,
    ensures
        tokens(b) matches Ok(ts) ==> {
            &&& forall|i: int|
                0 <= i < ts.len() ==> #[trigger] ts[i].span.start <= ts[i].span.end <= b.len()
            &&& forall|i: int, j: int|
                #![trigger ts[i], ts[j]]
                0 <= i < j < ts.len() ==> ts[i].span.end <= ts[j].span.start
            &&& forall|i: int|
                0 <= i < ts.len() ==> !(#[trigger] ts[i].kind is Eof) ==> ts[i].span.start
                    < ts[i].span.end
        },
{
    lemma_tokens_from_shape(b, 0);
}

/// Only whitespace and comments come before the first token and between one
/// token and the next.
pub proof fn law_trivia_between_tokens(b: Seq<u8>)
    requires
        b.len() <= u32::MAX,
    ensures
        tokens(b) matches Ok(ts) ==> {
            &&& ts[0].span.start == skip_trivia(b, 0)
            &&& forall|i: int|
                0 < i < ts.len() ==> #[trigger] ts[i].span.start == skip_trivia(
                    b,
                    ts[i - 1].span.end as int,
                )
        },
{
    lemma_tokens_from_shape(b, 0);
}

/// Every token is what the grammar reads at the start of its span, and it ends
/// where its span ends: a token depends only on the source from its start on.
pub proof fn law_tokens_read_at_spans(b: Seq<u8>)
    requires
        b.len() <= u32::MAX,
    ensures
        tokens(b) matches Ok(ts) ==> forall|i: int|
            0 <= i < ts.len() ==> read_at_span(b, #[trigger] ts[i]),
{
    lemma_tokens_from_shape(b, 0);
}

/// Identifiers and numeric literals carry exactly the source text of their
/// spans; an identifier is made of identifier characters and is never a
/// keyword; a string literal's span runs from its opening quote to the same
/// quote closing it.
pub proof fn law_token_text(b: Seq<u8>)
    requires
        b.len() <= u32::MAX,
    ensures
        tokens(b) matches Ok(ts) ==> forall|i: int|
            0 <= i < ts.len() ==> {
                let t = #[trigger] ts[i];
                let (start, end) = (t.span.start as int, t.span.end as int);
                &&& t.kind matches SpecTokenKind::Ident(name) ==> {
                    &&& name == text(b, start, end)
                    &&& keyword(b.subrange(start, end)) is None
                    &&& forall|k: int| start <= k < end ==> ident_cont_byte(#[trigger] b[k])
                }
                &&& t.kind matches SpecTokenKind::Number(digits) ==> digits == text(b, start, end)
                &&& t.kind matches SpecTokenKind::Str(_) ==> {
                    &&& start + 2 <= end
                    &&& (b[start] == '"' as u8 || b[start] == '\'' as u8)
                    &&& b[end - 1] == b[start]
                }
            },
{
    lemma_tokens_from_shape(b, 0);
    if let Ok(ts) = tokens(b) {
        assert forall|i: int| 0 <= i < ts.len() implies {
            let t = #[trigger] ts[i];
            let (start, end) = (t.span.start as int, t.span.end as int);
            &&& t.kind matches SpecTokenKind::Ident(name) ==> {
                &&& name == text(b, start, end)
                &&& keyword(b.subrange(start, end)) is None
                &&& forall|k: int| start <= k < end ==> ident_cont_byte(#[trigger] b[k])
            }
            &&& t.kind matches SpecTokenKind::Number(digits) ==> digits == text(b, start, end)
            &&& t.kind matches SpecTokenKind::Str(_) ==> {
                &&& start + 2 <= end
                &&& (b[start] == '"' as u8 || b[start] == '\'' as u8)
                &&& b[end - 1] == b[start]
            }
        } by {
            assert(read_at_span(b, ts[i]));
            lemma_scan_ok(b, ts[i].span.start as int);
        }
    }
}

/// A source lexes to the end-of-input token alone exactly when it holds
/// nothing but whitespace and comments.
pub proof fn law_trivia_only_source(b: Seq<u8>)
    requires
        b.len() <= u32::MAX,
    ensures
        tokens(b) == Ok::<Seq<SpecToken>, LexError>(
            seq![SpecToken { kind: SpecTokenKind::Eof, span: span(b.len() as int, b.len() as int) }],
        ) <==> skip_trivia(b, 0) == b.len(),
{
    lemma_tokens_from_shape(b, 0);
    lemma_trivia_end_bounds(b, 0, Trivia::Code);
    lemma_next_token_progress(b, 0);
    if skip_trivia(b, 0) == b.len() {
        assert(tokens(b) == Ok::<Seq<SpecToken>, LexError>(
            seq![SpecToken { kind: SpecTokenKind::Eof, span: span(b.len() as int, b.len() as int) }],
        ));
    }
}

/// Lexing never reports an invalid number. An unexpected-character error
/// spans exactly the bytes of that character. An unterminated-string error
/// spans from the opening quote to the newline or the end of input that came
/// before any closing quote.
pub proof fn law_errors(b: Seq<u8>)
    requires
        valid_utf8(b),
        b.len() <= u32::MAX,
    ensures
        tokens(b) matches Err(e) ==> {
            let (start, end) = (e.span.start as int, e.span.end as int);
            &&& start < b.len()
            &&& start < end <= b.len()
            &&& match e.kind {
                LexErrorKind::UnexpectedChar(c) => end <= b.len() && text(b, start, end) == seq![c],
                LexErrorKind::UnterminatedString => {
                    &&& (b[start] == '"' as u8 || b[start] == '\'' as u8)
                    &&& (end >= b.len() || b[end] == '\n' as u8)
                },
                LexErrorKind::InvalidNumber => false,
            }
        },
{
    lemma_start_at_boundary(b);
    lemma_tokens_from_shape(b, 0);
    if let Err(e) = tokens(b) {
        let p: int = choose|p: int|
            skip_trivia(b, 0) <= p <= b.len() && (valid_utf8(b) && at_boundary(b, 0) ==> at_boundary(b, p))
                && #[trigger] scan_token(b, p) == Err::<(SpecTokenKind, int), LexError>(e);
        lemma_scan_err(b, p);
    }
}

/// Once the end-of-input token has been read, the next step reads the same
/// end-of-input token again and stays where it is.
pub proof fn law_eof_repeats(b: Seq<u8>, pos: int)
    requires
        0 <= pos <= b.len(),
    ensures
        next_token(b, pos) matches Ok((t, end)) ==> (t.kind is Eof ==> next_token(b, end)
            == Ok::<(SpecToken, int), LexError>((t, end))),
{
    lemma_next_token_progress(b, pos);
}

} // verus!
