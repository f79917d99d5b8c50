//! Laws on what each kind of token is made of, stated over the source bytes
//! themselves.

use vstd::prelude::*;
use vstd::utf8::*;

use crate::laws::{lemma_tokens_from_shape, read_at_span};
use crate::scan_facts::{
    lemma_digits_end, lemma_ident_end, lemma_next_token_progress, lemma_prepend_bytes_assoc,
    lemma_string_body_end, lemma_trivia_end_bounds,
};
use crate::syntax::{
    digits_end, ident_end, ident_start_byte, next_token, prepend_bytes, scan_token, skip_trivia,
    keyword, span, string_body, tokens, tokens_from, trivia_end, word_kind, Trivia,
};
use crate::token::{LexError, SpecToken, SpecTokenKind};
use crate::utf8_text::at_boundary;

verus! {

/// An ASCII letter or digit, `_` or `$`.
pub open spec fn is_word_byte(c: u8) -> bool {
    ('a' as u8 <= c <= 'z' as u8) || ('A' as u8 <= c <= 'Z' as u8) || ('0' as u8 <= c <= '9' as u8)
        || c == '_' as u8 || c == '$' as u8
}

/// An ASCII decimal digit.
pub open spec fn is_decimal_digit(c: u8) -> bool {
    '0' as u8 <= c <= '9' as u8
}

/// Identifiers and keywords are the tokens read from a word.
pub open spec fn is_word_token(k: SpecTokenKind) -> bool {
    ||| k is Ident
    ||| k is Function
    ||| k is Const
    ||| k is Let
    ||| k is Return
    ||| k is If
    ||| k is Else
    ||| k is While
    ||| k is True
    ||| k is False
    ||| k is Null
    ||| k is Undefined
    ||| k is NumberKw
    ||| k is StringKw
    ||| k is BooleanKw
}

/// A word token read at `p` covers the maximal run of word bytes from `p`,
/// which starts with a byte that is not a digit.
proof fn lemma_scan_word(b: Seq<u8>, p: int)
    requires
        0 <= p <= b.len(),
    ensures
        scan_token(b, p) matches Ok((k, e)) ==> is_word_token(k) ==> {
            &&& p < e
            &&& ident_start_byte(b[p])
            &&& e == ident_end(b, p)
            &&& forall|i: int| p <= i < e ==> is_word_byte(#[trigger] b[i])
            &&& (e == b.len() || !is_word_byte(b[e]))
            &&& k == word_kind(b, p, e)
        },
{
    if p < b.len() {
        lemma_ident_end(b, p);
        lemma_ident_end(b, p + 1);
    }
}

/// A number token read at `p`: digits, then one `.` and more digits when a
/// digit follows the `.`, as far as the digits go.
proof fn lemma_scan_number(b: Seq<u8>, p: int)
    requires
        0 <= p <= b.len(),
    ensures
        scan_token(b, p) matches Ok((k, e)) ==> k is Number ==> {
            &&& p < e
            &&& is_decimal_digit(b[p])
            &&& forall|i: int|
                p <= i < e ==> is_decimal_digit(#[trigger] b[i]) || (b[i] == '.' as u8 && p < i
                    && i + 1 < e && is_decimal_digit(b[i + 1]))
            &&& forall|i: int, j: int|
                #![trigger b[i], b[j]]
                p <= i < e && p <= j < e && b[i] == '.' as u8 && b[j] == '.' as u8 ==> i == j
            &&& (e == b.len() || !is_decimal_digit(b[e]))
            &&& (forall|i: int| p <= i < e ==> #[trigger] b[i] != '.' as u8) ==> !(e + 1 < b.len()
                && b[e] == '.' as u8 && is_decimal_digit(b[e + 1]))
        },
{
    if p < b.len() {
        lemma_digits_end(b, p);
        lemma_digits_end(b, p + 1);
        let d: int = digits_end(b, p);
        if d + 1 <= b.len() {
            lemma_digits_end(b, d + 1);
        }
        if d + 2 <= b.len() {
            lemma_digits_end(b, d + 2);
        }
    }
}

/// An identifier token covers a maximal run of ASCII letters, digits, `_` and
/// `$` that does not begin with a digit: a `.` or any other byte ends it.
pub proof fn law_identifier_bytes(b: Seq<u8>)
    requires
        b.len() <= u32::MAX,
    ensures
        tokens(b) matches Ok(ts) ==> forall|i: int|
            0 <= i < ts.len() && (#[trigger] ts[i]).kind is Ident ==> {
                let (s, e) = (ts[i].span.start as int, ts[i].span.end as int);
                &&& s < e
                &&& !is_decimal_digit(b[s])
                &&& forall|k: int| s <= k < e ==> is_word_byte(#[trigger] b[k])
                &&& (e == b.len() || !is_word_byte(b[e]))
            },
{
    lemma_tokens_from_shape(b, 0);
    if let Ok(ts) = tokens(b) {
        assert forall|i: int| 0 <= i < ts.len() && (#[trigger] ts[i]).kind is Ident implies {
            let (s, e) = (ts[i].span.start as int, ts[i].span.end as int);
            &&& s < e
            &&& !is_decimal_digit(b[s])
            &&& forall|k: int| s <= k < e ==> is_word_byte(#[trigger] b[k])
            &&& (e == b.len() || !is_word_byte(b[e]))
        } by {
            assert(read_at_span(b, ts[i]));
            lemma_scan_word(b, ts[i].span.start as int);
        }
    }
}

/// The spelling of each keyword token; `None` for tokens that are not keywords.
pub open spec fn keyword_spelling(k: SpecTokenKind) -> Option<Seq<u8>> {
    match k {
        SpecTokenKind::Function => Some(
            seq!['f' as u8, 'u' as u8, 'n' as u8, 'c' as u8, 't' as u8, 'i' as u8, 'o' as u8, 'n' as u8],
        ),
        SpecTokenKind::Const => Some(seq!['c' as u8, 'o' as u8, 'n' as u8, 's' as u8, 't' as u8]),
        SpecTokenKind::Let => Some(seq!['l' as u8, 'e' as u8, 't' as u8]),
        SpecTokenKind::Return => Some(
            seq!['r' as u8, 'e' as u8, 't' as u8, 'u' as u8, 'r' as u8, 'n' as u8],
        ),
        SpecTokenKind::If => Some(seq!['i' as u8, 'f' as u8]),
        SpecTokenKind::Else => Some(seq!['e' as u8, 'l' as u8, 's' as u8, 'e' as u8]),
        SpecTokenKind::While => Some(seq!['w' as u8, 'h' as u8, 'i' as u8, 'l' as u8, 'e' as u8]),
        SpecTokenKind::True => Some(seq!['t' as u8, 'r' as u8, 'u' as u8, 'e' as u8]),
        SpecTokenKind::False => Some(seq!['f' as u8, 'a' as u8, 'l' as u8, 's' as u8, 'e' as u8]),
        SpecTokenKind::Null => Some(seq!['n' as u8, 'u' as u8, 'l' as u8, 'l' as u8]),
        SpecTokenKind::Undefined => Some(
            seq![
                'u' as u8, 'n' as u8, 'd' as u8, 'e' as u8, 'f' as u8, 'i' as u8, 'n' as u8, 'e' as u8, 'd' as u8,
            ],
        ),
        SpecTokenKind::NumberKw => Some(
            seq!['n' as u8, 'u' as u8, 'm' as u8, 'b' as u8, 'e' as u8, 'r' as u8],
        ),
        SpecTokenKind::StringKw => Some(
            seq!['s' as u8, 't' as u8, 'r' as u8, 'i' as u8, 'n' as u8, 'g' as u8],
        ),
        SpecTokenKind::BooleanKw => Some(
            seq!['b' as u8, 'o' as u8, 'o' as u8, 'l' as u8, 'e' as u8, 'a' as u8, 'n' as u8],
        ),
        _ => None,
    }
}

proof fn lemma_keyword_spelled(w: Seq<u8>)
    ensures
        keyword(w) matches Some(k) ==> keyword_spelling(k) == Some(w),
{
}

/// A keyword token's span holds exactly that keyword's spelling (so a longer
/// word that merely begins with a keyword is not a keyword), and a word token
/// whose bytes spell no keyword is an identifier.
pub proof fn law_keyword_spelling(b: Seq<u8>)
    requires
        b.len() <= u32::MAX,
    ensures
        tokens(b) matches Ok(ts) ==> forall|i: int|
            0 <= i < ts.len() ==> (keyword_spelling((#[trigger] ts[i]).kind) matches Some(w) ==> b.subrange(
                ts[i].span.start as int,
                ts[i].span.end as int,
            ) == w),
{
    lemma_tokens_from_shape(b, 0);
    if let Ok(ts) = tokens(b) {
        assert forall|i: int| 0 <= i < ts.len() implies (keyword_spelling(
            (#[trigger] ts[i]).kind,
        ) matches Some(w) ==> b.subrange(ts[i].span.start as int, ts[i].span.end as int) == w) by {
            let (s, e) = (ts[i].span.start as int, ts[i].span.end as int);
            assert(read_at_span(b, ts[i]));
            lemma_scan_word(b, s);
            lemma_keyword_spelled(b.subrange(s, e));
            if keyword_spelling(ts[i].kind) is Some {
                assert(is_word_token(ts[i].kind));
            }
        }
    }
}

/// A number token is a run of ASCII digits, then a `.` and a second run of
/// digits only when a digit follows the `.`, and it takes in all the digits
/// there are: a digit run followed by `.` and a digit is never cut before the `.`.
pub proof fn law_number_bytes(b: Seq<u8>)
    requires
        b.len() <= u32::MAX,
    ensures
        tokens(b) matches Ok(ts) ==> forall|t: int|
            0 <= t < ts.len() && (#[trigger] ts[t]).kind is Number ==> {
                let (s, e) = (ts[t].span.start as int, ts[t].span.end as int);
                &&& s < e
                &&& is_decimal_digit(b[s])
                &&& forall|i: int|
                    s <= i < e ==> is_decimal_digit(#[trigger] b[i]) || (b[i] == '.' as u8 && s < i
                        && i + 1 < e && is_decimal_digit(b[i + 1]))
                &&& forall|i: int, j: int|
                    #![trigger b[i], b[j]]
                    s <= i < e && s <= j < e && b[i] == '.' as u8 && b[j] == '.' as u8 ==> i == j
                &&& (e == b.len() || !is_decimal_digit(b[e]))
                &&& (forall|i: int| s <= i < e ==> #[trigger] b[i] != '.' as u8) ==> !(e + 1
                    < b.len() && b[e] == '.' as u8 && is_decimal_digit(b[e + 1]))
            },
{
    lemma_tokens_from_shape(b, 0);
    if let Ok(ts) = tokens(b) {
        assert forall|t: int| 0 <= t < ts.len() && (#[trigger] ts[t]).kind is Number implies {
            let (s, e) = (ts[t].span.start as int, ts[t].span.end as int);
            &&& s < e
            &&& is_decimal_digit(b[s])
            &&& forall|i: int|
                s <= i < e ==> is_decimal_digit(#[trigger] b[i]) || (b[i] == '.' as u8 && s < i
                    && i + 1 < e && is_decimal_digit(b[i + 1]))
            &&& forall|i: int, j: int|
                #![trigger b[i], b[j]]
                s <= i < e && s <= j < e && b[i] == '.' as u8 && b[j] == '.' as u8 ==> i == j
            &&& (e == b.len() || !is_decimal_digit(b[e]))
            &&& (forall|i: int| s <= i < e ==> #[trigger] b[i] != '.' as u8) ==> !(e + 1 < b.len()
                && b[e] == '.' as u8 && is_decimal_digit(b[e + 1]))
        } by {
            assert(read_at_span(b, ts[t]));
            lemma_scan_number(b, ts[t].span.start as int);
        }
    }
}

/// The source `/*` + `w` + `*/` + `r`.
pub open spec fn block_comment_then(w: Seq<u8>, r: Seq<u8>) -> Seq<u8> {
    seq!['/' as u8, '*' as u8] + w + seq!['*' as u8, '/' as u8] + r
}

/// `w` holds no `*/`.
pub open spec fn no_comment_close(w: Seq<u8>) -> bool {
    forall|k: int| 0 <= k < w.len() - 1 ==> !(#[trigger] w[k] == '*' as u8 && w[k + 1] == '/' as u8)
}

proof fn lemma_inside_block_comment(w: Seq<u8>, r: Seq<u8>, k: int)
    requires
        no_comment_close(w),
        0 <= k <= w.len(),
    ensures
        trivia_end(block_comment_then(w, r), 2 + k, Trivia::BlockComment) == trivia_end(
            block_comment_then(w, r),
            w.len() + 4 as int,
            Trivia::Code,
        ),
    decreases w.len() - k,
{
    let b = block_comment_then(w, r);
    let p: int = 2 + k;
    if k == w.len() {
        assert(b[p] == '*' as u8 && b[p + 1] == '/' as u8);
    } else {
        assert(b[p] == w[k]);
        if k + 1 < w.len() {
            assert(b[p + 1] == w[k + 1]);
        } else {
            assert(b[p + 1] == '*' as u8);
        }
        lemma_inside_block_comment(w, r, k + 1);
    }
}

/// The start of an error read at `p` is `p`.
proof fn lemma_scan_err_start(b: Seq<u8>, p: int)
    requires
        0 <= p <= b.len() <= u32::MAX,
    ensures
        scan_token(b, p) matches Err(e) ==> e.span.start == p,
{
}

/// A block comment is skipped whole, newlines and all: in `/*` + `w` + `*/` +
/// `r`, where `w` holds no `*/`, the first token, or the first error, starts
/// after the closing `*/`.
pub proof fn law_block_comment_skipped(w: Seq<u8>, r: Seq<u8>)
    requires
        no_comment_close(w),
        block_comment_then(w, r).len() <= u32::MAX,
    ensures
        tokens(block_comment_then(w, r)) matches Ok(ts) ==> ts[0].span.start >= w.len() + 4,
        tokens(block_comment_then(w, r)) matches Err(e) ==> e.span.start >= w.len() + 4,
        r.len() > 0 && is_letter_byte(r[0]) ==> (tokens(block_comment_then(w, r)) matches Ok(ts)
            ==> ts[0].span.start == w.len() + 4),
{
    let b = block_comment_then(w, r);
    lemma_inside_block_comment(w, r, 0);
    lemma_trivia_end_bounds(b, w.len() + 4 as int, Trivia::Code);
    assert(b[0] == '/' as u8 && b[1] == '*' as u8);
    assert(skip_trivia(b, 0) == trivia_end(b, 2, Trivia::BlockComment));
    if r.len() > 0 && is_letter_byte(r[0]) {
        assert(b[w.len() + 4int] == r[0]);
    }
    lemma_tokens_from_shape(b, 0);
    if let Err(e) = tokens(b) {
        let p: int = choose|p: int|
            skip_trivia(b, 0) <= p <= b.len() && (valid_utf8(b) && at_boundary(b, 0) ==> at_boundary(
                b,
                p,
            )) && #[trigger] scan_token(b, p) == Err::<(SpecTokenKind, int), LexError>(e);
        lemma_scan_err_start(b, p);
    }
}

/// The string literal `q` + `w` + `q`.
pub open spec fn quoted(q: u8, w: Seq<u8>) -> Seq<u8> {
    seq![q] + w + seq![q]
}

/// `w` holds neither quote character.
pub open spec fn no_quotes(w: Seq<u8>) -> bool {
    forall|k: int| 0 <= k < w.len() ==> #[trigger] w[k] != '"' as u8 && w[k] != '\'' as u8
}

proof fn lemma_body_quote_independent(w: Seq<u8>, p: int)
    requires
        no_quotes(w),
        1 <= p <= w.len() + 2,
    ensures
        string_body(quoted('"' as u8, w), '"' as u8, p) == string_body(
            quoted('\'' as u8, w),
            '\'' as u8,
            p,
        ),
    decreases w.len() + 2 - p,
{
    let b1 = quoted('"' as u8, w);
    let b2 = quoted('\'' as u8, w);
    if p < w.len() + 1 {
        assert(b1[p] == w[p - 1] && b2[p] == w[p - 1]);
        if p + 1 < w.len() + 1 {
            assert(b1[p + 1] == w[p] && b2[p + 1] == w[p]);
        }
        if w[p - 1] == '\\' as u8 {
            lemma_body_quote_independent(w, p + 2);
        } else {
            lemma_body_quote_independent(w, p + 1);
        }
    } else if p == w.len() + 1 {
        assert(b1[p] == '"' as u8 && b2[p] == '\'' as u8);
    }
}

/// A string literal means the same whichever quote delimits it: for a body
/// holding neither quote character, `"body"` and `'body'` lex alike (the same
/// content and spans, or the same error), escapes included.
pub proof fn law_string_quote_independent(w: Seq<u8>)
    requires
        no_quotes(w),
    ensures
        tokens(quoted('"' as u8, w)) == tokens(quoted('\'' as u8, w)),
{
    let b1 = quoted('"' as u8, w);
    let b2 = quoted('\'' as u8, w);
    let n: int = w.len() + 2int;
    lemma_body_quote_independent(w, 1);
    assert(skip_trivia(b1, 0) == 0 && skip_trivia(b2, 0) == 0);
    lemma_string_body_end(b1, '"' as u8, 1);
    lemma_string_body_end(b2, '\'' as u8, 1);
    if let Ok((_, end)) = string_body(b1, '"' as u8, 1) {
        if end < n {
            assert(b1[end - 1] == w[end - 2]);
        }
        assert(end == n);
        lemma_next_token_progress(b1, n);
        lemma_next_token_progress(b2, n);
        assert(skip_trivia(b1, n) == n && skip_trivia(b2, n) == n);
        assert(tokens_from(b1, n) == tokens_from(b2, n));
    }
}

/// Bytes other than the quote, `\\` and a newline stand for themselves in a
/// string body.
proof fn lemma_plain_run(b: Seq<u8>, q: u8, i: int, j: int)
    requires
        0 <= i <= j <= b.len(),
        forall|k: int|
            i <= k < j ==> #[trigger] b[k] != q && b[k] != '\\' as u8 && b[k] != '\n' as u8,
    ensures
        string_body(b, q, i) == prepend_bytes(b.subrange(i, j), string_body(b, q, j)),
    decreases j - i,
{
    if i == j {
        if let Ok((c, e)) = string_body(b, q, j) {
            assert(b.subrange(i, j) + c =~= c);
        }
    } else {
        lemma_plain_run(b, q, i + 1, j);
        lemma_prepend_bytes_assoc(seq![b[i]], b.subrange(i + 1, j), string_body(b, q, j));
        assert(seq![b[i]] + b.subrange(i + 1, j) =~= b.subrange(i, j));
    }
}

/// An escape sequence puts one byte into a string, in either kind of quotes:
/// `\n`, `\t`, `\r` and `\0` put 0x0A, 0x09, 0x0D and 0x00, and a backslash
/// before any other ASCII character puts that character. So `q` + `u` + `\` +
/// `e` + `q`, with `u` free of quotes, backslashes and newlines, lexes to the
/// string `u` followed by that byte, then end of input.
pub proof fn law_escape_sequence(q: u8, u: Seq<u8>, e: u8, x: u8)
    requires
        q == '"' as u8 || q == '\'' as u8,
        forall|k: int|
            0 <= k < u.len() ==> #[trigger] u[k] != q && u[k] != '\\' as u8 && u[k] != '\n' as u8,
        e < 0x80,
        e == 'n' as u8 ==> x == 0x0A,
        e == 't' as u8 ==> x == 0x09,
        e == 'r' as u8 ==> x == 0x0D,
        e == '0' as u8 ==> x == 0x00,
        e != 'n' as u8 && e != 't' as u8 && e != 'r' as u8 && e != '0' as u8 ==> x == e,
    ensures
        ({
            let b = seq![q] + u + seq!['\\' as u8, e, q];
            tokens(b) == Ok::<Seq<SpecToken>, LexError>(
                seq![
                    SpecToken {
                        kind: SpecTokenKind::Str(decode_utf8(u + seq![x])),
                        span: span(0, b.len() as int),
                    },
                    SpecToken { kind: SpecTokenKind::Eof, span: span(b.len() as int, b.len() as int) },
                ],
            )
        }),
{
    let b = seq![q] + u + seq!['\\' as u8, e, q];
    let n = b.len() as int;
    let m: int = u.len() + 1int;
    assert forall|k: int| 1 <= k < m implies #[trigger] b[k] != q && b[k] != '\\' as u8 && b[k]
        != '\n' as u8 by {
        assert(b[k] == u[k - 1]);
    }
    lemma_plain_run(b, q, 1, m);
    assert(b.subrange(1, m) =~= u);
    assert(b[m] == '\\' as u8 && b[m + 1] == e && b[m + 2] == q);
    assert(string_body(b, q, m + 2) == Ok::<(Seq<u8>, int), int>((Seq::empty(), n)));
    assert(string_body(b, q, m) == prepend_bytes(seq![x], string_body(b, q, m + 2)));
    lemma_prepend_bytes_assoc(u, seq![x], string_body(b, q, m + 2));
    assert(u + (seq![x] + Seq::<u8>::empty()) =~= u + seq![x]);
    assert(skip_trivia(b, 0) == 0);
    lemma_next_token_progress(b, 0);
    lemma_next_token_progress(b, n);
    assert(skip_trivia(b, n) == n);
    let eof = SpecToken { kind: SpecTokenKind::Eof, span: span(n, n) };
    assert(tokens_from(b, n) == Ok::<Seq<SpecToken>, LexError>(seq![eof]));
    let content = u + seq![x];
    assert(string_body(b, q, 1) == Ok::<(Seq<u8>, int), int>((content, n)));
    let t = SpecToken { kind: SpecTokenKind::Str(decode_utf8(content)), span: span(0, n) };
    assert(scan_token(b, 0) == Ok::<(SpecTokenKind, int), LexError>((t.kind, n)));
    assert(next_token(b, 0) == Ok::<(SpecToken, int), LexError>((t, n)));
    assert(tokens_from(b, 0) == Ok::<Seq<SpecToken>, LexError>(seq![t] + seq![eof]));
    assert(seq![t] + seq![eof] =~= seq![t, eof]);
}

/// An ASCII letter.
pub open spec fn is_letter_byte(c: u8) -> bool {
    ('a' as u8 <= c <= 'z' as u8) || ('A' as u8 <= c <= 'Z' as u8)
}

/// The source `//` + `w` + newline + `r`.
pub open spec fn line_comment_then(w: Seq<u8>, r: Seq<u8>) -> Seq<u8> {
    seq!['/' as u8, '/' as u8] + w + seq!['\n' as u8] + r
}

proof fn lemma_inside_line_comment(w: Seq<u8>, r: Seq<u8>, k: int)
    requires
        forall|i: int| 0 <= i < w.len() ==> #[trigger] w[i] != '\n' as u8,
        0 <= k <= w.len(),
    ensures
        trivia_end(line_comment_then(w, r), 2 + k, Trivia::LineComment) == trivia_end(
            line_comment_then(w, r),
            w.len() + 3 as int,
            Trivia::Code,
        ),
    decreases w.len() - k,
{
    let b = line_comment_then(w, r);
    let p: int = 2 + k;
    if k == w.len() {
        assert(b[p] == '\n' as u8);
    } else {
        assert(b[p] == w[k]);
        lemma_inside_line_comment(w, r, k + 1);
    }
}

/// A line comment runs to the end of its line and no further: in `//` + `w` +
/// newline + `r`, where `w` holds no newline, the first token, or the first
/// error, starts after the newline, and when `r` begins with a letter the
/// first token starts right there.
pub proof fn law_line_comment_skipped(w: Seq<u8>, r: Seq<u8>)
    requires
        forall|i: int| 0 <= i < w.len() ==> #[trigger] w[i] != '\n' as u8,
        line_comment_then(w, r).len() <= u32::MAX,
    ensures
        tokens(line_comment_then(w, r)) matches Ok(ts) ==> ts[0].span.start >= w.len() + 3,
        tokens(line_comment_then(w, r)) matches Err(e) ==> e.span.start >= w.len() + 3,
        r.len() > 0 && is_letter_byte(r[0]) ==> (tokens(line_comment_then(w, r)) matches Ok(ts)
            ==> ts[0].span.start == w.len() + 3),
{
    let b = line_comment_then(w, r);
    lemma_inside_line_comment(w, r, 0);
    lemma_trivia_end_bounds(b, w.len() + 3 as int, Trivia::Code);
    assert(b[0] == '/' as u8 && b[1] == '/' as u8);
    assert(skip_trivia(b, 0) == trivia_end(b, 2, Trivia::LineComment));
    if r.len() > 0 && is_letter_byte(r[0]) {
        assert(b[w.len() + 3int] == r[0]);
    }
    lemma_tokens_from_shape(b, 0);
    if let Err(e) = tokens(b) {
        let p: int = choose|p: int|
            skip_trivia(b, 0) <= p <= b.len() && (valid_utf8(b) && at_boundary(b, 0) ==> at_boundary(
                b,
                p,
            )) && #[trigger] scan_token(b, p) == Err::<(SpecTokenKind, int), LexError>(e);
        lemma_scan_err_start(b, p);
    }
}

} // verus!
