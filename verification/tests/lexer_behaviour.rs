use cakec_lexer::{is_ident_cont, is_ident_start, lex, LexError, LexErrorKind, Lexer, Span, Token, TokenKind};

fn kinds_of(src: &str) -> Vec<TokenKind> {
    lex(src).expect("lex should succeed").into_iter().map(|t| t.kind).collect()
}

fn ident(s: &str) -> TokenKind {
    TokenKind::Ident(s.to_string())
}

#[test]
fn every_keyword_is_recognised() {
    assert_eq!(
        kinds_of("function const let return if else while true false null undefined number string boolean"),
        vec![
            TokenKind::Function,
            TokenKind::Const,
            TokenKind::Let,
            TokenKind::Return,
            TokenKind::If,
            TokenKind::Else,
            TokenKind::While,
            TokenKind::True,
            TokenKind::False,
            TokenKind::Null,
            TokenKind::Undefined,
            TokenKind::NumberKw,
            TokenKind::StringKw,
            TokenKind::BooleanKw,
            TokenKind::Eof,
        ],
    );
}

#[test]
fn words_that_extend_keywords_are_identifiers() {
    assert_eq!(
        kinds_of("iffy lets Function _a1 $b x9"),
        vec![ident("iffy"), ident("lets"), ident("Function"), ident("_a1"), ident("$b"), ident("x9"), TokenKind::Eof],
    );
}

#[test]
fn every_punctuation_and_operator() {
    assert_eq!(
        kinds_of("(){},;:.+-*/= ! < > && ||"),
        vec![
            TokenKind::LParen,
            TokenKind::RParen,
            TokenKind::LBrace,
            TokenKind::RBrace,
            TokenKind::Comma,
            TokenKind::Semi,
            TokenKind::Colon,
            TokenKind::Dot,
            TokenKind::Plus,
            TokenKind::Minus,
            TokenKind::Star,
            TokenKind::Slash,
            TokenKind::Eq,
            TokenKind::Bang,
            TokenKind::Lt,
            TokenKind::Gt,
            TokenKind::AmpAmp,
            TokenKind::PipePipe,
            TokenKind::Eof,
        ],
    );
}

#[test]
fn longest_operator_wins() {
    assert_eq!(
        kinds_of("====!===<=="),
        vec![TokenKind::EqEqEq, TokenKind::Eq, TokenKind::NotEqEq, TokenKind::Eq, TokenKind::LtEq, TokenKind::Eq, TokenKind::Eof],
    );
}

#[test]
fn number_text_is_kept_exactly() {
    assert_eq!(
        kinds_of("007 12.50 1.x 1..2"),
        vec![
            TokenKind::Number("007".into()),
            TokenKind::Number("12.50".into()),
            TokenKind::Number("1".into()),
            TokenKind::Dot,
            ident("x"),
            TokenKind::Number("1".into()),
            TokenKind::Dot,
            TokenKind::Dot,
            TokenKind::Number("2".into()),
            TokenKind::Eof,
        ],
    );
}

#[test]
fn escapes_stand_for_their_characters() {
    assert_eq!(
        kinds_of(r#""\t\r\0\\\'\"\q""#),
        vec![TokenKind::Str("\t\r\0\\'\"q".into()), TokenKind::Eof],
    );
}

#[test]
fn escaped_newline_stays_in_the_string() {
    assert_eq!(kinds_of("\"a\\\nb\""), vec![TokenKind::Str("a\nb".into()), TokenKind::Eof]);
}

#[test]
fn other_quote_inside_string_is_plain() {
    assert_eq!(kinds_of(r#"'say "hi"'"#), vec![TokenKind::Str("say \"hi\"".into()), TokenKind::Eof]);
}

#[test]
fn comment_markers_inside_strings_are_text() {
    assert_eq!(kinds_of("'// not /* a comment'"), vec![TokenKind::Str("// not /* a comment".into()), TokenKind::Eof]);
}

#[test]
fn multibyte_string_content_and_span() {
    let toks = lex("'héllo' x").unwrap();
    assert_eq!(toks[0].kind, TokenKind::Str("héllo".into()));
    assert_eq!(toks[0].span, Span { start: 0, end: 8 });
    assert_eq!(toks[1].span, Span { start: 9, end: 10 });
}

#[test]
fn multibyte_escaped_character_stands_for_itself() {
    assert_eq!(kinds_of("'\\é'"), vec![TokenKind::Str("é".into()), TokenKind::Eof]);
}

#[test]
fn newline_in_string_is_unterminated() {
    let err = lex("\"ab\ncd\"").unwrap_err();
    assert_eq!(err, LexError { kind: LexErrorKind::UnterminatedString, span: Span { start: 0, end: 3 } });
}

#[test]
fn unterminated_string_spans_to_end_of_input() {
    let err = lex("x \"nope").unwrap_err();
    assert_eq!(err, LexError { kind: LexErrorKind::UnterminatedString, span: Span { start: 2, end: 7 } });
}

#[test]
fn backslash_at_end_of_input_is_unterminated() {
    let err = lex("\"ab\\").unwrap_err();
    assert_eq!(err, LexError { kind: LexErrorKind::UnterminatedString, span: Span { start: 0, end: 4 } });
    let err = lex("\"\\").unwrap_err();
    assert_eq!(err, LexError { kind: LexErrorKind::UnterminatedString, span: Span { start: 0, end: 2 } });
}

#[test]
fn unexpected_multibyte_char_spans_its_bytes() {
    let err = lex("x é").unwrap_err();
    assert_eq!(err, LexError { kind: LexErrorKind::UnexpectedChar('é'), span: Span { start: 2, end: 4 } });
}

#[test]
fn lone_ampersand_and_pipe_are_unexpected() {
    let err = lex("a & b").unwrap_err();
    assert_eq!(err, LexError { kind: LexErrorKind::UnexpectedChar('&'), span: Span { start: 2, end: 3 } });
    let err = lex("a | b").unwrap_err();
    assert_eq!(err, LexError { kind: LexErrorKind::UnexpectedChar('|'), span: Span { start: 2, end: 3 } });
}

#[test]
fn first_error_stops_lexing() {
    let err = lex("let # \"open").unwrap_err();
    assert_eq!(err.kind, LexErrorKind::UnexpectedChar('#'));
    assert_eq!(err.span, Span { start: 4, end: 5 });
}

#[test]
fn unterminated_block_comment_runs_to_end() {
    let toks = lex("let /* never closed").unwrap();
    assert_eq!(toks.len(), 2);
    assert_eq!(toks[0].kind, TokenKind::Let);
    assert_eq!(toks[1], Token { kind: TokenKind::Eof, span: Span { start: 19, end: 19 } });
}

#[test]
fn line_comment_without_newline_ends_input() {
    assert_eq!(kinds_of("x // tail"), vec![ident("x"), TokenKind::Eof]);
}

#[test]
fn slash_alone_is_an_operator() {
    assert_eq!(kinds_of("a / b /"), vec![ident("a"), TokenKind::Slash, ident("b"), TokenKind::Slash, TokenKind::Eof]);
}

#[test]
fn eof_span_is_end_of_source() {
    let toks = lex("x  \n").unwrap();
    assert_eq!(toks.last().unwrap(), &Token { kind: TokenKind::Eof, span: Span { start: 4, end: 4 } });
}

#[test]
fn trivia_only_source_is_just_eof() {
    let src = "  // c\n /* d */ \t";
    let toks = lex(src).unwrap();
    let n = src.len() as u32;
    assert_eq!(toks, vec![Token { kind: TokenKind::Eof, span: Span { start: n, end: n } }]);
}

#[test]
fn spans_are_ordered_and_cover_the_text() {
    let src = "const total = price * 2; // note";
    let toks = lex(src).unwrap();
    for w in toks.windows(2) {
        assert!(w[0].span.start <= w[0].span.end);
        assert!(w[0].span.end <= w[1].span.start);
    }
    for t in &toks {
        if let TokenKind::Ident(name) = &t.kind {
            assert_eq!(&src[t.span.start as usize..t.span.end as usize], name.as_str());
        }
    }
    assert_eq!(toks.iter().filter(|t| t.kind == TokenKind::Eof).count(), 1);
}

#[test]
fn error_messages_name_the_problem_and_span() {
    assert_eq!(lex("@").unwrap_err().message(), "unexpected character `@` at 0..1");
    assert_eq!(lex("ab é").unwrap_err().message(), "unexpected character `é` at 3..5");
    assert_eq!(lex("\"nope").unwrap_err().message(), "unterminated string literal at 0..5");
    let e = LexError { kind: LexErrorKind::InvalidNumber, span: Span { start: 120, end: 3405 } };
    assert_eq!(e.message(), "invalid numeric literal at 120..3405");
    let e = LexError { kind: LexErrorKind::InvalidNumber, span: Span { start: 0, end: 4294967295 } };
    assert_eq!(e.message(), "invalid numeric literal at 0..4294967295");
}

#[test]
fn lexer_cursor_peeks_and_skips() {
    let mut lx = Lexer::new("  /* c */ ab");
    assert_eq!(lx.peek(), Some(b' '));
    assert_eq!(lx.peek_at(2), Some(b'/'));
    assert_eq!(lx.peek_at(100), None);
    lx.skip_trivia();
    assert_eq!(lx.peek(), Some(b'a'));
    assert_eq!(lx.peek_at(1), Some(b'b'));
    let t = lx.next_token().unwrap();
    assert_eq!(t, Token { kind: TokenKind::Ident("ab".into()), span: Span { start: 10, end: 12 } });
    assert_eq!(lx.peek(), None);
    let t = lx.next_token().unwrap();
    assert_eq!(t, Token { kind: TokenKind::Eof, span: Span { start: 12, end: 12 } });
}

#[test]
fn identifier_byte_classes() {
    for b in [b'a', b'z', b'A', b'Z', b'_', b'$'] {
        assert!(is_ident_start(b));
        assert!(is_ident_cont(b));
    }
    for b in [b'0', b'9'] {
        assert!(!is_ident_start(b));
        assert!(is_ident_cont(b));
    }
    for b in [b' ', b'-', b'@', b'`', b'{', 0xC3] {
        assert!(!is_ident_start(b));
        assert!(!is_ident_cont(b));
    }
}

#[test]
fn lexer_cursor_moves_past_an_error() {
    let mut lx = Lexer::new(" é+");
    let err = lx.next_token().unwrap_err();
    assert_eq!(err, LexError { kind: LexErrorKind::UnexpectedChar('é'), span: Span { start: 1, end: 3 } });
    assert_eq!(lx.peek(), Some(b'+'));

    let mut lx = Lexer::new("'ab\nc");
    let err = lx.next_token().unwrap_err();
    assert_eq!(err.span, Span { start: 0, end: 3 });
    assert_eq!(lx.peek(), Some(b'\n'));

    let mut lx = Lexer::new("'ab\\");
    let err = lx.next_token().unwrap_err();
    assert_eq!(err.span, Span { start: 0, end: 4 });
    assert_eq!(lx.peek(), None);
}

#[test]
fn end_of_input_token_repeats() {
    let mut lx = Lexer::new("x ");
    assert_eq!(lx.next_token().unwrap().kind, TokenKind::Ident("x".into()));
    let eof = Token { kind: TokenKind::Eof, span: Span { start: 2, end: 2 } };
    assert_eq!(lx.next_token().unwrap(), eof);
    assert_eq!(lx.next_token().unwrap(), eof);
    assert_eq!(lx.peek(), None);
}

