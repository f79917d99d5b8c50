# cakec_lexer

The lexer of the cakebear compiler: TypeScript source text (the first
language phase) to a token stream, verified with Verus.

- `src/syntax.rs` states the lexical grammar over the UTF-8 bytes of the
  source: trivia, the form of each token, string escapes, and the token list
  of a whole source (`tokens`).
- `src/lexer.rs` holds the lexer (`lex`, `Lexer`), proved to produce exactly
  `tokens` of its input, or the first error in it.
- `src/laws.rs` proves properties of every token list: one end-of-input token
  at the end, ordered spans inside the source, only trivia between tokens,
  identifier and number text taken from the source, and what each error says.
- `src/message.rs` renders a lexical error as text.
- `src/token.rs`, `src/ast.rs` define tokens, errors and spans;
  `src/utf8_text.rs` and `src/scan_facts.rs` hold supporting lemmas.
- `app/` is the `cakec` command line. `app/number.rs` provides
  `number_value`, which reads a number token's text as an `f64` for the
  phases that need it; the command line does not call it yet.
