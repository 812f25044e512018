# patchkit (verified series lexer)

A Verus library for quilt series files and the parse-result types that
their parsers hand back.

- `src/edit/series/lex.rs`: the series lexer. `Lexer::tokenize` is proved to
  return exactly the tokens that the specification `lex_from` gives for the
  input's UTF-8 bytes, each token's text being the slice of the input that
  its span covers.
- `src/edit/series/laws.rs`: properties of every lexing, proved: the tokens
  tile the input and spell it out again, each token has the shape of its
  kind, only the last token is `EOF`, a `#` comment holds no patch name
  or option up to the end of its line, and lexing restarts cleanly after
  every newline.
- `src/edit/mod.rs`: `Parse`, `ParseError` and `PositionedParseError`, over
  rowan's green nodes.
- `app/lib.rs`: what needs rowan's `AstNode` trait (typed trees) and the
  `Display` of `ParseError`.
