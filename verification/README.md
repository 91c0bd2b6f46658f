# copyforge_core

The lexing layer of a copybook parser, written in Verus: every function of
the library carries a contract over the UTF-8 bytes of its input, and Verus
proves the code against it.

Layout:

- `src/span.rs`, `src/error.rs` — source spans and lexer errors.
- `src/text.rs` — character starts in UTF-8 bytes, and slicing a `str`
  between two of them.
- `src/lexer/fixed_format.rs` — the fixed-format (card image) pass from
  physical lines to logical lines.
- `src/lexer/free_format.rs` — the free-format pass (`*>` inline comments,
  directives, blank lines).
- `src/lexer/scanner.rs` — the longest-match scanner for one logical line.
- `src/lexer/token.rs` — tokens and the keyword table, with the law that a
  word names a keyword exactly when it is its spelling up to ASCII case.
- `src/lexer/mod.rs` — `lex` and `lex_with_format`.
- `src/lexer/properties.rs` — properties proved for every input: spans
  stay inside the source, fixed-format tokens stay in columns 8-72, `Eof` follows
  the last physical line and is the only `Eof`, every token has a line and a
  column numbered from 1, level numbers only open a line, PICTURE strings are
  atomic, every non-blank byte is covered, and a copybook made of comment
  lines, blank lines and lines of code (at most 65 bytes, no inline comment,
  no directive) gives the same token kinds and error count in both formats.
- `src/lexer/line_scan_laws.rs` — the tokens of one logical line come in source
  order, and each token's kind fits the bytes it covers.
- `src/lexer/logical_line_laws.rs` — both passes give their logical lines in
  source order with increasing line numbers; fixed-format lines are the text of
  columns 8-72.
- `app/` — `thiserror` messages for lexer errors.

No function of the library is trusted: white space is the Unicode
`White_Space` set, written out in `src/lexer/free_format.rs`, and the scanner
is the project's own verified code.
