# regex

A small backtracking regular-expression library for Unicode strings and raw
bytes, with the API of the `regex` crate (`Regex`, `RegexBuilder`, `Captures`,
`Match`, the match iterators, `split`, `replace`, `RegexSet`, and the same in
`regex::bytes`), verified with Verus.

## Layout

- `src/grammar.rs` — the pattern grammar as spec functions; `src/parser.rs`
  parses a pattern and is proved to give exactly what the grammar gives.
- `src/ast.rs` — the syntax tree and its model.
- `src/matcher.rs` — the matcher, specified by `spec_matches`: every way a
  tree matches at a position, in priority order; searching is the leftmost
  start with a match.
- `src/regex/` — the string API (`api.rs`), replacement templates
  (`replace.rs`), dedicated byte-level searches for a few patterns
  (`arch/generic.rs`, `arch/blocks.rs`, `fast.rs`), the proof that the
  dedicated searches for `a+b` and `(\w+)=(\d+)` find what the matcher finds
  (`agree.rs`), and the laws that relate the operations (`laws.rs`).
- `src/bytes/` — the same API on byte haystacks.
- `src/regexset/` — sets of regexes.
- `app/` — the standard-library traits the library's types cannot carry
  inside Verus: a copy of the error type that has `Display` and
  `std::error::Error`, with conversions to and from the library's error, and
  `Iterator` adapters for the match iterators.

The only outside crate is `memchr`, which finds a byte in a slice; its one
call sits behind `bytes::matcher::memchr`.
