# oxc_json

A JSON / JSONC parser that keeps byte spans for every value, collects
comments, and recovers from errors, reporting each one as an
`oxc_diagnostics::OxcDiagnostic`. It is written in Verus and proved.

## Layout

- `src/semantics.rs` — what the parser computes, stated as functions over the
  source bytes (`parse_outcome` and the functions it is built from).
- `src/parser.rs` — the parser itself; every method is proved to do exactly
  what `semantics` says, and `JsonParser::parse` / `try_parse` return a result
  that `describes` `parse_outcome`.
- `src/ast.rs` — the syntax tree and its mathematical views.
- `src/laws.rs` — properties proved of every parse: the parser reads every
  source except one that escapes a non-ASCII character, comments and values are
  the source text their spans claim, comments and members come in source
  order, no comment overlaps a string, strict mode reports every comment, a
  clean parse is delimited as JSON writes it (and has no trailing comma where
  they are forbidden), string values are their text with escapes resolved, and
  any text written as JSON writes it reads back; also what each reader (a
  comment, a string, a value, a stretch of whitespace and comments) does.
- `src/modes.rs` — what the options change: under any options the parser reads
  what JSONC mode reads and reports the same errors, adding only errors for
  comments or trailing commas that the options forbid; so strict JSON parses
  the same in JSONC mode.
- `src/text.rs` — UTF-8 facts and the std calls on text the parser makes.
- `src/diagnostics.rs` — how errors become `OxcDiagnostic` values.
- `app/` — entry points that check what the library requires, and the
  conversions that need floating point (`f64` numbers, `serde_json::Value`).
