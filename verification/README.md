# marklign

An opinionated Markdown formatter with syntax-aware layout of display
mathematics, written in Verus: the formatting logic carries contracts, and
its laws are proved.

## Layout

- `src/lib.rs` — the public formatter: `format_document`,
  `format_document_with_options`, `format_display_math`,
  `format_environment`, and the preferences they take.
- `src/math.rs` — tokenizing, spacing, and wrapping an ordinary display
  equation.
- `src/environments.rs` — row-aware `aligned`, `split`, and `cases`
  environments.
- `src/preparse.rs` — holding display equations and inline `\(...\)` spans
  aside around the Markdown parser, and putting them back.
- `src/markdown.rs` — the Markdown parser and serializer (Comrak), behind
  trusted wrappers whose results are named rather than described.
- `src/paths.rs` — the include and exclude patterns of a directory walk.
- `src/run.rs` — what a run decides around the formatter: preferences,
  what happens to each formatted document, reports, and the exit status.
- `src/text.rs` — characters, searching, lines, and decimal numbers.
- `src/laws.rs`, `src/spacing.rs`, `src/retokenize.rs`, `src/roundtrip.rs`,
  `src/stability.rs`, `src/extraction.rs` — the laws: reflowed lines are
  safe from Markdown, formatting changes whitespace and nothing else,
  reflowing keeps the tokens and is idempotent, wrapping only turns spaces
  into line breaks, held display equations and inline spans come back,
  and more.
- `app/main.rs` — the `marklign` command: arguments, files, the directory
  walk, and printing.
- `tests/` — the behaviour on concrete documents and equations.
