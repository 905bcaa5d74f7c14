# simple-toml-parser

A small TOML lexer that hands each value of a document to a callback together
with the chain of keys leading to it, and a formatter built on that lexer.
The library is written in Verus: every function carries a contract, and the
contracts are proved.

## Layout

- `src/machine.rs` — the lexer as a state machine over the document's chars:
  what one step does, what an answer from the callback does, and `run`, the
  values handed out and the result for a sequence of answers.
- `src/parser.rs` — the executable lexer, proved to follow the machine step
  by step, and `collect_events`, which gathers every value of a run.
- `src/lib.rs` — the public types and the parse entry points
  (`parse_toml`, `parse_toml_with_options`); `src/value.rs` parses a lone
  value.
- `src/utilities.rs` — key chains, splitting keys by level, comment
  positions and string escapes.
- `src/format_model.rs` — what the formatter writes, as spec functions over
  the values a run hands out; `src/formatting.rs` — the executable formatter,
  proved to write exactly that.
- `src/text.rs`, `src/keymap.rs` — char and byte-length helpers, and a map
  keyed by key chains.
- `app/` — the `format` program: reads files, formats or checks them, and
  prints what the lexer finds.

Inputs on which the lexer or the formatter reach a construct they do not
handle are left out by the contracts of `parse_toml_with_options` (`safe`),
`parse_toml` (its run ends in a result) and `format_toml`
(`spec_format(..) is Some`);
`try_parse_toml_with_options`, `try_format_toml` and `collect_events` take
every input and report those with `None` instead.
