# ab_reflect

A verified interpreter for A=B^Reflect, a Markov-algorithm string-rewriting
language with primitives for output (`\p{...}`), input (`\g`), reflection
(`\r{...}`) and introspection (`\c`).

Text is modelled as a sequence of Unicode scalar values (`Seq<char>`). The
public functions that take or return positions in a string use byte offsets
into its UTF-8 encoding, as `str` does; their contracts relate them to
character positions with `byte_offset`. Tape sizes (for the tape limit) are
measured in UTF-8 bytes.

Layout of `src/`:

- `text.rs` – character-level helpers: escape state, searching, whitespace.
- `error.rs` – the error type and its message text.
- `rule.rs` – rules, rule keys and RHS prefixes.
- `tape.rs` – the tape, the safe injection protocol, escape decoding and
  runtime escaping.
- `parser.rs` – source files, lines, pragmas and rule syntax.
- `primitives.rs` – block scanning, `\r` (upsert/delete), `\c`
  (serialization) and the downgrade of active primitives.
- `vm.rs` – token boundaries, rule matching, primitive scanning and the
  machine (`step`, `run`). The machine never performs I/O itself: `run`
  stops with `Request::Print` or `Request::ReadInput`, and the host answers.
- `laws.rs` – properties proved of the whole: injected and serialized text
  is inert and forms one token, injection round-trips through decoding,
  downgrading only raises primitive letters, escapes follow backslash parity,
  fuel accounting and that fuel only bounds a run, the tape limit, modifier
  order, rule matching, primitive selection, reflection edits and errors,
  and that a parsed rule survives serialization by `\c` and parsing again.

`app/main.rs` is the `abx` command-line host (argument parsing, files,
stdin/stdout).
