# blazingly_json

Focused JSON parsing and encoding for protocol workloads (MCP, JSON-RPC, API
bodies), written in Verus: the parser, the writer and the data structures are
proved against a grammar and a model stated as specification functions.

## Layout

- `src/` — the verified library.
  - `grammar.rs` — the JSON grammar as functions on bytes: what each piece of
    input means, where it ends, and which error it raises where.
  - `syntax.rs` — JSON text as RFC 8259 writes it down, by decomposition
    into values, strings, elements and members; the parser is proved to
    accept exactly such text, within the nesting limit, with `\u` escapes
    that write Unicode scalars.
  - `swar.rs` — the word-at-a-time scan for the first byte a string cannot
    hold literally.
  - `de.rs` — the parser (`Deserializer`) and the allocation-free `Cursor`
    for routing selected object fields; every operation follows `grammar.rs`.
    An object visit is stated over what the caller's visitor returns: its
    error comes back unchanged, and a success only once the members it left
    have been validated through the closing `}`.
  - `access.rs` — the decisions a visitor needs while reading arrays,
    objects and enums element by element.
  - `canonical.rs` — an exact recognizer for one known compact layout.
  - `ser.rs` — the writer: escaping, integers, separators, indentation and
    the closing of arrays and objects.
  - `map.rs` — ordered object storage with string keys.
  - `number.rs`, `value.rs` — the owned value model and JSON Pointer lookups.
  - `raw.rs`, `raw_value.rs` — borrowed and owned raw JSON text.
  - `error.rs` — errors with one-based line and column.
  - `round_trip.rs`, `laws.rs` — what reading gives back of writing, and the
    other properties that relate several operations.
  - `foreign.rs` — the few standard-library calls the library relies on
    without proving them.
- `app/` — ordinary Rust around the library: serde's `Serializer` and
  `Deserializer` traits, floating-point formatting and parsing, `std::io`
  writers, and the `json!` macro.
- `tests/` — tests of the library's public behaviour.
