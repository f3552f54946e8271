# phig

A verified parser and formatter for the phig configuration language, written
in Verus.

Phig has three types: strings, lists and maps. A document is a map:

```text
name app
tags [web prod]
server { host localhost; port 8080 }
```

## Layout

- `src/` — the verified library. The parser (`parse.rs`) is a state machine
  whose every step is specified; reading a document into a `Value`
  (`value.rs`), formatting values (`fmt.rs`), and the decisions of typed
  (de)serialization (`de.rs`, `ser.rs`) are proved against those
  specifications. `roundtrip.rs` proves that what the formatter writes for a
  map parses back to the same map, for every map whose keys are distinct
  within each map it holds and whose first key, written bare, does not begin
  with U+FEFF (the parser skips a byte order mark at the start); `output.rs`
  that the output is always valid UTF-8.
- `tests/` — tests of the library on concrete documents.
- `app/` — serde support (`from_str`, `from_reader`, `to_string`,
  `to_writer`, `from_value`, `to_value`) driving the library through its
  event stream and streaming serializer.
