# structkey

Structured keys for KV stores, encoded as `/`-separated, percent-escaped
strings, with the encoding and decoding proved correct by Verus.

A key is `prefix/field1/.../fieldN`. Each field implements `Codec`, which
pushes segments onto a `Builder` and reads them back from a `Parser`;
`StructKey` adds the constant prefix and exact-segment-count framing.

## Layout

- `src/` — the verified library.
  - `helper.rs` — percent-escaping of segment bytes (`escape`, `unescape`,
    and the variants limited to given bytes), decimal ids, and the UTF-8
    conversions they need.
  - `segments.rs` — joining segments with `/` and splitting a string back
    into them.
  - `builder.rs`, `key_builder.rs` — key builders, with and without a
    segment budget.
  - `parser.rs` — the segment parser.
  - `codec.rs`, `key_codec.rs`, `raw.rs` — the codec traits and their impls
    for `String`, `u64`, `u32`, `()` and `Raw`.
  - `struct_key.rs`, `dir_name.rs` — whole keys and their truncated views.
  - `naming.rs` — the rules the derive macros apply: `snake_case`
    discriminants, prefix and rename checks, unique discriminants, encoded
    fields.
  - `error.rs` — `KeyError` (also known as `Error`).
- `tests/` — tests, with the derive expansions written out by hand.
- `app/` — what stays outside the verified library: the error type's
  `Display` via `thiserror`, the panicking `assert_round_trip` helper, and the
  token generation of the derives on `syn` / `quote`.

## What is proved

- Unescaping an escaped string gives it back; escaped text holds only
  `[A-Za-z0-9_%]`, so never the separator.
- Decimal ids parse as `str::parse::<u64>` does, and the decimal form of a
  `u64` parses back to it.
- Splitting joined segments gives them back when none holds `/`.
- Each codec pushes exactly `segment_count()` segments under the builder's
  budget; decoding a value's own segments gives back a value with the same
  segments; `from_str_key(&k.to_string_key())` returns a key with the same
  segments as `k` whenever `k` round-trips (no empty `String` field, no `/`
  in a `Raw` field).
- A failing field decode is what `from_str_key` reports (so a `DirName`
  key string gives `NotDecodable`); extra segments give
  `WrongNumberOfSegments`.
- Equal segments mean equal `String`, `u64`, `u32` and `Raw` values, and,
  split at field boundaries, equal fields of a key built from them; fields
  decoded in order read back their segments in order.
- A chain of `Builder` calls appends exactly the pushes its budget and
  limits accept.
- Escaping only ASCII bytes with `escape_specified` always gives valid
  UTF-8, and with `%` among them `unescape_specified` undoes it.
- `snake_case` of an ASCII identifier is given by the ASCII rules alone
  (`TwoWords` -> `two_words`, `XMLParser` -> `xml_parser`); the result has no
  uppercase letters and is its own `snake_case`.
- `DirName` prints the key's string with trailing segments dropped, and is
  never decoded.
