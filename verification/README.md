# lau-quipu

Quipu-inspired hierarchical encoding: position on a cord is the coordinate, the knot
type is the value, the cord hierarchy is the dimension.

## Layout

- `src/` — the verified library (Verus).
  - `cord_id.rs`, `cord_type.rs` — cord identifiers and the four levels of the hierarchy.
  - `knot.rs` — knots, the base-10 digit encoding of a signed whole number, and its
    reading back; the round trip is proved (`lemma_decode_encode_value`).
  - `cord.rs` — cords, encoding a sequence of numbers position by position, and
    grouping knots back by position; the round trip is proved (`lemma_decode_encode_cord`).
  - `table.rs` — a table of values under unique names, in insertion order; the
    uniqueness of names is a type invariant.
  - `quipu.rs` — the quipu: a primary cord and named cords, adding cords under a
    parent, lookups, depth, knot counts, tensor encoding and decoding
    (`lemma_decode_encode_tensor`).
  - `registry.rs` — a registry of named quipus and its counts.
- `app/` — the floating-point face of the library (sums, positional evaluation of
  digit readings, tolerance checks, summaries) and serde records of its types.
- `tests/` — tests of the library.

Knot values are kept as the IEEE 754 binary64 bit pattern of the number they stand
for (`KnotValue`). The library stores and moves them and compares them as binary64
numbers do (the two zeros are equal, a NaN equals nothing); every computation on
them as numbers happens in `app/`.
