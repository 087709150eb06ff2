# Simplicity values

A library of Simplicity values in a compact bit representation, verified with Verus.

A value is a unit, the left or right value of a sum, or a pair. Its compact encoding has one bit
for every sum that it goes through and nothing else. `ValueCompact` keeps this encoding right-aligned
in a shared buffer; `ValueRef` looks at a value or at a part of it in place.

- `src/types.rs`: types, their widths, words `2^(2^n)` and the smallness order.
- `src/model.rs`: values as trees, their two encodings, and reading them from a bit stream.
- `src/storage.rs`: values in buffers, as the contracts of the library describe them.
- `src/bits.rs`, `src/bit_iter.rs`, `src/traversal.rs`, `src/reading.rs`: bits of buffers and of
  byte streams, and how encodings are walked.
- `src/value_compact.rs`: construction, access and equality.
- `src/prune.rs`, `src/decode.rs`, `src/display.rs`: pruning, decoding and text.
- `src/laws.rs`: what holds of the library as a whole.
- `app/`: formatting traits and iterators for the values.
