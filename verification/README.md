# bitspec

Runtime bit-level parser and serializer for binary data described by
declarative schemas. Fields are bit ranges (possibly non-contiguous) that are
compiled into a `Schema`; the schema parses byte slices into named values and
serializes named values back to bytes.

The library under `src/` is written in Verus: every function carries a
contract, and the laws that tie the functions together are proved.

## Layout

- `src/bitmath.rs` — the mathematical model of bits in bytes.
- `src/bits.rs` — reading and writing bit ranges, sign extension, bit
  reversal, packing bits into bytes; laws on reading after writing.
- `src/compiled.rs` — compiled fields: compilation, assembly (parsing) and
  disassembly (serialization) of scalars and arrays.
- `src/schema.rs` — `Schema::compile`, `Schema::parse`, `Schema::serialize`.
- `src/roundtrip.rs` — the law that parsing what serialization wrote gives
  back the values, for densely laid out schemas.
- `src/transform.rs` — the integer, byte and text steps of transforms.
- `src/value.rs`, `src/value_map.rs` — values and maps of named values.
- `src/errors.rs`, `src/wasm_error.rs` — error types and their flat
  `{ code, message }` form.
- `src/serde.rs` — the schema description types and their conversions.
- `tests/` — tests of the library.
- `app/` — WebAssembly bindings, JSON schema reading, and the floating-point
  parts of transforms (scale and offset).
