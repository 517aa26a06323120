# asmr

Decoding of the serialized input that the Solana runtime passes to a
program's entrypoint, with its contracts proved by Verus.

- `src/input.rs`: the input format as spec functions (`parse_input`) and the
  library's types (`AccountInfo`, `DeserializedInput`, `InputError`).
- `src/decoder.rs`: `Decoder`, a state machine that asks for one word or byte
  at a time, and `deserialize`, which drives it over a byte slice.
- `src/program.rs`: `process` and the slice-based `entrypoint`.
- `src/properties.rs`: laws of decoding (entries resolve to non-duplicate
  records, layout order and alignment, independence from trailing bytes).
- `src/layout.rs`: sizes, offsets and `heap_start`.
- `app/lib.rs`: the exported `entrypoint` that reads raw memory for the decoder.
