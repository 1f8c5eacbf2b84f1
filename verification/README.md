# qoi

A decoder for the [QOI image format](https://qoiformat.org/), written in Rust
and verified with Verus. `decode` takes an encoded image and a buffer that the
caller owns, writes packed RGB or RGBA bytes into it, and allocates nothing.

- `src/header.rs`, `src/chunk.rs`, `src/stream.rs`: the format, as bytes and as
  what the bytes mean.
- `src/decoder.rs`: `decode` and its contract.
- `src/format_laws.rs`, `src/decode_laws.rs`: what is proved of the format and of
  decoding as a whole, such as that decoding succeeds on exactly those inputs
  that begin with an image, and that an image cut short anywhere is refused.
- `src/error.rs`, `src/info.rs`, `src/pixel.rs`, `src/reader.rs`: the types that
  these use.
- `app/`: the error as a standard error, with `Display`.
