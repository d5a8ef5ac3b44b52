# quoin

Lossless compression for typed columns of numbers, written in Rust and proved
with Verus.

A column is cut into blocks. For each block specialized codecs compete, and the
best candidate under the level's trade of size against decode time is written.
Every decoder is a total function with an exact contract: which bytes give which
values, and which bytes give which error. Every encoder states that what it
writes decodes to what it was given, and which bytes it writes. There are two
exceptions to the last: what `pco` writes, and what is computed with floats, where
the contract is exact given what was handed in. `src/settled.rs` proves that a
column is written in one way, ties included, as far as `pco` makes the same bytes
of the same block at the same level.

## Layout

- `src/column.rs`: the entry points, `compress_column` and `decompress_column`.
- `src/encoder.rs`, `src/decoder.rs`, `src/format.rs`: blocks, frames and the
  stream.
- `src/selection.rs`, `src/features.rs`, `src/sample.rs`, `src/ladder.rs`,
  `src/settled.rs`: what competes, what wins, and what the levels promise.
- `src/codecs/`, `src/entropy/`: the block codecs and the entropy coders.
- `src/decimal.rs`: 128-bit and 256-bit decimals, as limb columns.
- `src/validity.rs`, `src/native.rs`: null bitmaps, and the native C types.
- `app/`: what needs floating point, threads, Arrow or the C ABI.
- `tests/`: tests of the library from outside.

The library holds floats as bit patterns. The codecs that compute with floats
are split: `app/` does the arithmetic and hands in the results, `src/` decides
which of them are exact, writes the payloads and lets them compete as offers.

## What is trusted

The hash map of `rustc_hash` (`src/fxmap.rs`) and the `pco` codec
(`src/codecs/pcodec.rs`) are called through wrappers whose contracts Verus
takes as given. Each wrapper names the function it calls and what it claims.
