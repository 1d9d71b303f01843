# dif_core

The core of DIF v3, the Diagram Image Format: a lossless, theme-aware,
palette-indexed raster format, written in Verus with its behaviour stated as
contracts and proved.

- `src/` is the verified library: the 64-byte header (`format`), the section
  layouts of the intermediate body, the two-stage codec container (`codec`),
  the in-memory image and its validation, theme picking and rendering
  (`container`), theme names and descriptions (`describe`), the codec-name
  grammar (`text`, `Codec::parse`), the integer side of the dark-theme
  derivation (`derive`), the connected components of an index plane and their
  features (`regions`, `features`), the integer side of the region-aware dark
  build (`regional`: counting and indexing the colors, growing the text mask
  along edges, splitting the palette by `(color, text?)`, merging the splits
  back under the index width's capacity, and assembling the two-theme image
  with a bit-exact light theme and a dark theme of the merged per-split seeds,
  or, for strategies that do not split, of each color's own dark color; `ranking` orders keys by use), and the UTF-8-style varint (`varint`).
  Encoding with worker threads hands them to brotli's `compress_multi` and to
  zstd's multithreaded compressor, and splits large frames into jobs the way
  `split_factor` states.
  `backends` holds the trusted calls into the compression crates (miniz_oxide,
  lz4_flex, brotli, zstd-safe), `tally` the trusted `FxHashMap` counter
  (rustc-hash), and `ranking` a trusted call of std's `sort_unstable`.
  LZ4 high-compression levels hc2 to hc12 are all accepted; the 4-bit level
  field has rows for hc2, hc4, hc6, hc9, hc10 and hc12 only, so the others are
  recorded as the nearest of those below them (the level is provenance only).
- `tests/` exercises the library on concrete values.
- `app/` is ordinary Rust around it: the floating-point OKLab color math
  (the per-split dark colors and which of them count as near-identical), edge
  operators, the region vote, the median-cut quantizer, the region-aware build
  that strings these together with the library (`build_regional`), and the
  WebAssembly binding.
