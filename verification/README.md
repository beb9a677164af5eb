# wpd

The core of a WebP decoder, written in Verus: the functions in `src/` carry
contracts that Verus proves, and the properties that tie functions together
are stated and proved as proof functions named `law_*` (and a few `lemma_*`
in `cpu.rs`). One function is trusted rather than proved: `address_of` in
`src/vp8/mod.rs`, which reads a buffer's address and promises nothing about
it.

## What is not here

This crate is the decoder's core, not a whole decoder. The public decoding
API (`Decoder::open`, streaming with `open_stream` / `append` /
`end_of_stream`, `update` buffers, `next_frame`, `Picture::rows_of`), the
driver that composites and converts frames, the VP8 macroblock loop, and the
VP8L image header and pixel loop are left out, with the intra-mode and
coefficient tables, the entropy-coded pixel loop and the driver's frame
slots they rest on. What those parts
decide and compute on their own is here, verified: the container walk, the
frame header, token decoding and dequantisation of a macroblock, the loop
filter, the prefix-code readers and builder, the inverse transforms, the
compositing geometry and the decisions around an ANMF frame.

A still whose VP8X canvas and image header disagree is refused as invalid
data, rather than taking the VP8X canvas: the container follows the stricter
of the two readings.

## Layout

- `src/container.rs` — the RIFF walk: bare streams, the chunk list, VP8X /
  ANIM / ANMF / ALPH / image / metadata chunks, a file still arriving. The
  outcome of a scan is specified exactly by `raw_headers_result` and
  `riff_scan`.
- `src/vp8/` — the range decoder (`rac.rs`), the frame-header state
  (`frame.rs`: frame tag, segmentation, loop-filter deltas, coefficient
  partitions, filter strength and the macroblock loop filter), the key frame
  header as a whole (`header.rs`, read with the probability and quantiser
  tables it is given), the DCT coefficients (`coeffs.rs`: token decoding of
  a block and of a macroblock, quantisers, token probability updates) and the
  lossy picture layout.
- `src/vp8l/` — the lossless bit reader, prefix-code construction and
  reading (`huffman.rs`), the four inverse transforms (`transform.rs`) and the
  decoder's own data (`state.rs`).
- `src/dsp/` — scalar pixel kernels: VP8 transforms and loop filter, VP8
  intra predictors, VP8L predictors, palette mapping and alpha blending.
- `src/rescale.rs`, `src/blit.rs`, `src/picture.rs`, `src/anim.rs` —
  rescaling, painting, picture buffers, where an animation frame lands, and
  the decisions taken around an ANMF frame's decode.
- `src/cpu.rs`, `src/dispatch.rs` — the CPU feature mask and which kernel
  each step runs on.
- `app/lib.rs` — the part that talks to the machine: CPU feature detection
  and the process-wide dispatch state.
- `tests/` — scenario tests, run against the compiled library.
