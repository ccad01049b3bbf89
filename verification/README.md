# fastvid

An experimental intermediate video codec with independently coded tiles, spatial
and temporal prediction, and adaptive entropy coding (zero-run tokens, Rice codes,
order-0 rANS, fixed-width blocks for high bit depths), written in Verus.

- `src/` is the verified library. `codec` and `codec16` hold the 8-bit and high-bit
  stream formats (parse, encode, decode); `tiles`, `tile_coding`, `tile_coding16`,
  `residual`, `residual16`, `predict`, `entropy`, `bitio`, `bits` and `rans` the
  pieces they are built from; `analysis`, `analyze`, `analyze16` and `research` the
  entropy, predictor and transform models used to evaluate codec ideas.
- `tests/` exercises the library on concrete frames and streams.
- `app/` is the command line: file I/O, timing, and the floating-point quality
  metrics (PSNR and block SSIM).
