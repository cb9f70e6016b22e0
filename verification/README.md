# purikura

Photo-booth image effects on RGBA byte buffers, built for the browser through
WebAssembly, with the byte-level logic verified by Verus.

## Layout

- `src/` — the verified library.
  - `binary32` — an exact integer model of single-precision arithmetic
    (values in units of 2^-48, round-to-nearest-even to a 24-bit significand)
    and its executable operations.  Every colour formula below is stated and
    computed in this model.  The model agrees with hardware single precision
    as long as every intermediate is zero or at least 2^-25 in magnitude; that
    premise is not proved here: the tests compare the library with the same
    formulas evaluated in hardware single precision.
  - `filters` — grayscale, sepia, vivid, soft, warm and cool recolouring.
  - `hsl` — RGB/HSL conversion.
  - `compositor` — alpha compositing of a frame over a photo.
  - `window`, `skin_mask` — the clamped sliding-window box blur, feathering,
    YCbCr skin test, packed polygon decoding and the skin mask.
  - `background` — which background treatment applies, the CPU background
    blur, flat layers, and RGBA word packing for GPU buffers.
  - `lut3d` — the 17x17x17 colour-grading tables of the built-in presets and
    trilinear grading; `lut_laws` bounds a graded byte by its cell's corners
    and shows that the identity table moves no byte by more than one level.
  - `text` — string equality.
- `tests/` — tests of the library.
- `app/` — the WebAssembly exports: GPU dispatch, polygon rasterisation and
  the retouching effects whose arithmetic is floating point.
