# visioncortex (verified core)

Shape encoding for binary and grayscale images, verified with Verus.

- `src/` — the library, every function proved against its contract:
  bit vectors, binary and color images, samplers, the spiral walk,
  the layered shape encoding (layout arithmetic, encoder, decoder,
  bit and hex text forms, layer-weighted diff) and morphological
  erosion, with the laws that relate them (`src/shape/laws.rs`,
  `src/shape/sampling_laws.rs`, `src/shape/translation_laws.rs`,
  `src/shape/diff.rs`, `src/spiral.rs`, `src/shape/morphology.rs`).
- `tests/` — scenario tests run against the compiled library.
- `app/` — floating-point path smoothing (corner detection, 4-point
  subdivision, Bézier fitting through `flo_curves`), which Verus cannot
  reason about.
