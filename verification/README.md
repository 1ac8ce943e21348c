# painterly

A painter that turns a photograph into an oil or watercolour sketch: it quantises the
colours, derives a flow field from the image gradients, and lays brush stamps along that
field from dark to light, with brush size and hardness chosen by local detail density.

## Layout

- `src/` — the verified library (Verus). It holds the integer logic of the painter, each
  function with a contract proved against a specification:
  - `buf` — BORDER_REFLECT_101 index folding, an 8-bit RGB buffer, resampling through the
    `image` crate;
  - `color` — RGB to HSV in OpenCV's 8-bit convention;
  - `palette` — region-boundary masks, the posterize-edge view, 3x3 majority smoothing of
    labels, nearest-palette snapping, per-colour counts, the palette swatch layout;
  - `pipeline` — progress-snapshot throttling and the overview sheet layout;
  - `brushes` — the FNV-1a seed of each brush's noise texture;
  - `strokes`, `api` — the brush tier and the result and error types of the bindings.
- `tests/` — tests of the library.
- `app/` — the command-line program and everything that computes in floating point or
  does I/O: Gaussian and Sobel filters, k-means, flow field, density and depth maps,
  brush textures, stroke tracing and rendering, paper texture, presets, the neural depth
  and face models, the Swift bindings and the desktop backend.
