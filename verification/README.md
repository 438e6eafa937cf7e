# tintbox

The integer and text core of an ICC color-management engine, written in
Verus: every function in `src/` carries a `requires`/`ensures` contract over
mathematical models (`Seq`, `int`, spec functions) and is proved by Verus.

## Layout

- `src/` — the verified library.
  - `io`, `header`, `directory`, `sig`, `text` — reading profile bytes: the
    big-endian reader, the header and its codes, the tag directory.
  - `lut`, `mlu`, `curve` — tag payloads: 8- and 16-bit LUT tags and the
    parts of the A2B/B2A tags, localized text, 16-bit tone curves.
  - `pipeline`, `virtuals` — stage pipelines, their chaining rules and the
    structural simplification run before optimization; the identity CLUT.
  - `formatters` — packing and unpacking 8- and 16-bit pixels.
  - `link`, `gamut`, `matshaper`, `batched`, `opt` — decisions taken when
    linking profiles and choosing an optimized evaluator, and the 1.14
    fixed-point matrix-shaper evaluator. `link::intents` builds the device
    link of a chain of profiles under the built-in rendering intents: leg
    directions, junction checks, PCS conversions, concatenation,
    simplification and the final width check; each profile's pipeline and
    the conversion matrices are computed by the caller and handed in.
  - `cgats` — the CGATS/IT8 text format: parsing, editing and writing.
  - `ps` — PostScript CSA/CRD text.
  - `context`, `named`, `error` — plugin registries, named-color lists,
    errors. The registries hold parametric curves, tag types, tags and
    intents. Interpolator factories and a custom optimizer are not
    registered here: their plugins are objects that evaluate and rewrite
    floating-point pipelines, and floating point stays outside `src/`.
- `tests/` — tests of the library on concrete values.
- `app/` — the floating-point side (color conversions, color differences,
  3x3 matrices, float rounding and rendering) and the float accessors over
  the library. It is ordinary Rust and is not verified.

Floating-point values that the library carries (matrix coefficients) are
held as IEEE-754 bit patterns; floats are computed in `app/`.
