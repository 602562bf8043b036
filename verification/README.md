# pigment

The document model and the editing rules of a layered raster image editor, written
in Verus: what every operation returns or changes is stated in its contract and
proved.

- `src/` is the library.
  - Numbers: `scalar` (binary32 patterns and their order), `arith` (their rounded
    arithmetic), `half_float` (the binary16 pixels of a layer).
  - Pixels: `color`, `grid`, `mask`, `pattern`, `retouch`, `gradient`, `camera_raw`,
    `histogram`, `curve`.
  - The document: `layer`, `styles`, `smart_filter`, `comps`, `document`,
    `fingerprint`.
  - Interaction: `geometry`, `canvas`, `tools`, `stroke`, `path`, `settings`,
    `panels`, `text`.
  - The editor: `editor` holds its state, and the `editor_*` modules what it does:
    editing, filters, frames, files, layers, linked layers, retouching, selections,
    tools.
- `tests/` runs the library on concrete values, some of them against the processor's
  own arithmetic and against the `half` crate.
- `app/` is the shell around it: windows, files and the GPU.

Pixels are counted in whole numbers and channels are binary32 patterns, so no
floating-point arithmetic is taken on trust: a sum or a product is the pattern
nearest to the exact result. What the library does not compute itself, such as
powers, lengths and the transfer curve of a display, is handed to it as a function,
and contracts speak of that function's results.
