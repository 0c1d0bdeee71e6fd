# pic_core

Batch image processing — edge crop, mapping rename with undo, brightness and
contrast, smart document enhancement — with its logic verified by Verus.

## Layout

- `src/` — the verified library.
  - `text.rs`: character-level string helpers and their specifications.
  - `locale.rs`: Chinese / English messages.
  - `report.rs`: per-file batch reports, their summary and printed form.
  - `rename.rs`: mapping-file decoding and parsing, name checks, rename
    planning, the two-phase execution (its file operations and decisions, and
    a model of a folder on which no file is lost), undo, and the laws that
    tie them together.
  - `raster.rs`, `crop.rs`: images as pixel bytes and edge cropping.
  - `adjust.rs`: the integer smoothing under sharpening.
  - `enhance.rs`: the integer stages of document enhancement (division
    normalization, contrast table, percentiles, morphology, speckle removal,
    binarization, summed-area tables, projection score, document heuristic,
    median denoising).
  - `output.rs`: image extensions and temporary output names.
  - `requests.rs`: checks on requests from graphical and tool-server front
    ends (picked files, preview kind, mapping source).
- `tests/` — tests of the library.
- `app/` — the `pic` command line: argument parsing, file and folder I/O,
  parallel batches, image decoding and encoding, and the floating-point image
  operations (adjustment, resampling, blurs, rotation, adaptive thresholds).
