# quickview

A Wayland image viewer with OCR text selection, split into a verified core
and a thin GTK shell.

- `src/` is the library, written in Verus and proved: the OCR word model,
  Tesseract TSV parsing, the spatial index and word selection, downscale
  planning, the cache key, config resolution, directory listing and
  navigation, the single-instance argv codec, the viewer's routing
  decisions and what keys, drags, scrolls and focus changes mean. Outside
  crates (`csv`, `blake3`, `directories`) are reached through a few
  trusted wrappers whose contracts are stated next to them.
- `tests/` exercises the library with ordinary Rust tests.
- `app/` is the program: command line, file and process I/O, serde
  records, and the GTK/libadwaita windows. Floating-point view arithmetic
  (zoom, pan, pinch) lives there too.

Word boxes in the library are exact fractions of a pixel (`i64` numerators
over `u32` units per axis), so mapping boxes from a downscaled OCR run back
to the original image multiplies them exactly; scale factors are ratios of
whole numbers.
