# liteexif

The verified core of a photo watermarking tool: configuration files, EXIF
text, directory listings, colours, raster composition, resampling, box blur,
text line layout and the bookkeeping of processing pipelines and batch
exports, each stated in `requires` / `ensures` contracts and proved with
Verus.

- `src/` — the library. Its functions are verified, except the small trusted
  wrappers (marked `external_body`) that make one outside call each and state
  what that call returns. Each module opens with a
  short description; public proof functions named `law_*` state properties
  that span several operations (a configuration read back after it is
  written, pages of a listing joining up, a blur of a uniform image, sorting
  leaving items in order, and so on).
- `tests/` — ordinary Rust tests of the library on concrete values.
- `app/` — the code around the library that Verus does not see: file and
  process I/O, template rendering with minijinja, the wgpu blur, and the
  geometry that is computed in floating point. Decoding and encoding images
  and loading glyphs with FreeType are calls of the library, behind small
  trusted wrappers whose results are named.
