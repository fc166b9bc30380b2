# tg_notebook

A notebook for live-coded panels. A source file holds user functions, each marked
by a `#[no_mangle]` line and named `UD_...`; they are built into a shared library,
loaded, and run every frame, and each draws into a panel of its own. When the
library is rebuilt it is loaded again and panels whose source changed are reset.

## Layout

- `src/` is the verified library:
  - `memory_tools`: `TinyString`, a fixed-capacity string; `Storable`, the byte
    encoding of values; `GlobalStorage`, a byte arena with up to 100 named values;
    `Ptr`, a typed position in a byte store; `DyArray`, a growable array whose
    elements live in a `GlobalStorage`; `LocalStorage`.
  - `source_scan`: splits a source file into lines and finds the user functions,
    their names and their sources.
  - `instructions`: the per-panel records (ids, sources, flags).
  - `render_tools`, `interaction_tools`: bitmaps, pixel formats, keys, mouse state,
    and the point-in-rectangle test.
  - `dynamic_lib_loading`: where the library built from a source file lies, and
    what each outcome of the system loader means.
- `app/` is the window program around it: the system loader, glyph rasterization,
  OpenGL drawing, the event loop, and the drawing requests with their
  floating-point coordinates.
- `tests/` exercises the library.
