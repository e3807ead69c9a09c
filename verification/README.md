# pepos

The shell of the pepos desktop: a menubar, a dock and an application
launcher, each a Wayland layer-shell client.

- `src/` is the library, written in Verus with its contracts proved:
  - `color` — CSS hex colours to RGBA, and RGBA to Wayland ARGB8888 pixels;
  - `raster` — compositing glyph coverage bitmaps and lines of glyphs onto a canvas;
  - `text` — white space, words, trimming, lines and substring search on characters;
  - `fonts` — where fonts are looked for;
  - `surface` — the decisions the clients share: globals to bind, configure
    events, when and how to draw a frame, shared-memory buffer sizes, layer
    surface requests;
  - `menubar`, `dock`, `launcher` — each client's settings and state; the
    launcher also parses `.desktop` entries, sorts them, filters them by the
    query and handles the keyboard.
- `app/` is the program around it: connecting to the compositor, reading
  files, drawing with tiny-skia at floating-point sizes, and starting the
  chosen application. `pepos menubar`, `pepos dock`, `pepos launcher` and
  `pepos compositor` pick the client.
- `tests/` exercise the library on concrete values.
