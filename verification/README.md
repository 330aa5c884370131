# chopsticks

A keyboard-driven mouse pointer for Wayland: a full-screen overlay shows a
26x26 grid of letter-named cells; two letters choose a cell, and a precision
key (`y u i o` / `h j k l` / `n m , .`) or the space bar chooses the point to click.

- `src/` is the verified library:
  - `input.rs`: key decoding and the grid geometry, with the laws that the
    cells tile the screen and that every chosen point lies in its cell;
  - `session.rs`: the key handling state machine and its laws;
  - `render.rs`: the rasteriser that draws the overlay into shared memory,
    the label layout, and glyph blending;
  - `config.rs`: settings and colour parsing;
  - `mmap.rs`: the trusted interface to `memmap2::MmapMut`.
- `app/` is the program: Wayland plumbing, the settings file, font
  rasterisation and the virtual pointer click.
- `tests/` exercise the library on concrete values.
