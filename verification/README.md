# scr33ny

An OLED-friendly screensaver for Linux / Wayland, written as a Verus library
with a thin program around it.

- `src/` — the verified library:
  - `canvas.rs`: colors, the pixel canvas and its drawing primitives (pixels
    with alpha blending, rectangles, disks, rings, Bresenham lines with a
    square brush, rounded rectangles, images, resampled images, glyph runs).
  - `raster.rs`: the mathematical model the drawing contracts are stated in,
    and the lemmas about it (a line joins its endpoints, painting touches only
    its region, opaque drawing is idempotent, ...).
  - `config.rs`: the configuration values and their defaults, hex colors.
  - `app.rs`: the anti burn-in shift, the shifted copy to the screen, and the
    answer to each window event.
  - `screensaver.rs`, `widget.rs`: the timing and text decisions of the
    screensavers and widgets (GIF frames, typewriter, clock text, weather
    refresh, symbols and request URL), and the date text formatted with chrono.
  - `font.rs`: the choice of the system font, the first candidate file that
    fontdue parses.
  - `decode.rs`: PNG/JPEG/GIF decoding through the `image` crate, turned into
    the library's images and GIF playback state.
  - `fits.rs`: executable checks of the size bounds the drawing calls need.
- `app/` — the program: command line, configuration file, file reading,
  font rasterization, the window and its event loop, and the floating-point layout.
- `tests/` — tests of the library.
