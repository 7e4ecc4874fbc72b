# trm

A terminal emulator for macOS whose data-processing core is a library verified with
Verus: every function in `src/` carries a contract, and Verus proves that the code meets
it and never panics or overflows.

## Layout

| Path | What it holds |
|------|---------------|
| `src/vt.rs`, `src/vt/` | the escape-sequence parser, the grid, the scrollback; `model.rs` is the mathematical model every operation is stated against, `laws.rs` properties that span operations, `split.rs` text printed in two pieces |
| `src/input.rs`, `src/input/` | keys to bytes, mouse reports, the wheel, paste cleaning, quoting of dropped paths, the selection |
| `src/font.rs` | the TrueType tables: character maps, metrics, glyph locations, simple and composite outlines as points, and (`font/contour.rs`) the lines and quadratic curves that draw a glyph's contours |
| `src/render.rs`, `src/render/` | frame-buffer filling and blending, procedural glyph masks, the glyph-mask cache, the drawing of a frame, the damage bookkeeping of two buffers, and (`redraw.rs`) what a frame leaves in a buffer |
| `src/names.rs` | window and dock-icon names, and the fields read from the kernel's process records |
| `src/shell.rs` | the environment and the name the login shell is started with |
| `src/text.rs` | decimal numbers as bytes |
| `app/` | the window, run loop, pty, clipboard and timers (Objective-C runtime calls), and the floating-point parts of drawing: transforms and scan conversion of outlines, curved procedural glyphs, cell metrics, colour tables |
| `tests/` | tests of the library on concrete values |

## What is proved

- `Term::feed` takes the terminal from one state to the next exactly as the model's
  `feed` says, for every byte string, keeping the grid well formed (cursor on the grid,
  scrollback within its bound, title cleaned and capped).
- OSC 52 puts on the clipboard exactly the bytes that a strictly valid base64 payload
  encodes; the query form is never answered; an OSC string longer than its limit is
  dropped whole.
- A cleaned paste holds no ESC, no line feed, no C0 control but TAB and CR, no DEL and
  no UTF-8 encoded C1 control.
- No `DYLD_` variable reaches the shell's environment.
- Dropped paths become one shell word each, which the shell reads back as the path.
- Feeding bytes in two pieces gives the state that feeding them at once gives, wherever
  the split falls, unless the first piece ends inside a run of text and leaves the
  cursor on the orphaned right half of a wide character (`Term::feed`'s contract; the
  model-level laws in `vt/laws.rs` and `vt/split.rs` state the parts that need no
  well-formed state).
- An OSC 2 title is the payload decoded, stripped of control characters and cut to the
  longest prefix that fits 255 bytes.
- `frame` paints exactly the rows marked for drawing, cell by cell, and a frame with
  nothing marked changes no pixel. A row it draws comes out the same whatever the
  buffer held (where the row holds no orphaned right half of a wide character), pixels
  on which two buffers agreed stay in agreement, and a full frame forgets the old
  picture entirely.
- Font parsing reads only within the file and gives the glyph that the character maps
  hold: for sorted tables, the glyph of the group or segment that holds the code point.
- A glyph's contours become exactly the lines and curves that the on- and off-curve
  points call for, with the implied points between off-curve points.

The embedded font is read at run time from `font/3270NerdFont-Regular.ttf` beside the
executable.
