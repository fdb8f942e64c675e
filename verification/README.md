# rustbrush

An automatic sign painter for the game Rust: it turns an image into mouse and
keyboard actions that paint it on an in-game sign, using only OS-level input.

The crate is written in Verus.

- `src/` is the verified library: palette matching and quantization, grouping
  pixels by color, detecting lines, ordering strokes (nearest neighbor, 2-opt),
  the painting strategies and the plans they emit, image geometry (fit, fill,
  crop, rotations, flips, median filter), canvas presets, sessions, settings
  parsing, the adaptive delay, version comparison for updates, palette sampling
  from screen captures, and the decisions of plan execution. Each public
  function states its result in its contract; laws that relate several
  functions are public proof functions.
- `app/` is the program around it: command line, image files, floating-point
  image adjustments and CIEDE2000 matching, text rendering, the generated sign
  library, screen capture, hotkeys, real input and the execution loop.
- `tests/` runs the library on concrete values.
