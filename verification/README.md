# awa

A desktop mascot that floats around the screen, follows the mouse and
switches personality modes on right-click.

- `src/` is the verified library: the mascot's modes and states, its
  placeholder drawing into an RGBA frame (`mascot`), and the Aseprite sprite
  sheet: atlas model, animation-tag table, frame blitting and clip
  animation (`sprite`).
- `app/` is the program around it: the window and event loop (winit,
  pixels), the global mouse hook (rdev), the spring physics and timers
  (floating point), and loading sprite sheets from disk (serde_json).
