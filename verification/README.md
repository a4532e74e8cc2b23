# boot catcher (verified core)

A bot for the Dota 2 Dark Carnival "Boot Catcher" minigame on Linux
(X11/XWayland): it captures the game window, finds the falling boot and the
cart, and steers the cart with the A and D keys.

- `src/` is the library, verified with Verus: window and crop selection,
  X image conversion, colour tests, cart and boot detection, key handling,
  text and command-line reading. Each public function states its result in
  its contract; laws about several functions are proof functions beside them.
- `app/` is the program around it: the Xlib/XTest/MIT-SHM bindings, the
  capture loop, timing, logging, and the motion tracking and steering, which
  work on floating-point positions and speeds.
- `tests/` runs the library on concrete frames, headers and texts.
