# agent_r

A desktop companion: a borderless, always-on-top window shows a character
image (a GIF animation or a still picture) with a speech bubble above it.
Messages are queued, revealed character by character, sped up or advanced
with a click, and the window sits in the notification area with a menu to
close it.

`src/` is the library, verified with Verus:

- `raster`: the RGBA canvas of the `image` crate as the proofs see it, and
  exact source-over blending of single pixels.
- `shapes`: rounded rectangles, triangles, Bresenham lines and 8x8 glyphs of
  `font8x8`, each stated as the set of pixels it blends onto.
- `text`: greedy word wrapping with long words split, and its laws.
- `layout`: where the bubble, its tail and the image go, and how the bubble
  is drawn and hit.
- `speech`: the bubble's state machine (queue, reveal, advance) and the
  composed picture.
- `frames`: decoding the character's picture (through the `image` crate)
  into frames fitted to a size limit, and the bytes of the layered window.
- `tray`, `sensors`: the tray icon's bitmaps and message handling, and
  which temperature readings count.
- `input`: when the secret key pushes its message and when the animation
  moves to its next frame.

`app/` is the program around it: the window and event loop (`winit`), the
Windows calls, reading files from disk and the temperature sensors.
