# pixel_engine

A pixel drawing engine in the spirit of the olcPixelGameEngine: sprites, colors, shapes,
text, input state, with every drawing algorithm specified and proved with Verus.

## Layout

- `src/` — the verified library.
  - `color.rs` — RGBA colors, the named colors, and their byte and `u32` forms.
  - `vector2.rs` — 2D vectors: dot and cross products, the normal, component operators.
  - `sprite.rs` — sprites (RGBA pixel grids), loading from RGBA data or encoded images,
    sub sprites that never overlap, and the pixel trait `DrawSpriteTrait`.
  - `drawing.rs` — the drawing trait `SmartDrawingTrait` and, for free on top of it, lines
    (Bresenham), rectangles, circles (midpoint), triangles, dotted shapes and sprites. Each
    operation's contract gives the exact sequence of points it draws.
  - `text.rs` — the built-in 8 by 8 font and the layout of drawn text.
  - `inputs.rs` — keys, mouse and the per-frame input state machine.
  - `swap_buffer.rs`, `gpu_layout.rs` — the bookkeeping of the GPU side.
- `app/` — what the library does not verify: the window and its event loop, the OpenGL and
  wgpu renderers, image files, and everything in floating point (alpha blending, float
  colors and vectors). `app/engine.rs` drives the verified input state machine.
- `tests/` — tests of the library on concrete values.

The renderers read their shaders at run time from a `shaders` directory.

## What is proved of the drawing targets

`DrawSpriteTrait` and `SmartDrawingTrait` are open traits: a drawing target implements them.
Their model functions (`well_formed`, `spec_dims`, `spec_pixel_at`, `drawn`, `cleared`,
`textsheet`, `pixel_mode`) have unspecified default definitions, so that plain Rust can
implement the traits by their methods alone. The drawing algorithms are proved against those
models: each shape's contract says which points reach `draw`, in which order, and with which
color. What the points then do to the pixels is only known of a target whose implementation
defines the model. No implementation in `src/` does: the targets in `app/` (`DrawingSprite`,
the engine's screen) blend colors in floating point and are not verified, so for them nothing
proved reaches the final pixels. `Sprite` itself implements `DrawSpriteTrait` in `src/` with a
defined model, and `clear_pixels` is proved on any target that defines one.
