# Mockup Studio

A desktop editor for App Store / Play Store screenshot mockups: device
frames, photos, text and shapes laid out on a canvas and exported to PNG.

The document model and the editing rules are a Verus-verified library; the
window, the pointer handling, the floating-point geometry and the pixel
arithmetic live in a thin application around it.

## Layout

- `src/` — the verified library
  - `model.rs` — projects, layers and their abstract views; id allocation
    and lookup; the default project
  - `history.rs` — the bounded undo/redo stacks, with their laws
  - `editing.rs` — editor commands: selection, delete, duplicate, add,
    reorder, visibility, screen photos of device frames, hit testing,
    drag grabbing, keyboard shortcuts, undo/redo
  - `network.rs` — message framing for LAN collaboration and the image
    paths that travel with (and are rewritten in) a synced project
  - `render.rs` — paint-layer scaling, background fitting and 2x upscaling,
    greedy word wrapping and RGBA compositing (the float measurements and
    blends are handed in)
  - `assets.rs` — the image cache's bookkeeping (bounded renditions,
    invalidation) and the cropping and resizing that make a rendition
  - `fonts.rs` — font loading and selection by weight
  - `bundled.rs` — the paths of the bundled photos and frame images
- `tests/` — tests of the library
- `app/` — the egui application: UI, templates, rasterizer, asset cache,
  JSON save/load and the TCP session

The fonts and the bundled photos and frame images are read at run time from
an `assets/` directory beside the executable or in the working directory;
a font that cannot be loaded is reported on standard error.

Geometric values are `f32` in the application and are held in the library
as their bit patterns (`F32Bits`), which the library stores and compares but
never computes with.
