# hexxengine

The core of a small Vulkan game engine, written in Verus: the parts that
decide things carry contracts and are proved, and the parts that only talk to
the window, the GPU, FreeType or the physics engine live beside them as plain
Rust.

## Layout

- `src/` — the verified library.
  - `glyph_atlas.rs`: packs rasterised glyphs into free rectangles of a
    texture (best-fit bin choice, carving, pruning, blitting, dirty region).
  - `atlas_image.rs`: an RGBA debug view of the atlas with the free bins
    outlined.
  - `ui.rs`: the UI element tree (parent, first/last child and sibling links
    kept in a `thunderdome` arena), its elements, and text-box layout.
  - `input.rs`: keyboard and mouse state and the per-frame event record.
  - `batching.rs`: groups UI draws and mesh instances into draw batches, and
    says which pipeline and material each batch has to bind.
  - `frames.rs`: the frame schedule of the renderer (resize gating, frame
    slots, skybox uploads), the swapchain size and the queue family choice.
  - `handles.rs`: which handle of the editor's transform gizmo is hovered and
    dragged.
  - `font.rs`: glyph keys, glyph data and the per-font glyph cache.
  - `deletion_queue.rs`: defers GPU resource destruction by the frames in
    flight.
  - `physics.rs`: packing of physics-body userdata words.
  - `shapes.rs`, `textures.rs`: rectangles, regions, cube-map face layout and
    the cross layout of skybox images.
  - `skybox.rs`: decodes a cross-shaped skybox image and cuts its six faces
    out of it.
- `tests/` — tests of the library.
- `app/` — the glue around it: winit input, UI layout and hit-testing in
  floating point, FreeType bindings and font loading, the Vulkan frame loop,
  buffers and draw calls, textures, glTF loading and skybox file reading, rapier parts and
  the gizmo, and the entity-component world.

`app/` binds FreeType through the `paidtype` crate, which the crate registry
does not offer, so `app/` does not build here. `Cargo.toml` does not list it
for that reason. `app/` also leaves out the Vulkan device, pipeline and
descriptor set-up, the window and game-loop shell, and the two demo programs.
