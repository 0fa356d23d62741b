//! Engine core: texture-atlas packing, UI hierarchy, input state, the frame
//! pacing, batching and bookkeeping of the renderer, and the physics glue of
//! the editor's gizmo, with their contracts.

pub mod atlas_image;
pub mod batching;
pub mod deletion_queue;
pub mod font;
pub mod frames;
pub mod glyph_atlas;
pub mod handles;
pub mod input;
pub mod physics;
pub mod shapes;
pub mod skybox;
pub mod textures;
pub mod ui;
