//! Mockup Studio's document model and editing logic: the layered project
//! data, id allocation and lookup, the bounded undo/redo history, the
//! multi-selection rules and commands of the editor, the asset cache's
//! bookkeeping, the asset-path bookkeeping and wire framing used by LAN
//! collaboration, greedy text wrapping, image compositing, and font
//! selection by weight.
pub mod assets;
pub mod bundled;
pub mod editing;
pub mod fonts;
pub mod history;
pub mod model;
pub mod network;
pub mod render;
