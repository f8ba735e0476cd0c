//! Verified core logic of the game engine: the asset browser's history
//! and listing order,
//! the bounding volume hierarchy
//! node format and its building, the docking tree and window table of the
//! editor, text cursors and text input editing, the console's log view,
//! the index buffers of the UI meshes,
//! and the CPU-side bookkeeping of the renderer (frames in flight, storage
//! buffers, staging uploads, gizmo batches).

pub mod asset_io;
pub mod browser;
pub mod bvh;
pub mod bvh_build;
pub mod console;
pub mod dock;
pub mod editor;
pub mod gizmos;
pub mod listing;
pub mod mesh;
pub mod morton;
pub mod render;
pub mod storage;
pub mod text_cursor;
pub mod text_edit;
pub mod ui;
pub mod upload;
pub mod widgets;
pub mod windows;
