//! Lazy memory initialization for GPU resources: tracks which bytes of
//! buffers and which layers of texture mip levels are not yet known to be
//! initialized, records the accesses of a command sequence, and resolves a
//! submitted batch into the minimal set of zero-fill commands.
//!
//! - `init_tracker`: canonical sets of uninitialized ranges.
//! - `resource`: buffers and textures with their trackers, and the storages
//!   that map ids to live resources.
//! - `action`: logged accesses, discards, emitted commands and errors.
//! - `memory_actions`: the per-sequence log and its discard resolution.
//! - `fixup`: zero fills for discarded surfaces during recording.
//! - `resolve`, `resolve_texture`: resolution of a submitted batch.
//! - `laws`: properties that hold across calls.
pub mod init_tracker;
pub mod resource;
pub mod action;
pub mod memory_actions;
pub mod fixup;
pub mod resolve;
pub mod resolve_texture;
pub mod laws;
