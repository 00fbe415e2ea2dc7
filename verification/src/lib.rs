//! Verified core of the Aerugo Wayland compositor.
//!
//! The modules hold the data structures and decision logic of the compositor: the scene forest
//! and scene graph, the shell's toplevel bookkeeping, the transaction dependency tracker, pixel
//! format tables, and Vulkan versions, errors, instance requests, allocator checks and memory
//! accounting.

pub mod cli;
pub mod forest;
pub mod format;
pub mod scene;
pub mod shell;
mod slots;
pub mod transaction;
pub mod vulkan;
