//! Core of a dual-pane terminal file manager.
//!
//! The heart of the crate is a verified filesystem mutation engine: copy,
//! move, delete, create and rename operations over an in-memory filesystem
//! model, with streamed progress messages, collision-free destination
//! naming, trash-based soft deletion and a bounded undo history whose
//! entries are exact inverses of the forward operations.  The surrounding
//! binary performs the real disk I/O; everything that decides *what*
//! happens lives here and is verified.

pub mod find;
pub mod fsmodel;
pub mod fspath;
pub mod icons;
pub mod laws;
pub mod ops;
pub mod panel;
pub mod preview;
pub mod strutil;
pub mod tab;
pub mod tree;
pub mod util;
