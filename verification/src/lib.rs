//! An ephemeral, in-process file system: a tree of named directories and
//! files whose contents live in a store of growable byte buffers.
//!
//! The file system owns every buffer. A file handle is a buffer name plus a
//! cursor, so any number of handles can address the same bytes and each sees
//! what the others wrote.
//!
//! - [`filesystem`]: what users work with, `MemoryFS`, `MemoryPath` and
//!   `MemoryFile`.
//! - [`state`]: the file system as a mathematical value, which the
//!   contracts of all operations speak of.
//! - [`tree`]: the nodes and buffers in memory, and the traversals.
//! - [`node`], [`pathname`], [`bytes`], [`error`]: their parts.
//! - [`laws`]: theorems about the states that the operations lead to.

pub mod bytes;
pub mod error;
pub mod filesystem;
pub mod laws;
pub mod node;
pub mod pathname;
pub mod state;
pub mod tree;
