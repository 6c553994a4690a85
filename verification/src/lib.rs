//! A small, tagged-object heap for cons-cell data structures.
//!
//! The heap is a fixed-capacity bump-allocated arena of 64-bit words.  Every
//! object ("chunk") is one header word followed by payload words; the header
//! encodes a raw flag, a type tag and the chunk's total word count.  Typed
//! handles give runtime tag-checked access, traced reference slots ("cells")
//! carry the object graph, and a Cheney-style copying collector relocates the
//! part of the graph reachable from a caller-supplied root set into a fresh
//! arena, preserving structure, sharing and cycles.

pub mod collector;
pub mod grammar;
pub mod header;
pub mod memory;
pub mod model;
pub mod printer;
