//! Decoder for a chunk-based binary save format.
//!
//! The format is self-describing: every structured chunk carries a field
//! schema ahead of its data, and schemas nest recursively for struct-typed
//! fields. This crate provides the variable-length ("gamma") integer codec,
//! the byte-source abstraction over raw or compressed input, the recursive
//! schema reader, the schema-driven record decoder, the dense and sparse
//! table readers, and the top-level chunk loop.

pub mod base_readers;
pub mod common;
pub mod header;
pub mod loader;
pub mod save_file;
pub mod table_reader;
