//! Locates and parses the structural metadata of a classic (non-incremental)
//! PDF file held in memory: the `%%EOF` marker, the cross-reference (xref)
//! table, and the trailer dictionary. The caller owns the byte source; this
//! crate performs no I/O of its own.

pub mod laws;
pub mod reader;
pub mod text;
pub mod trailer;
pub mod utils;
