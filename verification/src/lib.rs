//! A segmented, append-only directory layer for a full-text search engine.
//!
//! Logical files are written as fragments of one growing physical segment;
//! an index maps each logical path to the physical byte ranges that hold its
//! contents. Reads resolve a logical byte range to a list of physical ranges,
//! and an export step copies every live logical file contiguously into a
//! self-describing published segment with a metadata blob and a fixed footer.

pub mod codec;
pub mod directory;
pub mod doc_block;
pub mod errors;
pub mod fragments;
pub mod laws;
pub mod metadata;
pub mod paths;
pub mod reader;
pub mod schema;
pub mod writer;
