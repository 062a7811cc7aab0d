//! Locates a project's manifest and lock files by walking up the directory
//! tree, parses their table-structured configuration text into an ordered
//! document model, inserts or replaces dependency entries, and re-serializes
//! the document with the primary section ("package" or "project") first.

pub mod doc;
pub mod errors;
pub mod locate;
pub mod manifest;
pub mod parse;
pub mod render;
pub mod roundtrip;
