//! Chunk-level editing of PNG container files.
//!
//! The crate models the PNG container format at the chunk level: a 4-byte
//! chunk-type code whose letter cases encode property bits, a single
//! length-prefixed and CRC-protected chunk record, and a whole-file container
//! holding the fixed signature and an ordered chunk sequence. Parsing,
//! serialization and the structural edits (append, lookup, removal) are
//! verified to round-trip byte-exactly and to reject malformed input
//! deterministically.

pub mod chunk;
pub mod chunk_type;
pub mod png;
pub mod wire;
