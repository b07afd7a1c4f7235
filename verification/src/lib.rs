//! A verified library for the chunk-based container format of a raster
//! image file.
//!
//! A container is a fixed eight-byte signature followed by an ordered
//! sequence of chunks.  Each chunk carries a four-letter type tag, an
//! opaque payload, and a CRC-32 checksum over tag and payload.  The
//! library parses a byte buffer into chunks, lets a caller look up,
//! append, or remove a chunk by its tag, and serializes the sequence
//! back to bytes.

pub mod chunk;
pub mod chunk_type;
pub mod container;
pub mod text;
pub mod wire;
