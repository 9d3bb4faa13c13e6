//! Decoder for the "pak" archive container format.
//!
//! A pak archive is a single binary blob, obfuscated by XOR-ing every byte
//! with a fixed key.  The plaintext holds a header (magic and version), a
//! variable-length record table closed by a terminator byte, and the
//! concatenated payloads of the records in table order.  This crate verifies
//! the whole decode path: the XOR transform, a cursor-based stream reader
//! with typed reads, and the archive parser that turns a plaintext buffer
//! into the list of files to materialize.  Filesystem work is left to the
//! caller.

pub mod bytes;
pub mod reader;
pub mod archive;
pub mod laws;
