//! An embedded-database mapping layer core: a typed columnar compression
//! codec for numeric sequences, and a schema migration engine that compares
//! the schema implied by static column descriptors against the schema found
//! in the database and plans or performs the necessary rebuild.
//!
//! Storage plumbing (connections, statement execution, row streaming) lives
//! outside this crate; the functions here work on plain values.

pub mod codec;
pub mod introspect;
pub mod lz4;
pub mod migrate;
pub mod numtext;
pub mod schema;
pub mod text;
pub mod utils;
pub mod value;
pub mod varint;
