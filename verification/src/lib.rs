//! A minimal content-addressable object store: the plumbing layer of a
//! version-control system.
//!
//! Objects (blobs, trees, commits) are immutable records identified by the
//! SHA-1 digest of their canonical encoding. The library provides the codec
//! for the on-disk loose-object format, the structural rules for each object
//! kind, the canonical-hash computation, and the pure parts of the object
//! store (path layout, name matching, and corruption checks). All filesystem
//! work is left to the embedding program, which hands this library plain
//! bytes and strings.

pub mod bytesutil;
pub mod commit;
pub mod digest;
pub mod error;
pub mod ids;
pub mod numbers;
pub mod object;
pub mod store;
pub mod tree;
pub mod treewalk;
pub mod zlib;

pub use error::StoreError;
