//! A minimal content-addressable version-control core.
//!
//! Objects (blobs, trees, commits) have one canonical byte encoding and are
//! addressed by the cryptographic digest of that encoding.  The crate offers
//! an in-memory repository with a deduplicating object store, a path-keyed
//! staging index, a tree builder that turns the flat index into a directory
//! tree of objects, a commit builder, and a reference store with symbolic
//! indirection.

pub mod bytes;
pub mod object;
pub mod digest;
pub mod codec;
pub mod index;
pub mod repo;
pub mod tree;
