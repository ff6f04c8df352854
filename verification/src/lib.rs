//! A content-addressed version-control core: an object model with canonical
//! serialization and hashing, a staging index with a binary on-disk format, a
//! tree builder, and a reference store covering branches, merging, rebasing
//! and stashing. All state-changing operations work on in-memory models of
//! the on-disk structures; callers persist the results.

pub mod error;
pub mod hash;
pub mod hex;
pub mod index;
pub mod num;
pub mod object;
pub mod refs;
pub mod signature;
pub mod store;
pub mod strutil;
pub mod tree;
pub mod workspace;

pub use error::VcsError;
