//! A minimal content-addressable object store.
//!
//! Typed byte payloads are framed, digested, compressed and kept under a
//! key derived from the digest of their own frame.  Directory snapshots
//! become `tree` objects and history nodes become `commit` objects, both
//! built on the same store primitive.

pub mod bytes;
pub mod codec;
pub mod commit;
pub mod digest;
pub mod hex;
pub mod object;
pub mod store;
pub mod tree;
