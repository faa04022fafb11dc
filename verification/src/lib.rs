//! The directory-serving core of a remote-backed virtual filesystem:
//! immutable listing snapshots, a table of open directory handles, and a
//! bounded least-recently-used cache of listings, composed behind an
//! `open`/`read`/`free` surface. The remote transport and the inode
//! registration collaborator stay outside; the pool takes their results
//! as plain values.

pub mod cache;
pub mod error;
pub mod handles;
pub mod pool;
pub mod snapshot;
