//! Core data model of a small content-addressed version-control store:
//! object encoding and hashing, an object database keyed by content hash,
//! directory snapshots as Merkle trees, commit metadata, and the porcelain
//! operations that tie them together around a single HEAD pointer.

pub mod commits;
pub mod ignore;
pub mod objects;
pub mod porcelain;
pub mod store;
pub mod text;
pub mod tree;
mod trusted;

pub use commits::{OgitCommit, Timestamp, TzOffset};
pub use objects::{OgitError, OgitObject, OgitObjectType};
pub use store::ObjectStore;
pub use tree::{FsDir, FsEntry, RestoreFile, TreeEntry};
