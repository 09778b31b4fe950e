//! Content-based comparison of two directory trees.
//!
//! A snapshot of each tree maps every surviving relative path to a record
//! holding the file's size and a SHA-256 fingerprint of its bytes.  Two
//! snapshots are then compared by path: a path only in the target is
//! `Added`, only in the source is `Removed`, in both with differing
//! fingerprints is `Modified`.  Hidden paths and paths matching the
//! configured exclusion rules never enter a snapshot.
//!
//! All path handling in this crate uses `/` as the separator; callers that
//! walk a filesystem normalize paths before handing them in.

pub mod chars;
pub mod compare;
pub mod config;
pub mod exclude;
pub mod hashing;
pub mod snapshot;
