//! Detection of silent data corruption over a tree of files: content
//! fingerprints, a persisted index of them, and the reconciliation of that
//! index with what is on disk.
pub mod database;
pub mod format;
pub mod hash;
pub mod reconcile;
mod text;
