//! A single-pass batch feed synchronizer: it merges parsed feed entries into a
//! persistent registry of documents, deduplicating against everything seen in
//! earlier runs, and keeps a separate set of documents marked as read.
//!
//! The registry and the merge pipeline are verified; snapshot files are plain
//! JSON documents encoded and decoded by the verified codec in this crate.

pub mod codec;
pub mod errors;
pub mod sync;
pub mod pipeline;
pub mod registry;
