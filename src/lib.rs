//! A persistent hash map built as a hash array mapped trie.
//!
//! Every update returns a new version and leaves the old one valid; the versions share
//! all nodes off the updated path.

pub mod bucket;
pub mod hamt;
pub mod laws;
pub mod pairs;

pub use bucket::Bucket;
pub use hamt::{HAMTIterator, HAMT};
