//! The in-memory indexing primitive: the copy-on-write trie and the
//! versioned store that serves snapshots of it.

pub mod trie;
pub mod trie_store;
