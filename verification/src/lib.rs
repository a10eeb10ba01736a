//! A persistent (copy-on-write) prefix tree keyed by character sequences,
//! together with a thread-safe versioned store built on top of it.
//!
//! A [`primer::trie::Trie`] is an immutable handle over one version of the
//! tree: `put` and `remove` build a fresh path of nodes from the root to the
//! affected key and share every untouched subtree with the prior version.
//! A [`primer::trie_store::TrieStore`] holds the current version behind a
//! reader-writer lock, serializes writers, and hands out snapshots that stay
//! readable after later writes.

pub mod primer;
