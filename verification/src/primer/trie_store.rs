//! The thread-safe versioned store over the copy-on-write trie.
//!
//! A [`TrieStore`] keeps the current [`Trie`] version behind one
//! reader-writer lock.  Writers are serialized: each takes the exclusive
//! lock, computes a new version functionally, and swaps it in.  Readers take
//! the shared lock only long enough to capture a snapshot and a value
//! reference, bundled as a [`ValueGuard`]; the snapshot keeps its whole node
//! graph alive however many newer versions are installed afterwards.

use std::sync::Arc;
use vstd::prelude::*;
use vstd::rwlock::RwLock;

use crate::primer::trie::Trie;
use crate::primer::trie::TrieFn;

verus! {

/// A snapshot capability: one trie version together with a value reference
/// obtained from it, keeping both alive after the store's lock is released.
pub struct ValueGuard<T: Default> {
    root: Trie<T>,
    value: Arc<T>,
}

impl<T: Default> ValueGuard<T> {
    /// The version this guard was read from.
    pub closed spec fn spec_root(&self) -> Trie<T> {
        self.root
    }

    /// The value this guard protects.
    pub closed spec fn spec_value(&self) -> T {
        *self.value
    }

    /// A guard over a fresh, empty version, holding a bookkeeping default.
    pub fn new() -> (r: Self)
        ensures
            r.spec_root().wf(),
            r.spec_root()@ == Map::<Seq<char>, T>::empty(),
    {
        ValueGuard { root: Trie::new(), value: Arc::new(T::default()) }
    }

    /// The guarded value cell, shared.
    pub fn get_value(&self) -> (r: Arc<T>)
        ensures
            *r == self.spec_value(),
    {
        self.value.clone()
    }

    /// The trie version this guard keeps alive.
    pub fn get_root(&self) -> (r: Trie<T>)
        ensures
            r == self.spec_root(),
    {
        self.root.clone()
    }
}

/// The store's lock invariant: only well-formed versions are published.
pub open spec fn store_inv<T: Default>() -> spec_fn(Trie<T>) -> bool {
    |t: Trie<T>| t.wf()
}

/// A thread-safe container for the current trie version.  Handles obtained
/// by [`TrieStore::clone`] share one underlying store.
#[verifier::reject_recursive_types(T)]
pub struct TrieStore<T: Default> {
    root: Arc<RwLock<Trie<T>, spec_fn(Trie<T>) -> bool>>,
}

impl<T: Default> TrieStore<T> {
    /// Every version this store publishes is well-formed.
    #[verifier::type_invariant]
    spec fn wf(self) -> bool {
        forall|t: Trie<T>| #[trigger] self.root.inv(t) <==> t.wf()
    }

    /// A new store holding an empty trie.
    pub fn new() -> (r: Self) {
        let lock = RwLock::<Trie<T>, spec_fn(Trie<T>) -> bool>::new(
            Trie::new(),
            Ghost(store_inv::<T>()),
        );
        TrieStore { root: Arc::new(lock) }
    }

    /// Another handle on the same store, sharing the same current version.
    pub fn clone(&self) -> (r: TrieStore<T>) {
        proof {
            use_type_invariant(self);
        }
        TrieStore { root: self.root.clone() }
    }

    /// Hold the shared lock only long enough to look `key` up in the current
    /// version and, on a hit, capture that version and the value reference.
    /// The returned guard stays consistent indefinitely: its value is the
    /// value bound to `key` in its own snapshot, whatever is written to the
    /// store afterwards.
    pub fn get(&self, key: String) -> (r: Option<ValueGuard<T>>)
        ensures
            r matches Some(g) ==> g.spec_root().wf() && g.spec_root()@.contains_key(key@)
                && g.spec_value() == g.spec_root()@[key@],
    {
        proof {
            use_type_invariant(self);
        }
        let read_handle = self.root.acquire_read();
        let current = read_handle.borrow();
        let result = match current.get(key) {
            Some(value) => Some(ValueGuard { root: current.clone(), value }),
            None => None,
        };
        read_handle.release_read();
        result
    }

    /// Take the exclusive lock, compute the next version with `key` bound to
    /// `value`, and install it atomically.
    pub fn put(&self, key: String, value: T) {
        proof {
            use_type_invariant(self);
        }
        let (current, write_handle) = self.root.acquire_write();
        let next = current.put(key, value);
        write_handle.release_write(next);
    }

    /// Take the exclusive lock, compute the next version with `key` unbound,
    /// and install it atomically.
    pub fn remove(&self, key: String) {
        proof {
            use_type_invariant(self);
        }
        let (current, write_handle) = self.root.acquire_write();
        let next = current.remove(key);
        write_handle.release_write(next);
    }
}

} // verus!
