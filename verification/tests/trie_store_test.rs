use bustub_rust::primer::trie::TrieFn;
use bustub_rust::primer::trie_store::TrieStore;
use bustub_rust::primer::trie_store::ValueGuard;

#[test]
fn test_trie_store() {}

#[test]
fn test_trie_store_put_get() {
    let store = TrieStore::<i32>::new();
    store.put("hello".to_string(), 1);
    store.put("world".to_string(), 2);
    let guard = store.get("hello".to_string()).unwrap();
    assert_eq!(*guard.get_value(), 1);
    assert!(store.get("absent".to_string()).is_none());
}

#[test]
fn test_trie_store_remove() {
    let store = TrieStore::<i32>::new();
    store.put("k".to_string(), 7);
    store.remove("k".to_string());
    assert!(store.get("k".to_string()).is_none());
}

#[test]
fn test_trie_store_snapshot_isolation() {
    let store = TrieStore::<i32>::new();
    store.put("k".to_string(), 1);
    let guard = store.get("k".to_string()).unwrap();
    // later writes install newer versions; the guard still reads its own
    store.put("k".to_string(), 2);
    store.remove("k".to_string());
    assert_eq!(*guard.get_value(), 1);
    // the guard's snapshot still answers for its version
    let snapshot = guard.get_root();
    assert_eq!(*snapshot.get("k".to_string()).unwrap(), 1);
    // the store itself has moved on
    assert!(store.get("k".to_string()).is_none());
}

#[test]
fn test_trie_store_handles_share_state() {
    let store = TrieStore::<i32>::new();
    let other = store.clone();
    for i in 0..10 {
        other.put(format!("hello{}", i), i);
    }
    for i in 0..10 {
        assert_eq!(*store.get(format!("hello{}", i)).unwrap().get_value(), i);
    }
}

#[test]
fn test_value_guard_new() {
    let guard = ValueGuard::<i32>::new();
    assert!(guard.get_root().get("any".to_string()).is_none());
    assert_eq!(*guard.get_value(), 0);
}
