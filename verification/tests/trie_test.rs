use std::cell::RefCell;
use std::rc::Rc;
use std::sync::Arc;

use bustub_rust::primer::trie::Trie;
use bustub_rust::primer::trie::TrieFn;
use bustub_rust::primer::trie::TrieNode;
use bustub_rust::primer::trie::TrieNodeFn;

#[test]
fn trie_test_test_trie() {
    let value = Rc::new(RefCell::new(5));

    *value.borrow_mut() = 10;
    println!("{:?}", value);
}

#[test]
fn test_trie() {
    let trie = Trie::<i32>::new();
    let trie = trie.put("hello".to_string(), 1);
    let trie = trie.put("world".to_string(), 2);
    let trie = trie.put("hello world".to_string(), 3);
    assert_eq!(*trie.get("hello".to_string()).unwrap(), 1);
}

#[test]
fn test_remove() {
    let trie = Trie::<i32>::new();
    let trie = trie.put("hello".to_string(), 1);
    let trie = trie.put("hel".to_string(), 2);
    let trie = trie.put("h".to_string(), 3);
    let trie = trie.remove("hello".to_string());
    assert!(trie.get("hello".to_string()).is_none());
    assert!(trie.get("hell".to_string()).is_none());
    assert!(trie.get("hel".to_string()).is_some());
}

#[test]
fn test_round_trip() {
    let trie = Trie::<u64>::new();
    let trie = trie.put("key".to_string(), 42);
    assert_eq!(*trie.get("key".to_string()).unwrap(), 42);
}

#[test]
fn test_overwrite() {
    let trie = Trie::<i32>::new();
    let trie = trie.put("k".to_string(), 1);
    let trie = trie.put("k".to_string(), 2);
    assert_eq!(*trie.get("k".to_string()).unwrap(), 2);
}

#[test]
fn test_prefix_independence() {
    let trie = Trie::<i32>::new();
    let trie = trie.put("hello".to_string(), 1);
    assert!(trie.get("hel".to_string()).is_none());
    assert!(trie.get("h".to_string()).is_none());
    assert!(trie.get("hello".to_string()).is_some());
    let trie = trie.put("hel".to_string(), 2);
    assert_eq!(*trie.get("hel".to_string()).unwrap(), 2);
}

#[test]
fn test_remove_then_get() {
    let trie = Trie::<i32>::new();
    let trie = trie.put("gone".to_string(), 9);
    let trie = trie.remove("gone".to_string());
    assert!(trie.get("gone".to_string()).is_none());
}

#[test]
fn test_remove_preserves_siblings() {
    let trie = Trie::<i32>::new();
    let trie = trie.put("hello".to_string(), 1);
    let trie = trie.put("hel".to_string(), 2);
    let trie = trie.put("h".to_string(), 3);
    let trie = trie.remove("hello".to_string());
    assert!(trie.get("hello".to_string()).is_none());
    assert!(trie.get("hell".to_string()).is_none());
    assert_eq!(*trie.get("hel".to_string()).unwrap(), 2);
    assert_eq!(*trie.get("h".to_string()).unwrap(), 3);
}

#[test]
fn test_remove_absent_is_noop() {
    let trie = Trie::<i32>::new();
    let trie = trie.put("here".to_string(), 5);
    let trie = trie.remove("missing".to_string());
    let trie = trie.remove("her".to_string());
    assert_eq!(*trie.get("here".to_string()).unwrap(), 5);
}

#[test]
fn test_structural_sharing_lookups() {
    let t0 = Trie::<i32>::new();
    let t0 = t0.put("abc".to_string(), 1);
    let t1 = t0.put("xyz".to_string(), 2);
    // the older version is untouched by the newer one
    assert!(t0.get("xyz".to_string()).is_none());
    assert_eq!(*t0.get("abc".to_string()).unwrap(), 1);
    // the key off the rewritten path answers identically in both versions
    assert_eq!(*t1.get("abc".to_string()).unwrap(), 1);
    assert_eq!(*t1.get("xyz".to_string()).unwrap(), 2);
}

#[test]
fn test_empty_trie_and_empty_key() {
    let trie = Trie::<i32>::new();
    assert!(trie.get("anything".to_string()).is_none());
    assert!(trie.get("".to_string()).is_none());
    let trie2 = trie.put("".to_string(), 7);
    assert!(trie2.get("".to_string()).is_none());
    let trie3 = trie2.remove("".to_string());
    assert!(trie3.get("".to_string()).is_none());
    let trie4 = trie3.put("a".to_string(), 1);
    let trie5 = trie4.remove("".to_string());
    assert_eq!(*trie5.get("a".to_string()).unwrap(), 1);
}

#[test]
fn test_unicode_keys() {
    let trie = Trie::<i32>::new();
    let trie = trie.put("日本語".to_string(), 1);
    let trie = trie.put("日本".to_string(), 2);
    assert_eq!(*trie.get("日本語".to_string()).unwrap(), 1);
    assert_eq!(*trie.get("日本".to_string()).unwrap(), 2);
    assert!(trie.get("日".to_string()).is_none());
}

#[test]
fn test_node_api() {
    // build h -> i by hand through the node interface
    let mut leaf = TrieNode::<i32>::new();
    leaf.set_value(10);
    leaf.set_is_value_node(true);
    assert!(leaf.get_is_value_node());
    assert_eq!(*leaf.get_value().unwrap(), 10);

    let mut root = TrieNode::<i32>::new();
    root.add_child('i', Arc::new(leaf));
    assert!(root.get_child('i').is_some());
    assert!(root.get_child('j').is_none());
    assert_eq!(root.get_children().len(), 1);

    let trie = Trie::new_with_root(Arc::new(root));
    assert_eq!(*trie.get("i".to_string()).unwrap(), 10);
    assert!(trie.get("ij".to_string()).is_none());
}

#[test]
fn test_node_clone_and_remove_child() {
    let mut leaf = TrieNode::<i32>::new();
    leaf.set_value(4);
    leaf.set_is_value_node(true);
    let mut node = TrieNode::<i32>::new_with_children(vec![('a', Arc::new(leaf))], false);
    let copy = TrieNodeFn::clone(&node);
    assert!(copy.get_child('a').is_some());
    node.remove_child('a');
    assert!(node.get_child('a').is_none());
    // the copy shares the old child list, not the mutated one
    assert!(copy.get_child('a').is_some());
    let trie = Trie::new_with_root(Arc::new(*copy));
    assert_eq!(*trie.get("a".to_string()).unwrap(), 4);
}

#[test]
fn test_get_root_shares_version() {
    let trie = Trie::<i32>::new();
    let trie = trie.put("pq".to_string(), 3);
    let again = Trie::new_with_root(trie.get_root());
    assert_eq!(*again.get("pq".to_string()).unwrap(), 3);
    let cloned = trie.clone();
    assert_eq!(*cloned.get("pq".to_string()).unwrap(), 3);
}

#[test]
fn test_remove_interior_value_keeps_descendants() {
    let trie = Trie::<i32>::new();
    let trie = trie.put("a".to_string(), 1);
    let trie = trie.put("ab".to_string(), 2);
    // "a" has a child, so removal only clears its end-of-key flag
    let trie = trie.remove("a".to_string());
    assert!(trie.get("a".to_string()).is_none());
    assert_eq!(*trie.get("ab".to_string()).unwrap(), 2);
}

#[test]
fn test_remove_prunes_whole_branch() {
    let trie = Trie::<i32>::new();
    let trie = trie.put("abc".to_string(), 1);
    let trie = trie.put("x".to_string(), 9);
    // removing "abc" leaves "ab" and "a" childless and valueless: both pruned
    let trie = trie.remove("abc".to_string());
    assert!(trie.get("abc".to_string()).is_none());
    assert!(trie.get("ab".to_string()).is_none());
    assert!(trie.get("a".to_string()).is_none());
    assert_eq!(*trie.get("x".to_string()).unwrap(), 9);
    // the branch can be rebuilt afterwards
    let trie = trie.put("ab".to_string(), 5);
    assert_eq!(*trie.get("ab".to_string()).unwrap(), 5);
}
