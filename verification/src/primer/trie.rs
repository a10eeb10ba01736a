//! The copy-on-write prefix tree.
//!
//! A [`TrieNode`] maps one symbol to one shared child apiece and may mark the
//! end of a key; a [`Trie`] is an immutable handle over one root.  Mutating
//! operations never touch a published node: they rebuild the path from the
//! root to the affected key and share every other subtree with the previous
//! version through reference counting.

use std::sync::Arc;
use vstd::prelude::*;

verus! {

/// One node of the prefix tree: an association list from symbol to shared
/// child node, a flag telling whether a key ends here, and a shared value
/// cell whose content is meaningful only while the flag is set.
pub struct TrieNode<T> {
    children: Vec<(char, Arc<TrieNode<T>>)>,
    is_value_node: bool,
    value: Arc<T>,
}

/// No symbol appears twice among the child entries.
pub open spec fn children_distinct<T>(s: Seq<(char, Arc<TrieNode<T>>)>) -> bool {
    forall|i: int, j: int|
        0 <= i < j < s.len() ==> (#[trigger] s[i]).0 != (#[trigger] s[j]).0
}

/// Some child entry carries the symbol `c`.
pub open spec fn children_contain<T>(s: Seq<(char, Arc<TrieNode<T>>)>, c: char) -> bool {
    exists|i: int| 0 <= i < s.len() && (#[trigger] s[i]).0 == c
}

/// The position of a child entry carrying the symbol `c`.
pub open spec fn children_index_of<T>(s: Seq<(char, Arc<TrieNode<T>>)>, c: char) -> int {
    choose|i: int| 0 <= i < s.len() && (#[trigger] s[i]).0 == c
}

/// The child node reached through the symbol `c`.
pub open spec fn children_child<T>(s: Seq<(char, Arc<TrieNode<T>>)>, c: char) -> TrieNode<T> {
    *s[children_index_of(s, c)].1
}

impl<T> TrieNode<T> {
    /// The child entries, as a sequence of (symbol, shared child) pairs.
    pub closed spec fn spec_children(self) -> Seq<(char, Arc<TrieNode<T>>)> {
        self.children@
    }

    /// Whether a key ends at this node.
    pub closed spec fn spec_is_value_node(self) -> bool {
        self.is_value_node
    }

    /// The content of the value cell.
    pub closed spec fn spec_value(self) -> T {
        *self.value
    }

    /// Whether this node has a child for the symbol `c`.
    pub open spec fn spec_has_child(self, c: char) -> bool {
        children_contain(self.spec_children(), c)
    }

    /// The child of this node for the symbol `c`.
    pub open spec fn spec_child(self, c: char) -> TrieNode<T> {
        children_child(self.spec_children(), c)
    }

    /// A node that may stay linked into a tree: it either leads somewhere or
    /// marks the end of a key.  Nodes failing this are pruned on removal.
    pub open spec fn non_dead(self) -> bool {
        self.spec_children().len() > 0 || self.spec_is_value_node()
    }

    /// Well-formedness: child symbols are distinct, and every descendant is
    /// itself well-formed and either has children or marks a key.
    pub closed spec fn wf(self) -> bool
        decreases self,
    {
        &&& children_distinct(self.children@)
        &&& forall|i: int|
            0 <= i < self.children@.len() ==> (#[trigger] self.children@[i]).1.wf()
                && self.children@[i].1.non_dead()
    }

    /// The value stored under `key` in the subtree rooted here, if any:
    /// follow one child per symbol, then require the value flag.
    pub closed spec fn spec_get(self, key: Seq<char>) -> Option<T>
        decreases key.len(),
    {
        if key.len() == 0 {
            if self.is_value_node {
                Some(*self.value)
            } else {
                None
            }
        } else if children_contain(self.children@, key[0]) {
            children_child(self.children@, key[0]).spec_get(key.drop_first())
        } else {
            None
        }
    }
}

/// At a position known to carry `c`, a distinct child list locates `c` there.
proof fn lemma_children_index<T>(s: Seq<(char, Arc<TrieNode<T>>)>, c: char, j: int)
    requires
        children_distinct(s),
        0 <= j < s.len(),
        s[j].0 == c,
    ensures
        children_contain(s, c),
        children_index_of(s, c) == j,
        children_child(s, c) == *s[j].1,
{
    assert(children_contain(s, c));
    let i0 = children_index_of(s, c);
    assert(0 <= i0 < s.len() && s[i0].0 == c);
    if i0 < j {
        assert(s[i0].0 != s[j].0);
    }
    if j < i0 {
        assert(s[j].0 != s[i0].0);
    }
}

/// Two nodes with equal fields agree on every lookup, on well-formedness,
/// and on liveness.
proof fn lemma_node_congruent<T>(a: &TrieNode<T>, b: &TrieNode<T>)
    requires
        a.spec_children() == b.spec_children(),
        a.spec_is_value_node() == b.spec_is_value_node(),
        a.spec_value() == b.spec_value(),
    ensures
        forall|k: Seq<char>| #[trigger] a.spec_get(k) == b.spec_get(k),
        a.wf() == b.wf(),
        a.non_dead() == b.non_dead(),
{
    assert forall|k: Seq<char>| #[trigger] a.spec_get(k) == b.spec_get(k) by {
        if k.len() == 0 {
        } else if children_contain(a.children@, k[0]) {
            assert(children_child(a.children@, k[0]) == children_child(b.children@, k[0]));
        }
    }
}

/// Removing position `j` and appending `(c, a)` updates the child for `c`
/// and leaves every other symbol's entry untouched.
proof fn lemma_children_replace<T>(s: Seq<(char, Arc<TrieNode<T>>)>, j: int, c: char, a: Arc<TrieNode<T>>)
    requires
        children_distinct(s),
        0 <= j < s.len(),
        s[j].0 == c,
    ensures
        ({
            let s2 = s.remove(j).push((c, a));
            &&& children_distinct(s2)
            &&& children_contain(s2, c)
            &&& children_child(s2, c) == *a
            &&& forall|d: char|
                d != c ==> #[trigger] children_contain(s2, d) == children_contain(s, d)
            &&& forall|d: char|
                d != c && children_contain(s, d) ==> #[trigger] children_child(s2, d)
                    == children_child(s, d)
            &&& forall|i: int|
                0 <= i < s2.len() ==> (#[trigger] s2[i]) == (c, a) || s.contains(s2[i])
            &&& s2.len() == s.len()
        }),
{
    let s2 = s.remove(j).push((c, a));
    assert forall|i: int| 0 <= i < s2.len() implies (#[trigger] s2[i]) == (c, a) || s.contains(
        s2[i],
    ) by {
        if i < j {
            assert(s2[i] == s[i]);
        } else if i < s.len() - 1 {
            assert(s2[i] == s[i + 1]);
        }
    }
    assert(children_distinct(s2)) by {
        assert forall|x: int, y: int| 0 <= x < y < s2.len() implies (#[trigger] s2[x]).0 != (
        #[trigger] s2[y]).0 by {
            let ox = if x < j { x } else { x + 1 };
            if y == s2.len() - 1 {
                // the appended pair carries c; the other entry came from s at ox != j
                assert(s2[x] == s[ox]);
                if s[ox].0 == c {
                    lemma_children_index(s, c, ox);
                    lemma_children_index(s, c, j);
                }
            } else {
                let oy = if y < j { y } else { y + 1 };
                assert(s2[x] == s[ox] && s2[y] == s[oy]);
            }
        }
    }
    lemma_children_index(s2, c, s2.len() - 1);
    assert forall|d: char| d != c implies #[trigger] children_contain(s2, d) == children_contain(
        s,
        d,
    ) by {
        if children_contain(s, d) {
            let i0 = children_index_of(s, d);
            let i2 = if i0 < j { i0 } else { i0 - 1 };
            assert(s2[i2] == s[i0]);
            assert(children_contain(s2, d));
        }
        if children_contain(s2, d) {
            let i0 = children_index_of(s2, d);
            assert(i0 < s2.len() - 1);
            let oi = if i0 < j { i0 } else { i0 + 1 };
            assert(s2[i0] == s[oi]);
            assert(children_contain(s, d));
        }
    }
    assert forall|d: char| d != c && children_contain(s, d) implies #[trigger] children_child(
        s2,
        d,
    ) == children_child(s, d) by {
        let i0 = children_index_of(s, d);
        assert(0 <= i0 < s.len() && s[i0].0 == d);
        let i2 = if i0 < j { i0 } else { i0 - 1 };
        assert(s2[i2] == s[i0]);
        lemma_children_index(s2, d, i2);
        lemma_children_index(s, d, i0);
    }
}

/// Appending `(c, a)` to a child list free of `c` adds exactly that entry.
proof fn lemma_children_append<T>(s: Seq<(char, Arc<TrieNode<T>>)>, c: char, a: Arc<TrieNode<T>>)
    requires
        children_distinct(s),
        !children_contain(s, c),
    ensures
        ({
            let s2 = s.push((c, a));
            &&& children_distinct(s2)
            &&& children_contain(s2, c)
            &&& children_child(s2, c) == *a
            &&& forall|d: char|
                d != c ==> #[trigger] children_contain(s2, d) == children_contain(s, d)
            &&& forall|d: char|
                d != c && children_contain(s, d) ==> #[trigger] children_child(s2, d)
                    == children_child(s, d)
            &&& forall|i: int|
                0 <= i < s2.len() ==> (#[trigger] s2[i]) == (c, a) || s.contains(s2[i])
            &&& s2.len() == s.len() + 1
        }),
{
    let s2 = s.push((c, a));
    assert forall|i: int| 0 <= i < s2.len() implies (#[trigger] s2[i]) == (c, a) || s.contains(
        s2[i],
    ) by {
        if i < s.len() {
            assert(s2[i] == s[i]);
        }
    }
    assert(children_distinct(s2)) by {
        assert forall|x: int, y: int| 0 <= x < y < s2.len() implies (#[trigger] s2[x]).0 != (
        #[trigger] s2[y]).0 by {
            if y == s2.len() - 1 {
                assert(s2[x] == s[x]);
                if s[x].0 == c {
                    assert(children_contain(s, c));
                }
            }
        }
    }
    lemma_children_index(s2, c, s2.len() - 1);
    assert forall|d: char| d != c implies #[trigger] children_contain(s2, d) == children_contain(
        s,
        d,
    ) by {
        if children_contain(s, d) {
            let i0 = children_index_of(s, d);
            assert(s2[i0] == s[i0]);
            assert(children_contain(s2, d));
        }
        if children_contain(s2, d) {
            let i0 = children_index_of(s2, d);
            assert(i0 < s.len());
            assert(s2[i0] == s[i0]);
            assert(children_contain(s, d));
        }
    }
    assert forall|d: char| d != c && children_contain(s, d) implies #[trigger] children_child(
        s2,
        d,
    ) == children_child(s, d) by {
        let i0 = children_index_of(s, d);
        assert(0 <= i0 < s.len() && s[i0].0 == d);
        assert(s2[i0] == s[i0]);
        lemma_children_index(s2, d, i0);
        lemma_children_index(s, d, i0);
    }
}

/// Removing the position carrying `c` deletes that symbol's entry and leaves
/// every other symbol's entry untouched.
proof fn lemma_children_delete<T>(s: Seq<(char, Arc<TrieNode<T>>)>, j: int, c: char)
    requires
        children_distinct(s),
        0 <= j < s.len(),
        s[j].0 == c,
    ensures
        ({
            let s2 = s.remove(j);
            &&& children_distinct(s2)
            &&& !children_contain(s2, c)
            &&& forall|d: char|
                d != c ==> #[trigger] children_contain(s2, d) == children_contain(s, d)
            &&& forall|d: char|
                d != c && children_contain(s, d) ==> #[trigger] children_child(s2, d)
                    == children_child(s, d)
            &&& forall|i: int| 0 <= i < s2.len() ==> s.contains(#[trigger] s2[i])
            &&& s2.len() == s.len() - 1
        }),
{
    let s2 = s.remove(j);
    assert forall|i: int| 0 <= i < s2.len() implies s.contains(#[trigger] s2[i]) by {
        if i < j {
            assert(s2[i] == s[i]);
        } else {
            assert(s2[i] == s[i + 1]);
        }
    }
    assert(children_distinct(s2)) by {
        assert forall|x: int, y: int| 0 <= x < y < s2.len() implies (#[trigger] s2[x]).0 != (
        #[trigger] s2[y]).0 by {
            let ox = if x < j { x } else { x + 1 };
            let oy = if y < j { y } else { y + 1 };
            assert(s2[x] == s[ox] && s2[y] == s[oy]);
        }
    }
    assert(!children_contain(s2, c)) by {
        if children_contain(s2, c) {
            let i0 = children_index_of(s2, c);
            let oi = if i0 < j { i0 } else { i0 + 1 };
            assert(s2[i0] == s[oi]);
            lemma_children_index(s, c, oi);
            lemma_children_index(s, c, j);
        }
    }
    assert forall|d: char| d != c implies #[trigger] children_contain(s2, d) == children_contain(
        s,
        d,
    ) by {
        if children_contain(s, d) {
            let i0 = children_index_of(s, d);
            let i2 = if i0 < j { i0 } else { i0 - 1 };
            assert(s2[i2] == s[i0]);
            assert(children_contain(s2, d));
        }
        if children_contain(s2, d) {
            let i0 = children_index_of(s2, d);
            let oi = if i0 < j { i0 } else { i0 + 1 };
            assert(s2[i0] == s[oi]);
            assert(children_contain(s, d));
        }
    }
    assert forall|d: char| d != c && children_contain(s, d) implies #[trigger] children_child(
        s2,
        d,
    ) == children_child(s, d) by {
        let i0 = children_index_of(s, d);
        assert(0 <= i0 < s.len() && s[i0].0 == d);
        let i2 = if i0 < j { i0 } else { i0 - 1 };
        assert(s2[i2] == s[i0]);
        lemma_children_index(s2, d, i2);
        lemma_children_index(s, d, i0);
    }
}

impl<T: Default> TrieNode<T> {
    /// A fresh node: no children, no value.
    pub fn new() -> (r: Self)
        ensures
            r.wf(),
            !r.spec_is_value_node(),
            r.spec_children() == Seq::<(char, Arc<TrieNode<T>>)>::empty(),
            forall|k: Seq<char>| #[trigger] r.spec_get(k) is None,
    {
        let r = TrieNode { children: Vec::new(), is_value_node: false, value: Arc::new(T::default()) };
        proof {
            assert forall|k: Seq<char>| #[trigger] r.spec_get(k) is None by {
                assert(!children_contain(r.children@, k[0]));
            }
        }
        r
    }

    /// A node over the given child list; the value cell starts at the
    /// bookkeeping default.
    pub fn new_with_children(
        children: Vec<(char, Arc<TrieNode<T>>)>,
        is_value_node: bool,
    ) -> (r: Self)
        ensures
            r.spec_children() == children@,
            r.spec_is_value_node() == is_value_node,
            children_distinct(children@) && (forall|i: int|
                0 <= i < children@.len() ==> (#[trigger] children@[i]).1.wf()
                    && children@[i].1.non_dead()) ==> r.wf(),
    {
        TrieNode { children, is_value_node, value: Arc::new(T::default()) }
    }

    /// The child entries.
    pub fn get_children(&self) -> (r: &Vec<(char, Arc<TrieNode<T>>)>)
        ensures
            r@ == self.spec_children(),
    {
        &self.children
    }

    /// Whether a key ends at this node.
    pub fn get_is_value_node(&self) -> (r: bool)
        ensures
            r == self.spec_is_value_node(),
    {
        self.is_value_node
    }

    /// Set or clear the end-of-key flag.  Used only on nodes not yet
    /// reachable from any published trie.
    pub fn set_is_value_node(&mut self, is_value_node: bool)
        ensures
            final(self).spec_is_value_node() == is_value_node,
            final(self).spec_children() == old(self).spec_children(),
            final(self).spec_value() == old(self).spec_value(),
            final(self).wf() == old(self).wf(),
            forall|k: Seq<char>|
                k.len() > 0 ==> #[trigger] final(self).spec_get(k) == old(self).spec_get(k),
    {
        self.is_value_node = is_value_node;
        proof {
            assert(final(self).wf() == old(self).wf()) by {
                if old(self).wf() {
                    assert(final(self).wf());
                }
                if final(self).wf() {
                    assert(old(self).wf());
                }
            }
            assert forall|k: Seq<char>| k.len() > 0 implies #[trigger] final(self).spec_get(k)
                == old(self).spec_get(k) by {
                if children_contain(final(self).children@, k[0]) {
                    assert(children_child(final(self).children@, k[0]) == children_child(
                        old(self).children@,
                        k[0],
                    ));
                }
            }
        }
    }

    /// The position of the child entry for `c`, if one exists.
    fn find_child_index(&self, c: char) -> (r: Option<usize>)
        ensures
            match r {
                Some(j) => j < self.spec_children().len() && self.spec_children()[j as int].0 == c,
                None => !children_contain(self.spec_children(), c),
            },
    {
        let mut j: usize = 0;
        while j < self.children.len()
            invariant
                j <= self.children@.len(),
                forall|m: int| 0 <= m < j ==> (#[trigger] self.children@[m]).0 != c,
            decreases self.children@.len() - j,
        {
            if self.children[j].0 == c {
                return Some(j);
            }
            j += 1;
        }
        proof {
            if children_contain(self.children@, c) {
                let i0 = children_index_of(self.children@, c);
                assert(0 <= i0 < self.children@.len() && self.children@[i0].0 == c);
            }
        }
        None
    }

    /// A shared reference to the child reached through `c`, if any.
    pub fn get_child(&self, c: char) -> (r: Option<Arc<TrieNode<T>>>)
        requires
            children_distinct(self.spec_children()),
        ensures
            match r {
                Some(a) => self.spec_has_child(c) && *a == self.spec_child(c),
                None => !self.spec_has_child(c),
            },
    {
        match self.find_child_index(c) {
            Some(j) => {
                proof {
                    lemma_children_index(self.children@, c, j as int);
                }
                Some(self.children[j].1.clone())
            }
            None => None,
        }
    }

    /// Link (or relink) `node` as the child for `c`.  Used only on nodes not
    /// yet reachable from any published trie.
    pub fn add_child(&mut self, c: char, node: Arc<TrieNode<T>>)
        requires
            old(self).wf(),
            node.wf(),
            node.non_dead(),
        ensures
            final(self).wf(),
            final(self).spec_is_value_node() == old(self).spec_is_value_node(),
            final(self).spec_value() == old(self).spec_value(),
            final(self).spec_has_child(c),
            final(self).spec_child(c) == *node,
            forall|d: char|
                d != c ==> #[trigger] final(self).spec_has_child(d) == old(self).spec_has_child(d),
            forall|d: char|
                d != c && old(self).spec_has_child(d) ==> #[trigger] final(self).spec_child(d)
                    == old(self).spec_child(d),
    {
        let ghost s = self.children@;
        match self.find_child_index(c) {
            Some(j) => {
                self.children.remove(j);
                self.children.push((c, node));
                proof {
                    lemma_children_replace(s, j as int, c, node);
                }
            }
            None => {
                self.children.push((c, node));
                proof {
                    lemma_children_append(s, c, node);
                }
            }
        }
        proof {
            let s2 = self.children@;
            assert forall|i: int| 0 <= i < s2.len() implies (#[trigger] s2[i]).1.wf()
                && s2[i].1.non_dead() by {
                if s2[i] == (c, node) {
                } else {
                    assert(s.contains(s2[i]));
                    let oi = choose|oi: int| 0 <= oi < s.len() && s[oi] == s2[i];
                    assert((#[trigger] s[oi]).1.wf() && s[oi].1.non_dead());
                }
            }
        }
    }

    /// Unlink the child for `c`, if one exists.  Used only on nodes not yet
    /// reachable from any published trie.
    pub fn remove_child(&mut self, c: char)
        requires
            old(self).wf(),
        ensures
            final(self).wf(),
            final(self).spec_is_value_node() == old(self).spec_is_value_node(),
            final(self).spec_value() == old(self).spec_value(),
            !final(self).spec_has_child(c),
            forall|d: char|
                d != c ==> #[trigger] final(self).spec_has_child(d) == old(self).spec_has_child(d),
            forall|d: char|
                d != c && old(self).spec_has_child(d) ==> #[trigger] final(self).spec_child(d)
                    == old(self).spec_child(d),
    {
        let ghost s = self.children@;
        match self.find_child_index(c) {
            Some(j) => {
                self.children.remove(j);
                proof {
                    lemma_children_delete(s, j as int, c);
                    let s2 = self.children@;
                    assert forall|i: int| 0 <= i < s2.len() implies (#[trigger] s2[i]).1.wf()
                        && s2[i].1.non_dead() by {
                        assert(s.contains(s2[i]));
                        let oi = choose|oi: int| 0 <= oi < s.len() && s[oi] == s2[i];
                        assert((#[trigger] s[oi]).1.wf() && s[oi].1.non_dead());
                    }
                }
            }
            None => {}
        }
    }

    /// The value cell, shared; meaningful while the end-of-key flag is set.
    pub fn get_value(&self) -> (r: Option<Arc<T>>)
        ensures
            r matches Some(a) && *a == self.spec_value(),
    {
        Some(self.value.clone())
    }

    /// The value cell, shared.
    fn value_arc(&self) -> (r: Arc<T>)
        ensures
            *r == self.spec_value(),
    {
        self.value.clone()
    }

    /// A copy of this node: a fresh child list with the same shared
    /// children, the same flag, and the same shared value cell.
    fn shallow_copy(&self) -> (r: TrieNode<T>)
        ensures
            r.spec_children() == self.spec_children(),
            r.spec_is_value_node() == self.spec_is_value_node(),
            r.spec_value() == self.spec_value(),
    {
        TrieNode {
            children: clone_children(&self.children),
            is_value_node: self.is_value_node,
            value: self.value.clone(),
        }
    }

    /// Replace the value cell.  Used only on nodes not yet reachable from
    /// any published trie.
    pub fn set_value(&mut self, value: T)
        ensures
            final(self).spec_value() == value,
            final(self).spec_children() == old(self).spec_children(),
            final(self).spec_is_value_node() == old(self).spec_is_value_node(),
            final(self).wf() == old(self).wf(),
            forall|k: Seq<char>|
                k.len() > 0 ==> #[trigger] final(self).spec_get(k) == old(self).spec_get(k),
    {
        self.value = Arc::new(value);
        proof {
            assert(final(self).wf() == old(self).wf()) by {
                if old(self).wf() {
                    assert(final(self).wf());
                }
                if final(self).wf() {
                    assert(old(self).wf());
                }
            }
            assert forall|k: Seq<char>| k.len() > 0 implies #[trigger] final(self).spec_get(k)
                == old(self).spec_get(k) by {
                if children_contain(final(self).children@, k[0]) {
                    assert(children_child(final(self).children@, k[0]) == children_child(
                        old(self).children@,
                        k[0],
                    ));
                }
            }
        }
    }
}

/// A cloned child list: the same entries, each child shared rather than
/// copied.
fn clone_children<T>(v: &Vec<(char, Arc<TrieNode<T>>)>) -> (r: Vec<(char, Arc<TrieNode<T>>)>)
    ensures
        r@ == v@,
{
    let mut r: Vec<(char, Arc<TrieNode<T>>)> = Vec::new();
    let mut j: usize = 0;
    while j < v.len()
        invariant
            j <= v@.len(),
            r@ == v@.take(j as int),
        decreases v@.len() - j,
    {
        r.push((v[j].0, v[j].1.clone()));
        proof {
            assert(r@ =~= v@.take(j + 1 as int));
        }
        j += 1;
    }
    proof {
        assert(r@ =~= v@);
    }
    r
}

/// Shallow duplication of one node.
pub trait TrieNodeFn<T> {
    /// The node this object stands for.
    spec fn spec_node(&self) -> TrieNode<T>;

    /// A shallow copy: a fresh child list with the same shared children, the
    /// same flag, and the same shared value cell.
    fn clone(&self) -> (r: Box<TrieNode<T>>)
        ensures
            r.spec_children() == self.spec_node().spec_children(),
            r.spec_is_value_node() == self.spec_node().spec_is_value_node(),
            r.spec_value() == self.spec_node().spec_value(),
    ;
}

impl<T: Default> TrieNodeFn<T> for TrieNode<T> {
    open spec fn spec_node(&self) -> TrieNode<T> {
        *self
    }

    fn clone(&self) -> (r: Box<TrieNode<T>>) {
        Box::new(self.shallow_copy())
    }
}

/// A well-formed node hands out well-formed, live children.
proof fn lemma_wf_child<T>(n: &TrieNode<T>, c: char)
    requires
        n.wf(),
        n.spec_has_child(c),
    ensures
        n.spec_child(c).wf(),
        n.spec_child(c).non_dead(),
{
    let i0 = children_index_of(n.spec_children(), c);
    assert(0 <= i0 < n.spec_children().len() && n.spec_children()[i0].0 == c);
    assert((n.spec_children()[i0]).1.wf() && n.spec_children()[i0].1.non_dead());
}

/// One step of lookup: consuming the first symbol descends into its child.
proof fn lemma_spec_get_step<T>(n: &TrieNode<T>, k: Seq<char>)
    requires
        k.len() > 0,
    ensures
        n.spec_get(k) == if n.spec_has_child(k[0]) {
            n.spec_child(k[0]).spec_get(k.drop_first())
        } else {
            None::<T>
        },
{
}

/// A node differing from `old_n` only in the child for `c` answers lookups
/// through `c` from `child` and every other lookup from `old_n`.
proof fn lemma_spec_get_set_child<T>(old_n: &TrieNode<T>, new_n: &TrieNode<T>, c: char, child: &TrieNode<T>)
    requires
        new_n.spec_is_value_node() == old_n.spec_is_value_node(),
        new_n.spec_value() == old_n.spec_value(),
        new_n.spec_has_child(c),
        new_n.spec_child(c) == child,
        forall|d: char|
            d != c ==> #[trigger] new_n.spec_has_child(d) == old_n.spec_has_child(d),
        forall|d: char|
            d != c && old_n.spec_has_child(d) ==> #[trigger] new_n.spec_child(d)
                == old_n.spec_child(d),
    ensures
        forall|k: Seq<char>|
            #[trigger] new_n.spec_get(k) == if k.len() > 0 && k[0] == c {
                child.spec_get(k.drop_first())
            } else {
                old_n.spec_get(k)
            },
{
    assert forall|k: Seq<char>|
        #[trigger] new_n.spec_get(k) == (if k.len() > 0 && k[0] == c {
            child.spec_get(k.drop_first())
        } else {
            old_n.spec_get(k)
        }) by {
        if k.len() == 0 {
        } else {
            let d = k[0];
            lemma_spec_get_step(new_n, k);
            lemma_spec_get_step(old_n, k);
            if d != c && new_n.spec_has_child(d) {
                assert(new_n.spec_child(d) == old_n.spec_child(d));
            }
        }
    }
}

/// A node differing from `old_n` only in lacking the child for `c` answers
/// lookups through `c` with nothing and every other lookup from `old_n`.
proof fn lemma_spec_get_unset_child<T>(old_n: &TrieNode<T>, new_n: &TrieNode<T>, c: char)
    requires
        new_n.spec_is_value_node() == old_n.spec_is_value_node(),
        new_n.spec_value() == old_n.spec_value(),
        !new_n.spec_has_child(c),
        forall|d: char|
            d != c ==> #[trigger] new_n.spec_has_child(d) == old_n.spec_has_child(d),
        forall|d: char|
            d != c && old_n.spec_has_child(d) ==> #[trigger] new_n.spec_child(d)
                == old_n.spec_child(d),
    ensures
        forall|k: Seq<char>|
            #[trigger] new_n.spec_get(k) == if k.len() > 0 && k[0] == c {
                None::<T>
            } else {
                old_n.spec_get(k)
            },
{
    assert forall|k: Seq<char>|
        #[trigger] new_n.spec_get(k) == (if k.len() > 0 && k[0] == c {
            None::<T>
        } else {
            old_n.spec_get(k)
        }) by {
        if k.len() == 0 {
        } else {
            let d = k[0];
            lemma_spec_get_step(new_n, k);
            lemma_spec_get_step(old_n, k);
            if d != c && new_n.spec_has_child(d) {
                assert(new_n.spec_child(d) == old_n.spec_child(d));
            }
        }
    }
}

/// An immutable handle over one version of the prefix tree: a shared root.
/// Lookups read the version; `put` and `remove` build a new version that
/// shares every untouched subtree with this one.
pub struct Trie<T: Default> {
    root: Arc<TrieNode<T>>,
}

impl<T: Default> Trie<T> {
    /// The root node of this version.
    pub closed spec fn spec_root(self) -> TrieNode<T> {
        *self.root
    }

    /// Well-formedness of the node graph under the root.
    pub open spec fn wf(self) -> bool {
        self.spec_root().wf()
    }

    /// A new, empty trie: a childless, valueless root.
    pub fn new() -> (r: Self)
        ensures
            r.wf(),
            r@ == Map::<Seq<char>, T>::empty(),
    {
        let r = Trie { root: Arc::new(TrieNode::new()) };
        proof {
            assert(r@ =~= Map::<Seq<char>, T>::empty());
        }
        r
    }

    /// A trie over the given root node.
    pub fn new_with_root(root: Arc<TrieNode<T>>) -> (r: Self)
        ensures
            r.spec_root() == *root,
    {
        Trie { root }
    }

    /// The shared root of this version.
    pub fn get_root(&self) -> (r: Arc<TrieNode<T>>)
        ensures
            *r == self.spec_root(),
    {
        self.root.clone()
    }

    /// Another handle over the same version.
    pub fn clone(&self) -> (r: Trie<T>)
        ensures
            r == *self,
    {
        Trie { root: self.root.clone() }
    }
}

impl<T: Default> View for Trie<T> {
    type V = Map<Seq<char>, T>;

    /// The finite map this version represents: each key whose path ends at a
    /// value node, bound to that node's value.
    open spec fn view(&self) -> Map<Seq<char>, T> {
        Map::new(
            |k: Seq<char>| self.spec_root().spec_get(k) is Some,
            |k: Seq<char>| self.spec_root().spec_get(k)->0,
        )
    }
}

/// The key, one symbol at a time.
fn chars_vec(s: &str) -> (r: Vec<char>)
    ensures
        r@ == s@,
{
    let n = s.unicode_len();
    let mut r: Vec<char> = Vec::new();
    let mut j: usize = 0;
    while j < n
        invariant
            j <= n,
            n == s@.len(),
            r@ == s@.take(j as int),
        decreases n - j,
    {
        r.push(s.get_char(j));
        proof {
            assert(r@ =~= s@.take(j + 1 as int));
        }
        j += 1;
    }
    proof {
        assert(r@ =~= s@);
    }
    r
}

/// Copy-on-write insertion below one node: a fresh node equal to `node`
/// except that the key suffix `key[i..]` now ends at a value node holding
/// `value`.  Every subtree off that path is shared with `node`, not copied.
fn put_node<T: Default>(node: &TrieNode<T>, key: &Vec<char>, i: usize, value: T) -> (r: TrieNode<T>)
    requires
        node.wf(),
        i < key@.len(),
    ensures
        r.wf(),
        r.non_dead(),
        forall|k: Seq<char>|
            #[trigger] r.spec_get(k) == if k == key@.skip(i as int) {
                Some(value)
            } else {
                node.spec_get(k)
            },
    decreases key@.len() - i,
{
    let c = key[i];
    let ghost suffix = key@.skip(i as int);
    proof {
        assert(suffix.len() == key@.len() - i);
        assert(suffix[0] == c);
        assert(suffix.drop_first() =~= key@.skip(i + 1 as int));
    }
    let mut nn: TrieNode<T> = node.shallow_copy();
    proof {
        lemma_node_congruent(&nn, node);
    }
    if i == key.len() - 1 {
        match node.get_child(c) {
            Some(child) => {
                proof {
                    lemma_wf_child(node, c);
                }
                let mut nc: TrieNode<T> = child.shallow_copy();
                proof {
                    lemma_node_congruent(&nc, &*child);
                }
                nc.set_value(value);
                nc.set_is_value_node(true);
                let nc_arc = Arc::new(nc);
                nn.add_child(c, nc_arc.clone());
                proof {
                    lemma_spec_get_set_child(node, &nn, c, &*nc_arc);
                    assert forall|k: Seq<char>|
                        #[trigger] nn.spec_get(k) == (if k == suffix {
                            Some(value)
                        } else {
                            node.spec_get(k)
                        }) by {
                        if k.len() > 0 && k[0] == c {
                            let kp = k.drop_first();
                            if kp.len() == 0 {
                                assert(k =~= suffix);
                            } else {
                                assert(k != suffix);
                                lemma_spec_get_step(node, k);
                                assert(nc_arc.spec_get(kp) == child.spec_get(kp));
                            }
                        } else {
                            assert(k != suffix);
                        }
                    }
                }
            }
            None => {
                let mut nc = TrieNode::<T>::new();
                nc.set_value(value);
                nc.set_is_value_node(true);
                let nc_arc = Arc::new(nc);
                nn.add_child(c, nc_arc.clone());
                proof {
                    lemma_spec_get_set_child(node, &nn, c, &*nc_arc);
                    assert forall|k: Seq<char>|
                        #[trigger] nn.spec_get(k) == (if k == suffix {
                            Some(value)
                        } else {
                            node.spec_get(k)
                        }) by {
                        if k.len() > 0 && k[0] == c {
                            let kp = k.drop_first();
                            if kp.len() == 0 {
                                assert(k =~= suffix);
                            } else {
                                assert(k != suffix);
                                lemma_spec_get_step(node, k);
                                assert(nc_arc.spec_get(kp) is None);
                            }
                        } else {
                            assert(k != suffix);
                        }
                    }
                }
            }
        }
    } else {
        match node.get_child(c) {
            Some(child) => {
                proof {
                    lemma_wf_child(node, c);
                }
                let sub = put_node(&*child, key, i + 1, value);
                let sub_arc = Arc::new(sub);
                nn.add_child(c, sub_arc.clone());
                proof {
                    lemma_spec_get_set_child(node, &nn, c, &*sub_arc);
                    assert forall|k: Seq<char>|
                        #[trigger] nn.spec_get(k) == (if k == suffix {
                            Some(value)
                        } else {
                            node.spec_get(k)
                        }) by {
                        if k.len() > 0 && k[0] == c {
                            let kp = k.drop_first();
                            if kp == key@.skip(i + 1 as int) {
                                assert(k.len() == suffix.len());
                                assert forall|j: int| 0 <= j < k.len() implies k[j] == suffix[j] by {
                                    if j > 0 {
                                        assert(k[j] == kp[j - 1]);
                                        assert(kp[j - 1] == key@[i + 1 + (j - 1)]);
                                        assert(suffix[j] == key@[i + j]);
                                    }
                                }
                                assert(k =~= suffix);
                            } else {
                                assert(k != suffix);
                                lemma_spec_get_step(node, k);
                                assert(sub_arc.spec_get(kp) == child.spec_get(kp));
                            }
                        } else {
                            assert(k != suffix);
                        }
                    }
                }
            }
            None => {
                let empty = TrieNode::<T>::new();
                let sub = put_node(&empty, key, i + 1, value);
                let sub_arc = Arc::new(sub);
                nn.add_child(c, sub_arc.clone());
                proof {
                    lemma_spec_get_set_child(node, &nn, c, &*sub_arc);
                    assert forall|k: Seq<char>|
                        #[trigger] nn.spec_get(k) == (if k == suffix {
                            Some(value)
                        } else {
                            node.spec_get(k)
                        }) by {
                        if k.len() > 0 && k[0] == c {
                            let kp = k.drop_first();
                            if kp == key@.skip(i + 1 as int) {
                                assert(k.len() == suffix.len());
                                assert forall|j: int| 0 <= j < k.len() implies k[j] == suffix[j] by {
                                    if j > 0 {
                                        assert(k[j] == kp[j - 1]);
                                        assert(kp[j - 1] == key@[i + 1 + (j - 1)]);
                                        assert(suffix[j] == key@[i + j]);
                                    }
                                }
                                assert(k =~= suffix);
                            } else {
                                assert(k != suffix);
                                lemma_spec_get_step(node, k);
                                assert(sub_arc.spec_get(kp) is None);
                            }
                        } else {
                            assert(k != suffix);
                        }
                    }
                }
            }
        }
    }
    nn
}

/// With the first symbols matching at `i`, a key equals the suffix from `i`
/// exactly when its tail equals the suffix from `i + 1`.
proof fn lemma_suffix_step(key: Seq<char>, i: int, k: Seq<char>)
    requires
        0 <= i < key.len(),
        k.len() > 0,
        k[0] == key[i],
    ensures
        (k.drop_first() == key.skip(i + 1)) == (k == key.skip(i)),
{
    if k.drop_first() == key.skip(i + 1) {
        assert(k.len() == key.skip(i).len());
        assert forall|j: int| 0 <= j < k.len() implies k[j] == key.skip(i)[j] by {
            if j > 0 {
                assert(k[j] == k.drop_first()[j - 1]);
                assert(k.drop_first()[j - 1] == key[i + 1 + (j - 1)]);
                assert(key.skip(i)[j] == key[i + j]);
            }
        }
        assert(k =~= key.skip(i));
    }
    if k == key.skip(i) {
        assert(k.drop_first() =~= key.skip(i + 1));
    }
}

/// Copy-on-write removal below one node: `Some` carries the rebuilt node;
/// `None` asks the caller to detach this child because nothing would remain
/// under it.  Every subtree off the removed path is shared, not copied.
fn remove_node<T: Default>(node: &TrieNode<T>, key: &Vec<char>, i: usize) -> (r: Option<
    TrieNode<T>,
>)
    requires
        node.wf(),
        i <= key@.len(),
    ensures
        match r {
            Some(n) => {
                &&& n.wf()
                &&& node.non_dead() ==> n.non_dead()
                &&& forall|k: Seq<char>|
                    #[trigger] n.spec_get(k) == if k == key@.skip(i as int) {
                        None::<T>
                    } else {
                        node.spec_get(k)
                    }
            },
            None => forall|k: Seq<char>|
                k != key@.skip(i as int) ==> #[trigger] node.spec_get(k) is None,
        },
    decreases key@.len() - i,
{
    let ghost suffix = key@.skip(i as int);
    if i == key.len() {
        proof {
            assert(suffix =~= Seq::<char>::empty());
        }
        if node.get_is_value_node() {
            if node.get_children().len() == 0 {
                // nothing remains below this node: ask the parent to detach it
                proof {
                    assert forall|k: Seq<char>| k != suffix implies #[trigger] node.spec_get(k)
                        is None by {
                        if k.len() == 0 {
                            assert(k =~= suffix);
                        } else {
                            assert(!children_contain(node.spec_children(), k[0]));
                        }
                    }
                }
                None
            } else {
                // keep the node for its subtrees, but end no key here any more
                let mut nn = node.shallow_copy();
                proof {
                    lemma_node_congruent(&nn, node);
                }
                nn.set_is_value_node(false);
                proof {
                    assert forall|k: Seq<char>|
                        #[trigger] nn.spec_get(k) == (if k == suffix {
                            None::<T>
                        } else {
                            node.spec_get(k)
                        }) by {
                        if k.len() == 0 {
                            assert(k == suffix);
                        }
                    }
                }
                Some(nn)
            }
        } else {
            // the key was absent: an unchanged copy
            let nn = node.shallow_copy();
            proof {
                lemma_node_congruent(&nn, node);
            }
            Some(nn)
        }
    } else {
        let c = key[i];
        proof {
            assert(suffix.len() > 0);
            assert(suffix[0] == c);
        }
        match node.get_child(c) {
            None => {
                // the key was absent: an unchanged copy
                let nn = node.shallow_copy();
                proof {
                    lemma_node_congruent(&nn, node);
                    lemma_spec_get_step(node, suffix);
                }
                Some(nn)
            }
            Some(child) => {
                proof {
                    lemma_wf_child(node, c);
                }
                match remove_node(&*child, key, i + 1) {
                    Some(sub) => {
                        let mut nn = node.shallow_copy();
                        proof {
                            lemma_node_congruent(&nn, node);
                        }
                        let sub_arc = Arc::new(sub);
                        nn.add_child(c, sub_arc.clone());
                        proof {
                            lemma_spec_get_set_child(node, &nn, c, &*sub_arc);
                            assert forall|k: Seq<char>|
                                #[trigger] nn.spec_get(k) == (if k == suffix {
                                    None::<T>
                                } else {
                                    node.spec_get(k)
                                }) by {
                                if k.len() > 0 && k[0] == c {
                                    let kp = k.drop_first();
                                    lemma_suffix_step(key@, i as int, k);
                                    lemma_spec_get_step(node, k);
                                    if kp == key@.skip(i + 1 as int) {
                                        assert(sub_arc.spec_get(kp) is None);
                                    } else {
                                        assert(sub_arc.spec_get(kp) == child.spec_get(kp));
                                    }
                                } else {
                                    assert(k != suffix);
                                }
                            }
                        }
                        Some(nn)
                    }
                    None => {
                        let mut nn = node.shallow_copy();
                        proof {
                            lemma_node_congruent(&nn, node);
                        }
                        nn.remove_child(c);
                        if nn.get_children().len() == 0 && !nn.get_is_value_node() {
                            // this node neither ends a key nor leads anywhere
                            // any more: cascade the detachment upward
                            proof {
                                assert forall|k: Seq<char>| k != suffix implies
                                    #[trigger] node.spec_get(k) is None by {
                                    if k.len() == 0 {
                                    } else {
                                        lemma_spec_get_step(node, k);
                                        if k[0] == c {
                                            let kp = k.drop_first();
                                            lemma_suffix_step(key@, i as int, k);
                                            assert(kp != key@.skip(i + 1 as int));
                                            assert(child.spec_get(kp) is None);
                                        } else {
                                            assert(!children_contain(
                                                nn.spec_children(),
                                                k[0],
                                            ));
                                            assert(!nn.spec_has_child(k[0]));
                                            assert(!node.spec_has_child(k[0]));
                                        }
                                    }
                                }
                            }
                            None
                        } else {
                            proof {
                                lemma_spec_get_unset_child(node, &nn, c);
                                assert forall|k: Seq<char>|
                                    #[trigger] nn.spec_get(k) == (if k == suffix {
                                        None::<T>
                                    } else {
                                        node.spec_get(k)
                                    }) by {
                                    if k.len() > 0 && k[0] == c {
                                        let kp = k.drop_first();
                                        lemma_suffix_step(key@, i as int, k);
                                        lemma_spec_get_step(node, k);
                                        if kp != key@.skip(i + 1 as int) {
                                            assert(child.spec_get(kp) is None);
                                        }
                                    } else {
                                        assert(k != suffix);
                                    }
                                }
                            }
                            Some(nn)
                        }
                    }
                }
            }
        }
    }
}

/// The functional interface of one trie version.


pub trait TrieFn<T: Default>: Sized {
    /// The finite map this version represents.
    spec fn spec_map(&self) -> Map<Seq<char>, T>;

    /// Well-formedness of the underlying node graph.
    spec fn spec_wf(&self) -> bool;

    /// Follow one child per symbol of `key` from the root; the walk succeeds
    /// exactly when `key` is bound in this version, and then hands back a
    /// shared reference to its value cell.
    fn get(&self, key: String) -> (r: Option<Arc<T>>)
        requires
            self.spec_wf(),
        ensures
            match r {
                Some(v) => self.spec_map().contains_key(key@) && *v == self.spec_map()[key@],
                None => !self.spec_map().contains_key(key@),
            },
    ;

    /// A new version in which `key` is bound to `value` and every other key
    /// is bound as in this one.  An empty key is a no-op.
    fn put(&self, key: String, value: T) -> (r: Self)
        requires
            self.spec_wf(),
        ensures
            r.spec_wf(),
            key@.len() == 0 ==> r.spec_map() == self.spec_map(),
            key@.len() > 0 ==> r.spec_map() == self.spec_map().insert(key@, value),
    ;

    /// A new version in which `key` is unbound and every other key is bound
    /// as in this one; nodes left childless and valueless along the path are
    /// pruned.  An empty or absent key is a no-op.
    fn remove(&self, key: String) -> (r: Self)
        requires
            self.spec_wf(),
        ensures
            r.spec_wf(),
            key@.len() == 0 ==> r.spec_map() == self.spec_map(),
            key@.len() > 0 ==> r.spec_map() == self.spec_map().remove(key@),
    ;
}

impl<T: Default> TrieFn<T> for Trie<T> {
    open spec fn spec_map(&self) -> Map<Seq<char>, T> {
        self.view()
    }

    open spec fn spec_wf(&self) -> bool {
        self.wf()
    }

    fn get(&self, key: String) -> (r: Option<Arc<T>>) {
        let n = key.as_str().unicode_len();
        let mut cur: Arc<TrieNode<T>> = self.get_root();
        let mut i: usize = 0;
        proof {
            assert(key@.skip(0) =~= key@);
        }
        while i < n
            invariant
                i <= n,
                n == key@.len(),
                cur.wf(),
                cur.spec_get(key@.skip(i as int)) == self.spec_root().spec_get(key@),
            decreases n - i,
        {
            let c = key.as_str().get_char(i);
            proof {
                assert(key@.skip(i as int).len() > 0);
                assert(key@.skip(i as int)[0] == c);
                lemma_spec_get_step(&*cur, key@.skip(i as int));
            }
            match cur.get_child(c) {
                Some(next) => {
                    proof {
                        lemma_wf_child(&*cur, c);
                        assert(key@.skip(i as int).drop_first() =~= key@.skip(i + 1 as int));
                    }
                    cur = next;
                }
                None => {
                    return None;
                }
            }
            i += 1;
        }
        proof {
            assert(key@.skip(n as int) =~= Seq::<char>::empty());
        }
        if cur.get_is_value_node() {
            let v = cur.value_arc();
            Some(v)
        } else {
            None
        }
    }

    fn put(&self, key: String, value: T) -> (r: Self) {
        if key.as_str().unicode_len() == 0 {
            return self.clone();
        }
        let cs = chars_vec(key.as_str());
        let new_root = put_node(&*self.root, &cs, 0, value);
        let r = Trie { root: Arc::new(new_root) };
        proof {
            assert(key@.skip(0) =~= key@);
            let target = self.spec_map().insert(key@, value);
            assert forall|q: Seq<char>| r.spec_map().dom().contains(q) == target.dom().contains(
                q,
            ) by {
                assert(r.spec_root().spec_get(q) == (if q == key@ {
                    Some(value)
                } else {
                    self.spec_root().spec_get(q)
                }));
            }
            assert forall|q: Seq<char>| r.spec_map().dom().contains(q) implies #[trigger] r.spec_map()[q]
                == target[q] by {
                assert(r.spec_root().spec_get(q) == (if q == key@ {
                    Some(value)
                } else {
                    self.spec_root().spec_get(q)
                }));
            }
            assert(r.spec_map() =~= target);
        }
        r
    }

    fn remove(&self, key: String) -> (r: Self) {
        if key.as_str().unicode_len() == 0 {
            return self.clone();
        }
        let cs = chars_vec(key.as_str());
        let ghost target = self.spec_map().remove(key@);
        proof {
            assert(key@.skip(0) =~= key@);
        }
        match remove_node(&*self.root, &cs, 0) {
            Some(n) => {
                let t = Trie { root: Arc::new(n) };
                proof {
                    assert forall|q: Seq<char>| t.spec_map().dom().contains(q)
                        == target.dom().contains(q) by {
                        assert(t.spec_root().spec_get(q) == (if q == key@ {
                            None::<T>
                        } else {
                            self.spec_root().spec_get(q)
                        }));
                    }
                    assert forall|q: Seq<char>| t.spec_map().dom().contains(q) implies
                        #[trigger] t.spec_map()[q] == target[q] by {
                        assert(t.spec_root().spec_get(q) == (if q == key@ {
                            None::<T>
                        } else {
                            self.spec_root().spec_get(q)
                        }));
                    }
                    assert(t.spec_map() =~= target);
                }
                t
            }
            None => {
                // the root kept no key but the removed one: a fresh empty root
                let t = Trie::<T>::new();
                proof {
                    assert forall|q: Seq<char>| !target.dom().contains(q) by {
                        if q != key@ {
                            assert(self.spec_root().spec_get(q) is None);
                        }
                    }
                    assert(t.spec_map() =~= target);
                }
                t
            }
        }
    }
}

/// Round trip: in the version made by binding `key` to `value`, a lookup of
/// `key` succeeds and yields `value`.
pub proof fn lemma_round_trip<T: Default>(t: Trie<T>, key: Seq<char>, value: T)
    requires
        key.len() > 0,
    ensures
        t@.insert(key, value).contains_key(key),
        t@.insert(key, value)[key] == value,
{
}

/// Overwrite: binding `key` twice leaves the second value; a lookup of
/// `key` afterwards yields `v2`.
pub proof fn lemma_overwrite<T: Default>(t: Trie<T>, key: Seq<char>, v1: T, v2: T)
    requires
        key.len() > 0,
    ensures
        t@.insert(key, v1).insert(key, v2).contains_key(key),
        t@.insert(key, v1).insert(key, v2)[key] == v2,
{
}

/// Independence of other keys: binding `key` changes no other key's
/// binding.  In particular a proper prefix of `key` stays absent unless it
/// was bound itself, and any key off the rewritten path keeps both its
/// presence and its value.
pub proof fn lemma_put_preserves_others<T: Default>(
    t: Trie<T>,
    key: Seq<char>,
    value: T,
    other: Seq<char>,
)
    requires
        other != key,
    ensures
        t@.insert(key, value).contains_key(other) == t@.contains_key(other),
        t@.contains_key(other) ==> t@.insert(key, value)[other] == t@[other],
{
}

/// Remove then get: after unbinding `key`, a lookup of `key` fails.
pub proof fn lemma_remove_then_get<T: Default>(t: Trie<T>, key: Seq<char>)
    ensures
        !t@.remove(key).contains_key(key),
{
}

/// Removal preserves siblings: unbinding `key` changes no other key's
/// binding, prefixes of `key` included.
pub proof fn lemma_remove_preserves_siblings<T: Default>(
    t: Trie<T>,
    key: Seq<char>,
    other: Seq<char>,
)
    requires
        other != key,
    ensures
        t@.remove(key).contains_key(other) == t@.contains_key(other),
        t@.contains_key(other) ==> t@.remove(key)[other] == t@[other],
{
}

} // verus!
