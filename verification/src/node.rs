//! One slot of the table.

use crate::key::TableKey;
use vstd::prelude::*;

verus! {

/// What a slot holds, with its key taken by view.
///
/// A slot is live when it has a key, else empty. `prev` and `next` are the
/// slots that come before and after it in the order of recency.
pub struct Entry<Id, V> {
    pub key: Option<Id>,
    pub value: Option<V>,
    pub prev: Option<usize>,
    pub next: Option<usize>,
}

impl<Id, V> Entry<Id, V> {
    /// The entry of an empty slot.
    pub open spec fn empty() -> Self {
        Entry { key: None, value: None, prev: None, next: None }
    }

    /// The entry has a key.
    pub open spec fn is_live(self) -> bool {
        self.key is Some
    }

    /// The same entry with another `prev` link.
    pub open spec fn with_prev(self, prev: Option<usize>) -> Self {
        Entry { prev, ..self }
    }

    /// The same entry with another `next` link.
    pub open spec fn with_next(self, next: Option<usize>) -> Self {
        Entry { next, ..self }
    }
}

/// `b` may be what cloning the value `a` gives; an absent value stays absent.
pub open spec fn value_cloned<V: Clone>(a: Option<V>, b: Option<V>) -> bool {
    match (a, b) {
        (Some(x), Some(y)) => cloned(x, y),
        (None, None) => true,
        _ => false,
    }
}

/// `b` is a copy of the entry `a`: the same key and links, the value cloned.
pub open spec fn entry_cloned<Id, V: Clone>(a: Entry<Id, V>, b: Entry<Id, V>) -> bool {
    &&& b.key == a.key
    &&& b.prev == a.prev
    &&& b.next == a.next
    &&& value_cloned(a.value, b.value)
}

/// A slot as the table stores it and hands it out.
#[derive(Debug)]
pub struct HashNode<K, V> {
    pub key: Option<K>,
    pub value: Option<V>,
    pub prev_node_hash_index: Option<usize>,
    pub next_node_hash_index: Option<usize>,
}

impl<K: View, V> View for HashNode<K, V> {
    type V = Entry<K::V, V>;

    open spec fn view(&self) -> Entry<K::V, V> {
        Entry {
            key: match self.key {
                Some(k) => Some(k@),
                None => None,
            },
            value: self.value,
            prev: self.prev_node_hash_index,
            next: self.next_node_hash_index,
        }
    }
}

impl<K: View, V> HashNode<K, V> {
    /// A node of the four parts given.
    pub fn new(
        key: Option<K>,
        value: Option<V>,
        prev_node_hash_index: Option<usize>,
        next_node_hash_index: Option<usize>,
    ) -> (node: Self)
        ensures
            node.key == key,
            node.value == value,
            node.prev_node_hash_index == prev_node_hash_index,
            node.next_node_hash_index == next_node_hash_index,
    {
        HashNode { key, value, prev_node_hash_index, next_node_hash_index }
    }

    /// The node of an empty slot: no key, no value, no links.
    pub fn new_empty() -> (node: Self)
        ensures
            node.key is None,
            node.value is None,
            node.prev_node_hash_index is None,
            node.next_node_hash_index is None,
            node@ == Entry::<K::V, V>::empty(),
    {
        HashNode { key: None, value: None, prev_node_hash_index: None, next_node_hash_index: None }
    }
}

impl<K: TableKey, V: Clone> Clone for HashNode<K, V> {
    /// A copy of the node: the same key and links, the value cloned.
    fn clone(&self) -> (res: Self)
        ensures
            entry_cloned(self@, res@),
    {
        HashNode {
            key: match &self.key {
                Some(k) => Some(k.duplicate()),
                None => None,
            },
            value: match &self.value {
                Some(v) => Some(v.clone()),
                None => None,
            },
            prev_node_hash_index: self.prev_node_hash_index,
            next_node_hash_index: self.next_node_hash_index,
        }
    }
}

} // verus!
