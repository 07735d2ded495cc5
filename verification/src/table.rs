//! The table itself: a vector of slots, probed linearly from a key's home slot.

use crate::key::TableKey;
use crate::lookup_laws::lemma_get_after_insert;
use crate::lookup_laws::lemma_get_after_remove;
use crate::lookup_laws::lemma_insert_reachable;
use crate::lookup_laws::lemma_remove_reachable;
use crate::model::without;
use crate::order_laws::lemma_insert_linked;
use crate::order_laws::lemma_remove_at_valid;
use crate::order_laws::lemma_remove_linked;
use crate::model::TableModel;
use crate::node::entry_cloned;
use crate::node::value_cloned;
use crate::node::HashNode;
use vstd::prelude::*;

verus! {

/// The search for a key ran off the end of the array: no slot from the key's
/// home slot on is empty or holds the key.
#[derive(Debug, Clone, Copy, PartialEq, Eq)]
pub struct ProbeExhausted;

/// A hash table of fixed capacity that remembers in which order its live
/// entries were last inserted or updated.
pub struct HashMap<K: TableKey, V> {
    capacity: usize,
    arr: Vec<HashNode<K, V>>,
    latest_node: Option<usize>,
    oldest_node: Option<usize>,
}

impl<K: TableKey, V> View for HashMap<K, V> {
    type V = TableModel<K, V>;

    closed spec fn view(&self) -> TableModel<K, V> {
        TableModel {
            slots: Seq::new(self.arr@.len(), |i: int| self.arr@[i]@),
            oldest: self.oldest_node,
            latest: self.latest_node,
        }
    }
}

impl<K: TableKey, V> HashMap<K, V> {
    /// The recorded capacity is the length of the array.
    pub closed spec fn backed(&self) -> bool {
        self.capacity == self.arr@.len()
    }

    /// The table is well formed: it is valid, and its links form one closed
    /// chain over its live slots. Every operation needs this and keeps it.
    pub open spec fn wf(&self) -> bool {
        self.backed() && self@.valid() && self@.linked()
    }

    /// A table of `capacity` empty slots.
    pub fn new(capacity: usize) -> (table: Self)
        ensures
            table.wf(),
            table@ == TableModel::<K, V>::empty(capacity as nat),
    {
        let mut arr: Vec<HashNode<K, V>> = Vec::new();
        let mut n: usize = 0;
        while n < capacity
            invariant
                n <= capacity,
                arr@.len() == n,
                forall|i: int| 0 <= i < n ==> (#[trigger] arr@[i])@ == crate::node::Entry::<K::V, V>::empty(),
            decreases capacity - n,
        {
            arr.push(HashNode::new_empty());
            n += 1;
        }
        let table = HashMap { capacity, arr, latest_node: None, oldest_node: None };
        assert(table@.slots =~= TableModel::<K, V>::empty(capacity as nat).slots);
        assert(table@.ordered(Seq::empty()));
        table
    }

    /// The home slot of `key`.
    fn hash_code(&self, key: &K) -> (home: usize)
        requires
            self.wf(),
            self@.capacity() > 0,
        ensures
            home == self@.home(key@),
            home < self@.capacity(),
    {
        let h = key.hash_value();
        #[verifier::truncate]
        let wide = h as usize;
        wide % self.capacity
    }

    /// Whether the search for `key` ends at slot `i`.
    fn stops(&self, i: usize, key: &K) -> (b: bool)
        requires
            self.wf(),
            i < self@.capacity(),
        ensures
            b == self@.stops_at(i as int, key@),
    {
        match &self.arr[i].key {
            Some(k) => k.same_key(key),
            None => true,
        }
    }

    /// Probes from the home slot of `key`; gives the capacity if the search
    /// runs off the end of the array.
    fn find_slot(&self, key: &K) -> (r: usize)
        requires
            self.wf(),
            self@.capacity() > 0,
        ensures
            r == self@.resolved(key@),
            r <= self@.capacity(),
    {
        let home = self.hash_code(key);
        let mut i = home;
        while i < self.capacity && !self.stops(i, key)
            invariant
                self.wf(),
                home <= i <= self@.capacity(),
                self@.probe(i as int, key@) == self@.probe(home as int, key@),
            decreases self.capacity - i,
        {
            i += 1;
        }
        i
    }

    /// Whether the search for `key` ends inside the array, so that `insert`,
    /// `remove` and `get` can be called with it.
    pub fn resolves(&self, key: &K) -> (b: bool)
        requires
            self.wf(),
        ensures
            b == self@.resolves(key@),
    {
        self.capacity > 0 && self.find_slot(key) < self.capacity
    }

    /// Takes the live slot `r` out of the order of recency and empties it.
    fn unlink(&mut self, r: usize)
        requires
            old(self).backed(),
            old(self)@.valid(),
            old(self)@.live(r as int),
        ensures
            final(self).backed(),
            final(self)@ == old(self)@.remove_at(r as int),
    {
        let node_prev = self.arr[r].prev_node_hash_index;
        let node_next = self.arr[r].next_node_hash_index;
        if let Some(p) = node_prev {
            self.arr[p].next_node_hash_index = node_next;
        }
        if let Some(n) = node_next {
            self.arr[n].prev_node_hash_index = node_prev;
        }
        if self.oldest_node == Some(r) {
            self.oldest_node = node_next;
        }
        if self.latest_node == Some(r) {
            self.latest_node = node_prev;
        }
        self.arr[r] = HashNode::new_empty();
        assert(self@.slots =~= old(self)@.remove_at(r as int).slots);
    }

    /// Writes `key` with `value` to slot `r` and makes the slot the latest of
    /// the order: in place where it is the latest already, else taken out of
    /// the order, if it is live, and put at the latest end.
    fn write_at(&mut self, r: usize, key: K, value: V)
        requires
            old(self).backed(),
            old(self)@.valid(),
            r < old(self)@.capacity(),
        ensures
            final(self).backed(),
            final(self)@ == old(self)@.insert_at(r as int, key@, value),
    {
        if self.latest_node == Some(r) {
            let prev = self.arr[r].prev_node_hash_index;
            self.arr[r] = HashNode::new(Some(key), Some(value), prev, None);
        } else {
            proof {
                lemma_remove_at_valid(self@, r as int);
            }
            if self.arr[r].key.is_some() {
                self.unlink(r);
            }
            let prev = self.latest_node;
            if let Some(l) = prev {
                self.arr[l].next_node_hash_index = Some(r);
            }
            if self.oldest_node.is_none() {
                self.oldest_node = Some(r);
            }
            self.latest_node = Some(r);
            self.arr[r] = HashNode::new(Some(key), Some(value), prev, None);
        }
        assert(self@.slots =~= old(self)@.insert_at(r as int, key@, value).slots);
    }

    /// Inserts `key` with `value` at the slot of `key` and makes it the
    /// latest entry. A key that was live keeps its slot, gets the new value and
    /// moves to the latest end of the order of recency; the other entries keep
    /// their order.
    ///
    /// The search for `key` must end inside the array: see `resolves`, and
    /// `try_insert` for a table of which this is not known.
    pub fn insert(&mut self, key: K, value: V)
        requires
            old(self).wf(),
            old(self)@.resolves(key@),
        ensures
            final(self).wf(),
            final(self)@ == old(self)@.insert(key@, value),
            final(self)@.resolved(key@) == old(self)@.resolved(key@),
            final(self)@.get(key@) == Some(value),
            final(self)@.last().key == Some(key@),
            final(self)@.last().value == Some(value),
            final(self)@.last().next is None,
            old(self)@.reachable() ==> final(self)@.reachable(),
            forall|order: Seq<usize>|
                old(self)@.ordered(order) ==> #[trigger] final(self)@.ordered(
                    without(order, old(self)@.resolved(key@) as usize).push(
                        old(self)@.resolved(key@) as usize,
                    ),
                ),
    {
        let r = self.find_slot(&key);
        proof {
            lemma_insert_linked(self@, key@, value);
            lemma_get_after_insert(self@, key@, value);
            if self@.reachable() {
                lemma_insert_reachable(self@, key@, value);
            }
        }
        self.write_at(r, key, value);
    }

    /// Removes `key`: its slot leaves the order of recency and becomes empty;
    /// the other entries keep their order. Nothing changes where the slot of
    /// `key` is empty.
    ///
    /// The search for `key` must end inside the array: see `resolves`, and
    /// `try_remove` for a table of which this is not known.
    ///
    /// No mark is left in the emptied slot. A later search for another key that
    /// once probed past this slot ends here, and finds that key absent though
    /// it is still stored further on.
    pub fn remove(&mut self, key: K)
        requires
            old(self).wf(),
            old(self)@.resolves(key@),
        ensures
            final(self).wf(),
            final(self)@ == old(self)@.remove(key@),
            final(self)@.resolved(key@) == old(self)@.resolved(key@),
            final(self)@.get(key@) is None,
            old(self)@.get(key@) is None ==> final(self)@ == old(self)@,
            old(self)@.reachable() && !old(self)@.shields(old(self)@.resolved(key@))
                ==> final(self)@.reachable(),
            forall|order: Seq<usize>|
                old(self)@.ordered(order) ==> #[trigger] final(self)@.ordered(
                    without(order, old(self)@.resolved(key@) as usize),
                ),
    {
        let r = self.find_slot(&key);
        proof {
            lemma_remove_linked(self@, key@);
            lemma_get_after_remove(self@, key@);
            if self@.reachable() && !self@.shields(self@.resolved(key@)) {
                lemma_remove_reachable(self@, key@);
            }
        }
        if self.arr[r].key.is_some() {
            self.unlink(r);
        }
    }

    /// Inserts as `insert` does where the search for `key` ends inside the
    /// array; else leaves the table as it is and reports the failure.
    pub fn try_insert(&mut self, key: K, value: V) -> (done: Result<(), ProbeExhausted>)
        requires
            old(self).wf(),
        ensures
            final(self).wf(),
            done is Ok == old(self)@.resolves(key@),
            done is Ok ==> final(self)@ == old(self)@.insert(key@, value),
            done is Err ==> final(self)@ == old(self)@,
    {
        if self.resolves(&key) {
            self.insert(key, value);
            Ok(())
        } else {
            Err(ProbeExhausted)
        }
    }

    /// Removes as `remove` does where the search for `key` ends inside the
    /// array; else leaves the table as it is and reports the failure.
    pub fn try_remove(&mut self, key: K) -> (done: Result<(), ProbeExhausted>)
        requires
            old(self).wf(),
        ensures
            final(self).wf(),
            done is Ok == old(self)@.resolves(key@),
            done is Ok ==> final(self)@ == old(self)@.remove(key@),
            done is Err ==> final(self)@ == old(self)@,
    {
        if self.resolves(&key) {
            self.remove(key);
            Ok(())
        } else {
            Err(ProbeExhausted)
        }
    }
}

impl<K: TableKey, V: Clone> HashMap<K, V> {
    /// A clone of the value stored for `key`; `None` where the slot of `key`
    /// is empty.
    ///
    /// The search for `key` must end inside the array: see `resolves`, and
    /// `try_get` for a table of which this is not known.
    pub fn get(&self, key: &K) -> (found: Option<V>)
        requires
            self.wf(),
            self@.resolves(key@),
        ensures
            value_cloned(self@.get(key@), found),
    {
        let r = self.find_slot(key);
        match &self.arr[r].value {
            Some(v) => Some(v.clone()),
            None => None,
        }
    }

    /// Looks up as `get` does where the search for `key` ends inside the
    /// array; else reports the failure.
    pub fn try_get(&self, key: &K) -> (found: Result<Option<V>, ProbeExhausted>)
        requires
            self.wf(),
        ensures
            found is Ok == self@.resolves(key@),
            found matches Ok(v) ==> value_cloned(self@.get(key@), v),
    {
        if self.resolves(key) {
            Ok(self.get(key))
        } else {
            Err(ProbeExhausted)
        }
    }

    /// A copy of the latest entry: the one most recently inserted or updated
    /// that is still there. The empty node where there is none.
    pub fn get_last(&self) -> (node: HashNode<K, V>)
        requires
            self.wf(),
        ensures
            entry_cloned(self@.last(), node@),
    {
        match self.latest_node {
            Some(l) => self.arr[l].clone(),
            None => HashNode::new_empty(),
        }
    }

    /// A copy of the oldest entry: the one least recently inserted or updated
    /// that is still there. The empty node where there is none.
    pub fn get_first(&self) -> (node: HashNode<K, V>)
        requires
            self.wf(),
        ensures
            entry_cloned(self@.first(), node@),
    {
        match self.oldest_node {
            Some(o) => self.arr[o].clone(),
            None => self.get_last(),
        }
    }

    /// Every live slot in the order of the array, whatever the order of
    /// recency: its index with a copy of its node.
    pub fn display(&self) -> (rows: Vec<(usize, HashNode<K, V>)>)
        requires
            self.wf(),
        ensures
            rows@.len() == self@.live_slots().len(),
            forall|j: int|
                0 <= j < rows@.len() ==> {
                    &&& (#[trigger] rows@[j]).0 == self@.live_slots()[j]
                    &&& entry_cloned(self@.slots[rows@[j].0 as int], rows@[j].1@)
                },
    {
        let mut rows: Vec<(usize, HashNode<K, V>)> = Vec::new();
        let mut i: usize = 0;
        while i < self.arr.len()
            invariant
                self.wf(),
                i <= self.arr@.len(),
                rows@.len() == self@.live_below(i as int).len(),
                forall|j: int|
                    0 <= j < rows@.len() ==> {
                        &&& (#[trigger] rows@[j]).0 == self@.live_below(i as int)[j]
                        &&& entry_cloned(self@.slots[rows@[j].0 as int], rows@[j].1@)
                    },
            decreases self.arr@.len() - i,
        {
            if self.arr[i].value.is_some() {
                rows.push((i, self.arr[i].clone()));
            }
            i += 1;
        }
        rows
    }
}

} // verus!
