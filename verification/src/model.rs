//! The table as a mathematical value, and what each operation makes of it.

use crate::key::TableKey;
use crate::node::Entry;
use vstd::prelude::*;

verus! {

/// The state of a table: its slots in the order of the array, and the two ends
/// of the order of recency.
pub struct TableModel<K: TableKey, V> {
    pub slots: Seq<Entry<K::V, V>>,
    pub oldest: Option<usize>,
    pub latest: Option<usize>,
}

impl<K: TableKey, V> TableModel<K, V> {
    /// The table of `capacity` empty slots.
    pub open spec fn empty(capacity: nat) -> Self {
        TableModel {
            slots: Seq::new(capacity, |i: int| Entry::<K::V, V>::empty()),
            oldest: None,
            latest: None,
        }
    }

    /// The number of slots.
    pub open spec fn capacity(self) -> nat {
        self.slots.len()
    }

    /// A link is absent or names a slot of the table.
    pub open spec fn link_ok(self, link: Option<usize>) -> bool {
        link matches Some(i) ==> i < self.slots.len()
    }

    /// What holds of every table: an index can name each of its slots, each
    /// slot has a key and a value or neither, and no link leaves the array.
    pub open spec fn valid(self) -> bool {
        &&& self.slots.len() <= usize::MAX
        &&& self.link_ok(self.oldest)
        &&& self.link_ok(self.latest)
        &&& forall|i: int|
            0 <= i < self.slots.len() ==> {
                let e = #[trigger] self.slots[i];
                &&& (e.key is Some) == (e.value is Some)
                &&& self.link_ok(e.prev)
                &&& self.link_ok(e.next)
            }
    }

    /// The slot at which the search for `key` starts. The table must have a slot.
    pub open spec fn home(self, key: K::V) -> int
        recommends
            self.slots.len() > 0,
    {
        (K::spec_hash(key) as usize) as int % (self.slots.len() as int)
    }

    /// The search for `key` ends at slot `i`: it is empty or holds `key`.
    pub open spec fn stops_at(self, i: int, key: K::V) -> bool {
        self.slots[i].key is None || self.slots[i].key == Some(key)
    }

    /// The first slot from `from` on, going up, at which the search for `key`
    /// ends; the capacity if there is none.
    pub open spec fn probe(self, from: int, key: K::V) -> int
        decreases self.slots.len() - from,
    {
        if from < 0 || from >= self.slots.len() {
            self.slots.len() as int
        } else if self.stops_at(from, key) {
            from
        } else {
            self.probe(from + 1, key)
        }
    }

    /// The slot of `key`: where the search from its home slot ends.
    pub open spec fn resolved(self, key: K::V) -> int {
        self.probe(self.home(key), key)
    }

    /// The search for `key` ends inside the array.
    pub open spec fn resolves(self, key: K::V) -> bool {
        self.slots.len() > 0 && self.resolved(key) < self.slots.len()
    }

    /// The table after `key` with `value` is written to the slot `r`, which is
    /// not in the order, and put at the latest end of it: the entry gets the
    /// former latest slot as its `prev` and no `next`, and the former latest
    /// slot gets `r` as its `next`. Where the order was empty, `r` is the oldest
    /// slot too.
    pub open spec fn append_at(self, r: int, key: K::V, value: V) -> Self {
        let linked = match self.latest {
            Some(l) => self.slots.update(l as int, self.slots[l as int].with_next(Some(r as usize))),
            None => self.slots,
        };
        TableModel {
            slots: linked.update(
                r,
                Entry { key: Some(key), value: Some(value), prev: self.latest, next: None },
            ),
            oldest: if self.oldest is None { Some(r as usize) } else { self.oldest },
            latest: Some(r as usize),
        }
    }

    /// The table after `key` with `value` is written to slot `r` and made the
    /// latest entry.
    ///
    /// Where `r` is the latest slot already, it keeps its place and its links.
    /// Else the slot is first taken out of the order, if it is live, as a remove
    /// does it, and then put at the latest end.
    pub open spec fn insert_at(self, r: int, key: K::V, value: V) -> Self {
        if self.latest == Some(r as usize) {
            TableModel {
                slots: self.slots.update(
                    r,
                    Entry {
                        key: Some(key),
                        value: Some(value),
                        prev: self.slots[r].prev,
                        next: None,
                    },
                ),
                ..self
            }
        } else {
            self.remove_at(r).append_at(r, key, value)
        }
    }

    /// The table after `key` is inserted with `value`.
    pub open spec fn insert(self, key: K::V, value: V) -> Self
        recommends
            self.resolves(key),
    {
        self.insert_at(self.resolved(key), key, value)
    }

    /// The table after slot `r` is taken out of the order and emptied; the
    /// same table where slot `r` is empty.
    ///
    /// The slot before it in the order gets its `next`, the slot after it gets
    /// its `prev`, and an end of the order that was `r` moves to the neighbour.
    pub open spec fn remove_at(self, r: int) -> Self {
        let e = self.slots[r];
        if e.key is None {
            self
        } else {
            let before = match e.prev {
                Some(p) => self.slots.update(p as int, self.slots[p as int].with_next(e.next)),
                None => self.slots,
            };
            let after = match e.next {
                Some(n) => before.update(n as int, before[n as int].with_prev(e.prev)),
                None => before,
            };
            TableModel {
                slots: after.update(r, Entry::empty()),
                oldest: if self.oldest == Some(r as usize) { e.next } else { self.oldest },
                latest: if self.latest == Some(r as usize) { e.prev } else { self.latest },
            }
        }
    }

    /// The table after `key` is removed.
    pub open spec fn remove(self, key: K::V) -> Self
        recommends
            self.resolves(key),
    {
        self.remove_at(self.resolved(key))
    }

    /// The value stored for `key`, if any.
    pub open spec fn get(self, key: K::V) -> Option<V>
        recommends
            self.resolves(key),
    {
        self.slots[self.resolved(key)].value
    }

    /// The entry at the latest end of the order; the empty entry where the
    /// table has no latest slot.
    pub open spec fn last(self) -> Entry<K::V, V> {
        match self.latest {
            Some(l) => self.slots[l as int],
            None => Entry::empty(),
        }
    }

    /// The entry at the oldest end of the order; that of the latest end where
    /// the table has no oldest slot, and the empty entry where it has neither.
    pub open spec fn first(self) -> Entry<K::V, V> {
        match self.oldest {
            Some(o) => self.slots[o as int],
            None => self.last(),
        }
    }

    /// The live slots below `n`, in the order of the array.
    pub open spec fn live_below(self, n: int) -> Seq<usize>
        decreases n,
    {
        if n <= 0 {
            Seq::empty()
        } else if self.slots[n - 1].is_live() {
            self.live_below(n - 1).push((n - 1) as usize)
        } else {
            self.live_below(n - 1)
        }
    }

    /// All live slots, in the order of the array.
    pub open spec fn live_slots(self) -> Seq<usize> {
        self.live_below(self.slots.len() as int)
    }

    /// Slot `i` is a slot of the table and holds a key.
    pub open spec fn live(self, i: int) -> bool {
        0 <= i < self.slots.len() && self.slots[i].is_live()
    }

    /// Some slot holds `key`.
    pub open spec fn holds(self, key: K::V) -> bool {
        exists|i: int| 0 <= i < self.slots.len() && (#[trigger] self.slots[i]).key == Some(key)
    }

    /// Every key in the table is found by the search for it: the search ends
    /// at the slot that holds the key. Then no key is held twice.
    pub open spec fn reachable(self) -> bool {
        self.slots.len() > 0 && forall|i: int| #[trigger]
            self.live(i) ==> self.resolved(self.slots[i].key->0) == i
    }

    /// The search for a key held at slot `s` passes slot `r` before it gets
    /// there, for some live slot `s`: emptying `r` would cut that search short.
    pub open spec fn shields(self, r: int) -> bool {
        exists|s: int| #[trigger]
            self.live(s) && self.home(self.slots[s].key->0) <= r < s
    }

    /// `order` lists the live slots, each once, from the oldest to the latest,
    /// and the links between the slots follow it: `next` from each slot to the
    /// one after it, `prev` from each slot to the one before it.
    ///
    /// Nothing is said here of the `prev` of the oldest slot or the `next` of
    /// the latest: see `sealed`.
    pub open spec fn chain(self, order: Seq<usize>) -> bool {
        &&& order.no_duplicates()
        &&& forall|j: int| 0 <= j < order.len() ==> self.live(#[trigger] order[j] as int)
        &&& forall|i: int| #[trigger] self.live(i) ==> order.contains(i as usize)
        &&& self.oldest == if order.len() == 0 { None } else { Some(order.first()) }
        &&& self.latest == if order.len() == 0 { None } else { Some(order.last()) }
        &&& forall|j: int|
            0 <= j < order.len() - 1 ==> self.slots[#[trigger] order[j] as int].next == Some(
                order[j + 1],
            )
        &&& forall|j: int|
            0 < j < order.len() ==> self.slots[#[trigger] order[j] as int].prev == Some(
                order[j - 1],
            )
    }

    /// The order ends at both ends: the oldest slot has no `prev` and the
    /// latest slot has no `next`.
    pub open spec fn sealed(self) -> bool {
        &&& self.oldest matches Some(o) ==> self.slots[o as int].prev is None
        &&& self.latest matches Some(l) ==> self.slots[l as int].next is None
    }

    /// The links form one chain over the live slots in the order `order`, closed
    /// at both ends.
    pub open spec fn ordered(self, order: Seq<usize>) -> bool {
        self.chain(order) && self.sealed()
    }

    /// The links form one closed chain over the live slots, in some order.
    pub open spec fn linked(self) -> bool {
        exists|order: Seq<usize>| self.ordered(order)
    }

    /// The slot reached from `from` by following `next` links `steps` times.
    pub open spec fn follow_next(self, from: Option<usize>, steps: nat) -> Option<usize>
        decreases steps,
    {
        if steps == 0 {
            from
        } else {
            match from {
                Some(i) => if i < self.slots.len() {
                    self.follow_next(self.slots[i as int].next, (steps - 1) as nat)
                } else {
                    None
                },
                None => None,
            }
        }
    }

    /// The slot reached from `from` by following `prev` links `steps` times.
    pub open spec fn follow_prev(self, from: Option<usize>, steps: nat) -> Option<usize>
        decreases steps,
    {
        if steps == 0 {
            from
        } else {
            match from {
                Some(i) => if i < self.slots.len() {
                    self.follow_prev(self.slots[i as int].prev, (steps - 1) as nat)
                } else {
                    None
                },
                None => None,
            }
        }
    }

    /// The table after the keys are inserted one after the other, each with
    /// the value at its place in `values`.
    pub open spec fn insert_all(self, keys: Seq<K::V>, values: Seq<V>) -> Self
        recommends
            keys.len() == values.len(),
        decreases keys.len(),
    {
        if keys.len() == 0 {
            self
        } else {
            self.insert_all(keys.drop_last(), values.drop_last()).insert(
                keys.last(),
                values.last(),
            )
        }
    }

    /// Each of these inserts, at its turn, finds a slot for its key.
    pub open spec fn all_resolve(self, keys: Seq<K::V>, values: Seq<V>) -> bool
        recommends
            keys.len() == values.len(),
        decreases keys.len(),
    {
        keys.len() == 0 || {
            &&& self.all_resolve(keys.drop_last(), values.drop_last())
            &&& self.insert_all(keys.drop_last(), values.drop_last()).resolves(keys.last())
        }
    }

    /// The slots of the keys, in the order of the keys.
    pub open spec fn slots_of(self, keys: Seq<K::V>) -> Seq<usize> {
        Seq::new(keys.len(), |j: int| self.resolved(keys[j]) as usize)
    }

    /// The search for `key` finds it: it ends at a slot that holds `key`.
    pub open spec fn finds(self, key: K::V) -> bool {
        self.resolves(key) && self.slots[self.resolved(key)].key == Some(key)
    }

    /// The table is valid and holds the keys of `keys` and no others, each
    /// findable, in this order of recency from the oldest to the latest, its
    /// chain closed at both ends.
    pub open spec fn holds_in_order(self, keys: Seq<K::V>) -> bool {
        &&& self.valid()
        &&& self.reachable()
        &&& self.ordered(self.slots_of(keys))
        &&& forall|j: int| 0 <= j < keys.len() ==> self.finds(#[trigger] keys[j])
    }

    /// The table after one step.
    pub open spec fn step(self, step: Step<K::V, V>) -> Self {
        match step {
            Step::Insert { key, value } => self.insert(key, value),
            Step::Remove { key } => self.remove(key),
        }
    }

    /// The table after the steps, taken one after the other.
    pub open spec fn run(self, steps: Seq<Step<K::V, V>>) -> Self
        decreases steps.len(),
    {
        if steps.len() == 0 {
            self
        } else {
            self.run(steps.drop_last()).step(steps.last())
        }
    }

    /// The step keeps every key findable: the search for its key ends inside
    /// the array, and a remove empties no slot on the search path of another
    /// key.
    pub open spec fn admits(self, step: Step<K::V, V>) -> bool {
        match step {
            Step::Insert { key, value } => self.resolves(key),
            Step::Remove { key } => {
                &&& self.resolves(key)
                &&& !self.shields(self.resolved(key))
            },
        }
    }

    /// The search for the key of each step, at its turn, ends inside the array.
    pub open spec fn resolves_all(self, steps: Seq<Step<K::V, V>>) -> bool
        decreases steps.len(),
    {
        steps.len() == 0 || {
            &&& self.resolves_all(steps.drop_last())
            &&& self.run(steps.drop_last()).resolves(steps.last().key())
        }
    }

    /// The order of the live slots after the steps, from the oldest to the
    /// latest, for a table that starts with no live slot: each step takes the
    /// slot of its key out of the order, and an insert puts it at the latest
    /// end.
    pub open spec fn order_after(self, steps: Seq<Step<K::V, V>>) -> Seq<usize>
        decreases steps.len(),
    {
        if steps.len() == 0 {
            Seq::empty()
        } else {
            let r = self.run(steps.drop_last()).resolved(steps.last().key()) as usize;
            let rest = without(self.order_after(steps.drop_last()), r);
            match steps.last() {
                Step::Insert { key, value } => rest.push(r),
                Step::Remove { key } => rest,
            }
        }
    }

    /// Each of the steps, at its turn, keeps every key findable.
    pub open spec fn admits_all(self, steps: Seq<Step<K::V, V>>) -> bool
        decreases steps.len(),
    {
        steps.len() == 0 || {
            &&& self.admits_all(steps.drop_last())
            &&& self.run(steps.drop_last()).admits(steps.last())
        }
    }
}

/// One change to a table.
pub enum Step<Id, V> {
    /// An insert of `key` with `value`.
    Insert { key: Id, value: V },
    /// A remove of `key`.
    Remove { key: Id },
}

impl<Id, V> Step<Id, V> {
    /// The key that the step inserts or removes.
    pub open spec fn key(self) -> Id {
        match self {
            Step::Insert { key, value } => key,
            Step::Remove { key } => key,
        }
    }
}

/// The sequence without `item`, in the same order; for a sequence that holds
/// nothing twice.
pub open spec fn without<A>(items: Seq<A>, item: A) -> Seq<A> {
    if items.contains(item) {
        items.remove(items.index_of(item))
    } else {
        items
    }
}

/// The keys that are left after the steps, from the one least recently
/// inserted to the one most recently inserted.
pub open spec fn keys_after<Id, V>(steps: Seq<Step<Id, V>>) -> Seq<Id>
    decreases steps.len(),
{
    if steps.len() == 0 {
        Seq::empty()
    } else {
        match steps.last() {
            Step::Insert { key, value } => without(keys_after(steps.drop_last()), key).push(key),
            Step::Remove { key } => without(keys_after(steps.drop_last()), key),
        }
    }
}

/// The value most recently inserted for each key that is left after the steps.
pub open spec fn values_after<Id, V>(steps: Seq<Step<Id, V>>) -> Map<Id, V>
    decreases steps.len(),
{
    if steps.len() == 0 {
        Map::empty()
    } else {
        match steps.last() {
            Step::Insert { key, value } => values_after(steps.drop_last()).insert(key, value),
            Step::Remove { key } => values_after(steps.drop_last()).remove(key),
        }
    }
}

} // verus!
