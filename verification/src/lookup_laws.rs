//! What holds of lookups: where the search for a key ends, before and after
//! an insert or a remove.

use crate::key::TableKey;
use crate::model::TableModel;
use vstd::prelude::*;

verus! {

/// The search from `from` ends at or after `from`, at the first slot that is
/// empty or holds the key, or at the capacity where there is no such slot.
pub proof fn lemma_probe_ends<K: TableKey, V>(t: TableModel<K, V>, from: int, key: K::V)
    requires
        0 <= from <= t.slots.len(),
    ensures
        from <= t.probe(from, key) <= t.slots.len(),
        t.probe(from, key) < t.slots.len() ==> t.stops_at(t.probe(from, key), key),
        forall|j: int| from <= j < t.probe(from, key) ==> !t.stops_at(j, key),
    decreases t.slots.len() - from,
{
    if from < t.slots.len() && !t.stops_at(from, key) {
        lemma_probe_ends(t, from + 1, key);
    }
}

/// The search from `from` ends at `p` if no slot from `from` up to `p` stops
/// it and `p` does, or is the capacity.
pub proof fn lemma_probe_is<K: TableKey, V>(t: TableModel<K, V>, from: int, p: int, key: K::V)
    requires
        0 <= from <= p <= t.slots.len(),
        forall|j: int| from <= j < p ==> !t.stops_at(j, key),
        p < t.slots.len() ==> t.stops_at(p, key),
    ensures
        t.probe(from, key) == p,
    decreases p - from,
{
    if from < p {
        lemma_probe_is(t, from + 1, p, key);
    }
}

/// The home slot of a key is a slot of the table.
pub proof fn lemma_home_in_range<K: TableKey, V>(t: TableModel<K, V>, key: K::V)
    requires
        t.slots.len() > 0,
    ensures
        0 <= t.home(key) < t.slots.len(),
{
}

/// The search for a key ends at a slot of the table or at the capacity.
pub proof fn lemma_resolved_in_range<K: TableKey, V>(t: TableModel<K, V>, key: K::V)
    requires
        t.slots.len() > 0,
    ensures
        0 <= t.home(key) <= t.resolved(key) <= t.slots.len(),
        t.resolves(key) ==> t.stops_at(t.resolved(key), key),
        t.finds(key) ==> t.live(t.resolved(key)),
{
    lemma_home_in_range(t, key);
    lemma_probe_ends(t, t.home(key), key);
}

/// An insert at slot `r` changes the key and the value of that slot alone.
pub proof fn lemma_insert_at_contents<K: TableKey, V>(
    t: TableModel<K, V>,
    r: int,
    key: K::V,
    value: V,
)
    requires
        t.valid(),
        0 <= r < t.slots.len(),
    ensures
        t.insert_at(r, key, value).slots.len() == t.slots.len(),
        t.insert_at(r, key, value).slots[r].key == Some(key),
        t.insert_at(r, key, value).slots[r].value == Some(value),
        forall|j: int|
            0 <= j < t.slots.len() && j != r ==> {
                &&& (#[trigger] t.insert_at(r, key, value).slots[j]).key == t.slots[j].key
                &&& t.insert_at(r, key, value).slots[j].value == t.slots[j].value
            },
{
}

/// A remove at a live slot `r` empties that slot and changes no other key or
/// value.
pub proof fn lemma_remove_at_contents<K: TableKey, V>(t: TableModel<K, V>, r: int)
    requires
        t.valid(),
        t.live(r),
    ensures
        t.remove_at(r).slots.len() == t.slots.len(),
        t.remove_at(r).slots[r] == crate::node::Entry::<K::V, V>::empty(),
        forall|j: int|
            0 <= j < t.slots.len() && j != r ==> {
                &&& (#[trigger] t.remove_at(r).slots[j]).key == t.slots[j].key
                &&& t.remove_at(r).slots[j].value == t.slots[j].value
            },
{
}

/// An insert keeps a table valid.
pub proof fn lemma_insert_valid<K: TableKey, V>(t: TableModel<K, V>, key: K::V, value: V)
    requires
        t.valid(),
        t.resolves(key),
    ensures
        t.insert(key, value).valid(),
{
    lemma_home_in_range(t, key);
    lemma_probe_ends(t, t.home(key), key);
}

/// A remove keeps a table valid.
pub proof fn lemma_remove_valid<K: TableKey, V>(t: TableModel<K, V>, key: K::V)
    requires
        t.valid(),
        t.resolves(key),
    ensures
        t.remove(key).valid(),
{
    lemma_home_in_range(t, key);
    lemma_probe_ends(t, t.home(key), key);
}

/// After an insert the search for the key ends where it ended before, and a
/// lookup of the key gives the value just inserted.
pub proof fn lemma_get_after_insert<K: TableKey, V>(t: TableModel<K, V>, key: K::V, value: V)
    requires
        t.valid(),
        t.resolves(key),
    ensures
        t.insert(key, value).resolves(key),
        t.insert(key, value).resolved(key) == t.resolved(key),
        t.insert(key, value).get(key) == Some(value),
{
    let r = t.resolved(key);
    let after = t.insert(key, value);
    lemma_home_in_range(t, key);
    lemma_probe_ends(t, t.home(key), key);
    lemma_insert_at_contents(t, r, key, value);
    assert forall|j: int| t.home(key) <= j < r implies !after.stops_at(j, key) by {
        assert(!t.stops_at(j, key));
    }
    lemma_probe_is(after, t.home(key), r, key);
}

/// After a remove the search for the key ends where it ended before, at a
/// slot that is now empty: a lookup of the key finds nothing.
pub proof fn lemma_get_after_remove<K: TableKey, V>(t: TableModel<K, V>, key: K::V)
    requires
        t.valid(),
        t.resolves(key),
    ensures
        t.remove(key).resolves(key),
        t.remove(key).resolved(key) == t.resolved(key),
        t.remove(key).get(key) is None,
{
    let r = t.resolved(key);
    let after = t.remove(key);
    lemma_home_in_range(t, key);
    lemma_probe_ends(t, t.home(key), key);
    if t.live(r) {
        lemma_remove_at_contents(t, r);
        assert forall|j: int| t.home(key) <= j < r implies !after.stops_at(j, key) by {
            assert(!t.stops_at(j, key));
        }
        lemma_probe_is(after, t.home(key), r, key);
    }
}

/// The search for a key that no slot holds ends at an empty slot: a lookup
/// finds nothing.
pub proof fn lemma_get_absent<K: TableKey, V>(t: TableModel<K, V>, key: K::V)
    requires
        t.valid(),
        t.resolves(key),
        !t.holds(key),
    ensures
        !t.live(t.resolved(key)),
        t.get(key) is None,
{
    lemma_home_in_range(t, key);
    lemma_probe_ends(t, t.home(key), key);
    let r = t.resolved(key);
    assert(t.slots[r].key != Some(key));
}

/// To remove a key that no slot holds changes nothing.
pub proof fn lemma_remove_absent<K: TableKey, V>(t: TableModel<K, V>, key: K::V)
    requires
        t.valid(),
        t.resolves(key),
        !t.holds(key),
    ensures
        t.remove(key) == t,
        t.remove(key).first() == t.first(),
        t.remove(key).last() == t.last(),
{
    lemma_home_in_range(t, key);
    lemma_probe_ends(t, t.home(key), key);
    lemma_get_absent(t, key);
}

/// In a table of empty slots, with at least one slot, the search for any key
/// ends at its home slot; to remove the key changes nothing, a lookup finds
/// nothing, and both ends of the order are the empty entry.
pub proof fn lemma_empty_table<K: TableKey, V>(capacity: nat, key: K::V)
    requires
        0 < capacity <= usize::MAX,
    ensures
        TableModel::<K, V>::empty(capacity).valid(),
        TableModel::<K, V>::empty(capacity).reachable(),
        TableModel::<K, V>::empty(capacity).resolves(key),
        TableModel::<K, V>::empty(capacity).resolved(key) == TableModel::<K, V>::empty(
            capacity,
        ).home(key),
        TableModel::<K, V>::empty(capacity).get(key) is None,
        TableModel::<K, V>::empty(capacity).remove(key) == TableModel::<K, V>::empty(capacity),
        TableModel::<K, V>::empty(capacity).first().key is None,
        TableModel::<K, V>::empty(capacity).last().key is None,
{
    let t = TableModel::<K, V>::empty(capacity);
    lemma_home_in_range(t, key);
    lemma_probe_is(t, t.home(key), t.home(key), key);
}

/// One insert into a table of empty slots and a remove of the same key give
/// the table of empty slots again: neither end of the order has a key.
pub proof fn lemma_insert_then_remove<K: TableKey, V>(capacity: nat, key: K::V, value: V)
    requires
        0 < capacity <= usize::MAX,
    ensures
        TableModel::<K, V>::empty(capacity).insert(key, value).resolves(key),
        TableModel::<K, V>::empty(capacity).insert(key, value).remove(key) == TableModel::<
            K,
            V,
        >::empty(capacity),
        TableModel::<K, V>::empty(capacity).insert(key, value).remove(key).first().key is None,
        TableModel::<K, V>::empty(capacity).insert(key, value).remove(key).last().key is None,
{
    let t = TableModel::<K, V>::empty(capacity);
    lemma_empty_table::<K, V>(capacity, key);
    lemma_get_after_insert(t, key, value);
    let mid = t.insert(key, value);
    let r = t.resolved(key);
    assert(mid.remove(key).slots =~= t.slots);
}

/// After an insert a slot holds a key exactly if the key is the one inserted
/// or a slot held it before.
pub proof fn lemma_insert_holds<K: TableKey, V>(
    t: TableModel<K, V>,
    key: K::V,
    value: V,
    other: K::V,
)
    requires
        t.valid(),
        t.resolves(key),
    ensures
        t.insert(key, value).holds(other) <==> other == key || t.holds(other),
{
    let r = t.resolved(key);
    let after = t.insert(key, value);
    lemma_home_in_range(t, key);
    lemma_probe_ends(t, t.home(key), key);
    lemma_insert_at_contents(t, r, key, value);
    if after.holds(other) {
        let i = choose|i: int| 0 <= i < after.slots.len() && (#[trigger] after.slots[i]).key == Some(other);
        if i != r {
            assert(t.slots[i].key == Some(other));
        }
    }
    if other == key {
        assert(after.slots[r].key == Some(other));
    }
    if t.holds(other) && other != key {
        let i = choose|i: int| 0 <= i < t.slots.len() && (#[trigger] t.slots[i]).key == Some(other);
        assert(i != r);
        assert(after.slots[i].key == Some(other));
    }
}

/// An insert keeps every key findable that was findable.
pub proof fn lemma_insert_reachable<K: TableKey, V>(t: TableModel<K, V>, key: K::V, value: V)
    requires
        t.valid(),
        t.reachable(),
        t.resolves(key),
    ensures
        t.insert(key, value).reachable(),
{
    let r = t.resolved(key);
    let after = t.insert(key, value);
    lemma_home_in_range(t, key);
    lemma_probe_ends(t, t.home(key), key);
    lemma_insert_at_contents(t, r, key, value);
    lemma_get_after_insert(t, key, value);
    assert forall|i: int| #[trigger] after.live(i) implies after.resolved(after.slots[i].key->0)
        == i by {
        if i != r {
            let k = t.slots[i].key->0;
            assert(t.live(i));
            assert(k != key) by {
                if k == key {
                    assert(t.resolved(key) == i);
                }
            }
            lemma_home_in_range(t, k);
            lemma_probe_ends(t, t.home(k), k);
            assert forall|j: int| t.home(k) <= j < i implies !after.stops_at(j, k) by {
                assert(!t.stops_at(j, k));
            }
            lemma_probe_is(after, after.home(k), i, k);
        }
    }
}

/// An insert leaves the lookup of every other key that the table holds as it
/// was.
pub proof fn lemma_insert_keeps_lookup<K: TableKey, V>(
    t: TableModel<K, V>,
    key: K::V,
    value: V,
    other: K::V,
)
    requires
        t.valid(),
        t.reachable(),
        t.resolves(key),
        t.holds(other),
        other != key,
    ensures
        t.resolves(other),
        t.insert(key, value).resolves(other),
        t.insert(key, value).resolved(other) == t.resolved(other),
        t.insert(key, value).get(other) == t.get(other),
{
    let r = t.resolved(key);
    let after = t.insert(key, value);
    let i = choose|i: int| 0 <= i < t.slots.len() && (#[trigger] t.slots[i]).key == Some(other);
    assert(t.live(i));
    lemma_home_in_range(t, key);
    lemma_probe_ends(t, t.home(key), key);
    lemma_insert_at_contents(t, r, key, value);
    lemma_insert_reachable(t, key, value);
    assert(i != r);
    assert(after.live(i));
}

/// After a remove, under findability, a slot holds a key exactly if the key is
/// not the one removed and a slot held it before.
pub proof fn lemma_remove_holds<K: TableKey, V>(t: TableModel<K, V>, key: K::V, other: K::V)
    requires
        t.valid(),
        t.reachable(),
        t.resolves(key),
    ensures
        t.remove(key).holds(other) <==> other != key && t.holds(other),
{
    let r = t.resolved(key);
    let after = t.remove(key);
    lemma_home_in_range(t, key);
    lemma_probe_ends(t, t.home(key), key);
    if t.live(r) {
        lemma_remove_at_contents(t, r);
    }
    if after.holds(other) {
        let i = choose|i: int| 0 <= i < after.slots.len() && (#[trigger] after.slots[i]).key == Some(other);
        assert(t.slots[i].key == Some(other));
        if other == key {
            assert(t.live(i));
            assert(t.resolved(key) == i);
        }
    }
    if t.holds(other) && other != key {
        let i = choose|i: int| 0 <= i < t.slots.len() && (#[trigger] t.slots[i]).key == Some(other);
        assert(i != r);
        assert(after.slots[i].key == Some(other));
    }
}

/// A remove keeps every other key findable if the emptied slot lies on the
/// search path of none of them.
pub proof fn lemma_remove_reachable<K: TableKey, V>(t: TableModel<K, V>, key: K::V)
    requires
        t.valid(),
        t.reachable(),
        t.resolves(key),
        !t.shields(t.resolved(key)),
    ensures
        t.remove(key).reachable(),
{
    let r = t.resolved(key);
    let after = t.remove(key);
    lemma_home_in_range(t, key);
    lemma_probe_ends(t, t.home(key), key);
    if t.live(r) {
        lemma_remove_at_contents(t, r);
        assert forall|i: int| #[trigger] after.live(i) implies after.resolved(
            after.slots[i].key->0,
        ) == i by {
            let k = t.slots[i].key->0;
            assert(t.live(i));
            lemma_home_in_range(t, k);
            lemma_probe_ends(t, t.home(k), k);
            assert forall|j: int| t.home(k) <= j < i implies !after.stops_at(j, k) by {
                assert(!t.stops_at(j, k));
            }
            lemma_probe_is(after, after.home(k), i, k);
        }
    }
}

/// A remove leaves the lookup of another key at slot `s` as it was, unless
/// the emptied slot lies on the search path of that key.
pub proof fn lemma_remove_keeps_lookup<K: TableKey, V>(t: TableModel<K, V>, key: K::V, s: int)
    requires
        t.valid(),
        t.reachable(),
        t.resolves(key),
        t.live(s),
        t.slots[s].key != Some(key),
        !(t.home(t.slots[s].key->0) <= t.resolved(key) < s),
    ensures
        t.remove(key).resolved(t.slots[s].key->0) == s,
        t.remove(key).get(t.slots[s].key->0) == t.get(t.slots[s].key->0),
{
    let r = t.resolved(key);
    let after = t.remove(key);
    let k = t.slots[s].key->0;
    lemma_home_in_range(t, key);
    lemma_probe_ends(t, t.home(key), key);
    lemma_home_in_range(t, k);
    lemma_probe_ends(t, t.home(k), k);
    if t.live(r) {
        lemma_remove_at_contents(t, r);
        assert forall|j: int| t.home(k) <= j < s implies !after.stops_at(j, k) by {
            assert(!t.stops_at(j, k));
        }
        lemma_probe_is(after, after.home(k), s, k);
    }
}

/// The limit of emptying a slot without a mark: where the removed key's slot
/// lies on the search path of another key, held at slot `s`, the search for
/// that key now ends at the emptied slot, and a lookup finds nothing though
/// slot `s` still holds the key.
pub proof fn lemma_remove_hides<K: TableKey, V>(t: TableModel<K, V>, key: K::V, s: int)
    requires
        t.valid(),
        t.reachable(),
        t.resolves(key),
        t.live(t.resolved(key)),
        t.live(s),
        t.home(t.slots[s].key->0) <= t.resolved(key) < s,
    ensures
        t.remove(key).slots[s].key == t.slots[s].key,
        t.remove(key).resolved(t.slots[s].key->0) == t.resolved(key),
        t.remove(key).get(t.slots[s].key->0) is None,
{
    let r = t.resolved(key);
    let after = t.remove(key);
    let k = t.slots[s].key->0;
    lemma_home_in_range(t, k);
    lemma_probe_ends(t, t.home(k), k);
    lemma_remove_at_contents(t, r);
    assert forall|j: int| t.home(k) <= j < r implies !after.stops_at(j, k) by {
        assert(!t.stops_at(j, k));
    }
    lemma_probe_is(after, after.home(k), r, k);
}

} // verus!
