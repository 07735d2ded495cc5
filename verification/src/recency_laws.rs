//! What holds of the order of recency as an order of keys: which key is the
//! oldest and which the latest after a run of inserts and removes.

use crate::key::TableKey;
use crate::lookup_laws::lemma_get_absent;
use crate::lookup_laws::lemma_get_after_insert;
use crate::lookup_laws::lemma_insert_keeps_lookup;
use crate::lookup_laws::lemma_insert_reachable;
use crate::lookup_laws::lemma_remove_absent;
use crate::lookup_laws::lemma_remove_at_contents;
use crate::lookup_laws::lemma_remove_keeps_lookup;
use crate::lookup_laws::lemma_remove_reachable;
use crate::lookup_laws::lemma_remove_valid;
use crate::lookup_laws::lemma_resolved_in_range;
use crate::model::Step;
use crate::model::TableModel;
use crate::model::keys_after;
use crate::model::values_after;
use crate::model::without;
use crate::order_laws::lemma_chain_consistent;
use crate::order_laws::lemma_insert_ordered;
use crate::order_laws::lemma_remove_ordered;
use vstd::prelude::*;

verus! {

/// A table of empty slots, with at least one slot, holds no keys in order.
pub proof fn lemma_empty_in_order<K: TableKey, V>(capacity: nat)
    requires
        0 < capacity <= usize::MAX,
    ensures
        TableModel::<K, V>::empty(capacity).holds_in_order(Seq::empty()),
{
    let t = TableModel::<K, V>::empty(capacity);
    assert(t.slots_of(Seq::empty()) =~= Seq::<usize>::empty());
}

/// In a table that holds `keys` in order, a slot holds a key exactly if the
/// key is one of `keys`, and no key is listed twice.
pub proof fn lemma_in_order_keys<K: TableKey, V>(t: TableModel<K, V>, keys: Seq<K::V>)
    requires
        t.holds_in_order(keys),
    ensures
        keys.no_duplicates(),
        forall|key: K::V| #[trigger] t.holds(key) <==> keys.contains(key),
{
    let order = t.slots_of(keys);
    assert forall|a: int, b: int| 0 <= a < keys.len() && 0 <= b < keys.len() && a != b implies keys[a]
        != keys[b] by {
        if keys[a] == keys[b] {
            assert(order[a] == order[b]);
        }
    }
    assert forall|key: K::V| #[trigger] t.holds(key) <==> keys.contains(key) by {
        if t.holds(key) {
            let i = choose|i: int| 0 <= i < t.slots.len() && (#[trigger] t.slots[i]).key == Some(key);
            assert(t.live(i));
            assert(order.contains(i as usize));
            let j = choose|j: int| 0 <= j < order.len() && order[j] == i as usize;
            assert(t.finds(keys[j]));
            lemma_resolved_in_range(t, keys[j]);
            assert(keys[j] == key);
        }
        if keys.contains(key) {
            let j = choose|j: int| 0 <= j < keys.len() && keys[j] == key;
            assert(t.finds(keys[j]));
            lemma_resolved_in_range(t, key);
            assert(t.slots[t.resolved(key)].key == Some(key));
        }
    }
}

/// In a table that holds `keys` in order, the oldest entry has the first key
/// and the latest entry has the last; with no keys, both are the empty entry.
pub proof fn lemma_in_order_ends<K: TableKey, V>(t: TableModel<K, V>, keys: Seq<K::V>)
    requires
        t.holds_in_order(keys),
    ensures
        keys.len() > 0 ==> t.first().key == Some(keys.first()) && t.last().key == Some(
            keys.last(),
        ),
        keys.len() > 0 ==> t.first().prev is None && t.last().next is None,
        keys.len() == 0 ==> t.first() == crate::node::Entry::<K::V, V>::empty() && t.last()
            == crate::node::Entry::<K::V, V>::empty(),
{
    let order = t.slots_of(keys);
    if keys.len() > 0 {
        assert(t.finds(keys[0]));
        assert(t.finds(keys[keys.len() - 1]));
        lemma_resolved_in_range(t, keys[0]);
        lemma_resolved_in_range(t, keys[keys.len() - 1]);
        assert(order[0] == t.resolved(keys[0]) as usize);
        assert(order[keys.len() - 1] == t.resolved(keys[keys.len() - 1]) as usize);
    }
}

/// Which items are left when one is taken out of a sequence that holds
/// nothing twice, and where they stand.
pub proof fn lemma_without<A>(items: Seq<A>, item: A, other: A)
    requires
        items.no_duplicates(),
    ensures
        without(items, item).contains(other) <==> other != item && items.contains(other),
        without(items, item).no_duplicates(),
        forall|at: int| 0 <= at < items.len() && items[at] == item ==> without(items, item)
            == #[trigger] items.remove(at),
{
    if items.contains(item) {
        let at = items.index_of(item);
        let rest = items.remove(at);
        if rest.contains(other) {
            let j = choose|j: int| 0 <= j < rest.len() && rest[j] == other;
            let k = if j < at { j } else { j + 1 };
            assert(items[k] == other);
        }
        if other != item && items.contains(other) {
            let k = choose|k: int| 0 <= k < items.len() && items[k] == other;
            if k < at {
                assert(rest[k] == other);
            } else {
                assert(rest[k - 1] == other);
            }
        }
        assert forall|a: int, b: int| 0 <= a < rest.len() && 0 <= b < rest.len() && a != b implies rest[a]
            != rest[b] by {
            let ka = if a < at { a } else { a + 1 };
            let kb = if b < at { b } else { b + 1 };
            assert(rest[a] == items[ka] && rest[b] == items[kb]);
        }
    }
}

/// After an insert, the search for each other key in order ends where it
/// ended before.
proof fn lemma_insert_key_lookups<K: TableKey, V>(
    t: TableModel<K, V>,
    keys: Seq<K::V>,
    key: K::V,
    value: V,
)
    requires
        t.valid(),
        t.reachable(),
        t.resolves(key),
        forall|j: int| 0 <= j < keys.len() ==> t.finds(#[trigger] keys[j]),
    ensures
        t.insert(key, value).finds(key),
        t.insert(key, value).resolved(key) == t.resolved(key),
        forall|j: int|
            0 <= j < keys.len() && keys[j] != key ==> t.insert(key, value).finds(
                #[trigger] keys[j],
            ) && t.insert(key, value).resolved(keys[j]) == t.resolved(keys[j]),
{
    let after = t.insert(key, value);
    lemma_resolved_in_range(t, key);
    lemma_get_after_insert(t, key, value);
    crate::lookup_laws::lemma_insert_at_contents(t, t.resolved(key), key, value);
    assert forall|j: int| 0 <= j < keys.len() && keys[j] != key implies after.finds(
        #[trigger] keys[j],
    ) && after.resolved(keys[j]) == t.resolved(keys[j]) by {
        assert(t.finds(keys[j]));
        lemma_resolved_in_range(t, keys[j]);
        assert(t.holds(keys[j]));
        lemma_insert_keeps_lookup(t, key, value, keys[j]);
    }
}

/// An insert of any key puts it behind the other keys in order, whether the
/// table held it or not, and gives it the value; the other keys keep their
/// order.
pub proof fn lemma_insert_key<K: TableKey, V>(
    t: TableModel<K, V>,
    keys: Seq<K::V>,
    key: K::V,
    value: V,
)
    requires
        t.holds_in_order(keys),
        t.resolves(key),
    ensures
        t.insert(key, value).holds_in_order(without(keys, key).push(key)),
        t.insert(key, value).get(key) == Some(value),
{
    let order = t.slots_of(keys);
    let r = t.resolved(key);
    let after = t.insert(key, value);
    let rest = without(keys, key);
    let more = rest.push(key);
    lemma_in_order_keys(t, keys);
    lemma_resolved_in_range(t, key);
    lemma_insert_ordered(t, order, key, value);
    lemma_insert_reachable(t, key, value);
    lemma_get_after_insert(t, key, value);
    lemma_insert_key_lookups(t, keys, key, value);
    let slots = without(order, r as usize);
    assert(slots.len() == rest.len() && forall|j: int|
        0 <= j < rest.len() ==> rest[j] != key && after.finds(#[trigger] rest[j])
            && after.resolved(rest[j]) == slots[j]) by {
        if keys.contains(key) {
            let at = keys.index_of(key);
            assert(t.finds(keys[at]));
            assert(order[at] == r as usize);
            lemma_without(order, r as usize, r as usize);
            assert(slots == order.remove(at));
            assert forall|j: int| 0 <= j < rest.len() implies rest[j] != key && after.finds(
                #[trigger] rest[j],
            ) && after.resolved(rest[j]) == slots[j] by {
                let k = if j < at { j } else { j + 1 };
                assert(rest[j] == keys[k]);
                assert(order[k] == t.resolved(keys[k]) as usize);
                assert(t.finds(keys[k]));
                lemma_resolved_in_range(t, keys[k]);
            }
        } else {
            assert(!t.holds(key));
            lemma_get_absent(t, key);
            if order.contains(r as usize) {
                let j = choose|j: int| 0 <= j < order.len() && order[j] == r as usize;
                assert(t.live(order[j] as int));
            }
            assert forall|j: int| 0 <= j < rest.len() implies rest[j] != key && after.finds(
                #[trigger] rest[j],
            ) && after.resolved(rest[j]) == slots[j] by {
                assert(order[j] == t.resolved(keys[j]) as usize);
                assert(t.finds(keys[j]));
                lemma_resolved_in_range(t, keys[j]);
            }
        }
    }
    assert(after.slots_of(more) =~= slots.push(r as usize));
}

/// After a remove of the key at place `at`, the search for each other key
/// ends where it ended before, if the emptied slot lies on the search path of
/// no other key.
proof fn lemma_remove_key_lookups<K: TableKey, V>(t: TableModel<K, V>, keys: Seq<K::V>, at: int)
    requires
        t.valid(),
        t.reachable(),
        keys.no_duplicates(),
        forall|j: int| 0 <= j < keys.len() ==> t.finds(#[trigger] keys[j]),
        0 <= at < keys.len(),
        !t.shields(t.resolved(keys[at])),
    ensures
        forall|j: int|
            0 <= j < keys.len() && j != at ==> t.remove(keys[at]).finds(#[trigger] keys[j])
                && t.remove(keys[at]).resolved(keys[j]) == t.resolved(keys[j]),
{
    let key = keys[at];
    let r = t.resolved(key);
    let after = t.remove(key);
    assert(t.finds(keys[at]));
    lemma_resolved_in_range(t, key);
    lemma_remove_at_contents(t, r);
    assert forall|j: int| 0 <= j < keys.len() && j != at implies after.finds(#[trigger] keys[j])
        && after.resolved(keys[j]) == t.resolved(keys[j]) by {
        assert(t.finds(keys[j]));
        lemma_resolved_in_range(t, keys[j]);
        let s = t.resolved(keys[j]);
        assert(s != r);
        if t.home(t.slots[s].key->0) <= r < s {
            assert(t.live(s));
            assert(t.shields(r));
        }
        lemma_remove_keeps_lookup(t, key, s);
    }
}

/// After a remove of the key at place `at`, the slots of the other keys are
/// the slots they had, if the emptied slot lies on the search path of no
/// other key.
proof fn lemma_remove_key_slots<K: TableKey, V>(t: TableModel<K, V>, keys: Seq<K::V>, at: int)
    requires
        t.valid(),
        t.reachable(),
        keys.no_duplicates(),
        forall|j: int| 0 <= j < keys.len() ==> t.finds(#[trigger] keys[j]),
        0 <= at < keys.len(),
        !t.shields(t.resolved(keys[at])),
    ensures
        forall|j: int|
            0 <= j < keys.remove(at).len() ==> t.remove(keys[at]).finds(
                #[trigger] keys.remove(at)[j],
            ),
        t.remove(keys[at]).slots_of(keys.remove(at)) == t.slots_of(keys).remove(at),
{
    let after = t.remove(keys[at]);
    let rest = keys.remove(at);
    let order = t.slots_of(keys);
    lemma_remove_key_lookups(t, keys, at);
    assert forall|j: int| 0 <= j < rest.len() implies after.finds(#[trigger] rest[j])
        && after.slots_of(rest)[j] == order.remove(at)[j] by {
        let k = if j < at { j } else { j + 1 };
        assert(rest[j] == keys[k]);
        assert(after.finds(keys[k]));
        assert(after.resolved(keys[k]) == t.resolved(keys[k]));
    }
    assert(after.slots_of(rest) =~= order.remove(at));
}

/// A remove of the key at place `at` of the order takes it out and leaves the
/// other keys in order, if its slot lies on the search path of no other key.
pub proof fn lemma_remove_key<K: TableKey, V>(t: TableModel<K, V>, keys: Seq<K::V>, at: int)
    requires
        t.holds_in_order(keys),
        0 <= at < keys.len(),
        !t.shields(t.resolved(keys[at])),
    ensures
        t.remove(keys[at]).holds_in_order(keys.remove(at)),
        t.remove(keys[at]).get(keys[at]) is None,
{
    let key = keys[at];
    let order = t.slots_of(keys);
    let r = t.resolved(key);
    lemma_in_order_keys(t, keys);
    assert(t.finds(keys[at]));
    lemma_resolved_in_range(t, key);
    lemma_remove_reachable(t, key);
    crate::lookup_laws::lemma_get_after_remove(t, key);
    lemma_remove_ordered(t, order, key);
    assert(without(order, r as usize) == order.remove(at)) by {
        assert(order[at] == r as usize);
        lemma_without(order, r as usize, r as usize);
    }
    lemma_remove_key_slots(t, keys, at);
}

/// A remove of a key that is not among the keys in order changes nothing.
pub proof fn lemma_remove_missing_key<K: TableKey, V>(
    t: TableModel<K, V>,
    keys: Seq<K::V>,
    key: K::V,
)
    requires
        t.holds_in_order(keys),
        t.resolves(key),
        !keys.contains(key),
    ensures
        t.remove(key) == t,
{
    lemma_in_order_keys(t, keys);
    lemma_remove_absent(t, key);
}

/// An insert of the oldest of two keys or more makes it the latest key, and
/// the key that came second becomes the oldest.
pub proof fn lemma_insert_first_key<K: TableKey, V>(
    t: TableModel<K, V>,
    keys: Seq<K::V>,
    value: V,
)
    requires
        t.holds_in_order(keys),
        keys.len() >= 2,
    ensures
        t.insert(keys[0], value).holds_in_order(keys.drop_first().push(keys[0])),
        t.insert(keys[0], value).last().key == Some(keys[0]),
        t.insert(keys[0], value).last().value == Some(value),
        t.insert(keys[0], value).first().key == Some(keys[1]),
{
    let key = keys[0];
    let after = t.insert(key, value);
    let turned = keys.drop_first().push(key);
    lemma_in_order_keys(t, keys);
    assert(t.finds(keys[0]));
    lemma_without(keys, key, key);
    assert(keys.remove(0) =~= keys.drop_first());
    lemma_insert_key(t, keys, key, value);
    lemma_in_order_ends(after, turned);
    assert(turned[0] == keys[1]);
    lemma_resolved_in_range(after, key);
}

/// Distinct keys inserted one after the other into a table of empty slots,
/// each insert finding a slot: the table holds them in the order of the
/// inserts, so the oldest entry has the first key and the latest entry has the
/// last, and a lookup of each key gives its value.
pub proof fn lemma_inserts_in_order<K: TableKey, V>(
    capacity: nat,
    keys: Seq<K::V>,
    values: Seq<V>,
)
    requires
        0 < capacity <= usize::MAX,
        keys.len() == values.len(),
        keys.no_duplicates(),
        TableModel::<K, V>::empty(capacity).all_resolve(keys, values),
    ensures
        TableModel::<K, V>::empty(capacity).insert_all(keys, values).holds_in_order(keys),
        keys.len() > 0 ==> {
            &&& TableModel::<K, V>::empty(capacity).insert_all(keys, values).first().key == Some(
                keys.first(),
            )
            &&& TableModel::<K, V>::empty(capacity).insert_all(keys, values).last().key == Some(
                keys.last(),
            )
        },
        forall|j: int|
            0 <= j < keys.len() ==> TableModel::<K, V>::empty(capacity).insert_all(
                keys,
                values,
            ).get(#[trigger] keys[j]) == Some(values[j]),
    decreases keys.len(),
{
    let start = TableModel::<K, V>::empty(capacity);
    let done = start.insert_all(keys, values);
    if keys.len() == 0 {
        lemma_empty_in_order::<K, V>(capacity);
        assert(keys =~= Seq::empty());
    } else {
        let n = keys.len() as int;
        let head = keys.drop_last();
        let key = keys.last();
        let value = values.last();
        let before = start.insert_all(head, values.drop_last());
        lemma_inserts_in_order::<K, V>(capacity, head, values.drop_last());
        assert(!head.contains(key)) by {
            if head.contains(key) {
                let j = choose|j: int| 0 <= j < head.len() && head[j] == key;
                assert(keys[j] == keys[n - 1]);
            }
        }
        lemma_insert_key(before, head, key, value);
        assert(head.push(key) =~= keys);
        lemma_in_order_ends(done, keys);
        lemma_in_order_keys(before, head);
        lemma_get_after_insert(before, key, value);
        assert forall|j: int| 0 <= j < n implies done.get(#[trigger] keys[j]) == Some(
            values[j],
        ) by {
            if j < n - 1 {
                assert(head[j] == keys[j]);
                assert(values.drop_last()[j] == values[j]);
                assert(before.finds(head[j]));
                lemma_resolved_in_range(before, head[j]);
                assert(before.holds(head[j]));
                lemma_insert_keeps_lookup(before, key, value, head[j]);
            }
        }
    }
}

/// After such inserts of two keys or more, an insert of the first key with a
/// new value makes it the latest entry, and the second key becomes the oldest.
pub proof fn lemma_touch_first<K: TableKey, V>(
    capacity: nat,
    keys: Seq<K::V>,
    values: Seq<V>,
    value: V,
)
    requires
        0 < capacity <= usize::MAX,
        keys.len() == values.len(),
        keys.len() >= 2,
        keys.no_duplicates(),
        TableModel::<K, V>::empty(capacity).all_resolve(keys, values),
    ensures
        TableModel::<K, V>::empty(capacity).insert_all(keys, values).resolves(keys[0]),
        TableModel::<K, V>::empty(capacity).insert_all(keys, values).insert(
            keys[0],
            value,
        ).holds_in_order(keys.drop_first().push(keys[0])),
        TableModel::<K, V>::empty(capacity).insert_all(keys, values).insert(
            keys[0],
            value,
        ).last().key == Some(keys[0]),
        TableModel::<K, V>::empty(capacity).insert_all(keys, values).insert(
            keys[0],
            value,
        ).last().value == Some(value),
        TableModel::<K, V>::empty(capacity).insert_all(keys, values).insert(
            keys[0],
            value,
        ).first().key == Some(keys[1]),
{
    let t = TableModel::<K, V>::empty(capacity).insert_all(keys, values);
    lemma_inserts_in_order::<K, V>(capacity, keys, values);
    assert(t.finds(keys[0]));
    lemma_insert_first_key(t, keys, value);
}

/// In a table that holds `keys` in order there are as many live slots as
/// keys; with `n` of them, `n - 1` steps along `next` lead from the oldest
/// slot to the latest, and `n - 1` steps along `prev` lead back.
pub proof fn lemma_in_order_walk<K: TableKey, V>(t: TableModel<K, V>, keys: Seq<K::V>)
    requires
        t.holds_in_order(keys),
    ensures
        t.live_slots().len() == keys.len(),
        t.oldest is None <==> keys.len() == 0,
        t.latest is None <==> keys.len() == 0,
        keys.len() > 0 ==> {
            &&& t.follow_next(t.oldest, (keys.len() - 1) as nat) == t.latest
            &&& t.follow_prev(t.latest, (keys.len() - 1) as nat) == t.oldest
        },
{
    crate::order_laws::lemma_chain_count(t, t.slots_of(keys));
    lemma_chain_consistent(t, t.slots_of(keys));
}

/// In a table whose keys are all findable, an empty slot lies on the search
/// path of no key.
pub proof fn lemma_empty_slot_shields_nothing<K: TableKey, V>(t: TableModel<K, V>, r: int)
    requires
        t.reachable(),
        0 <= r < t.slots.len(),
        !t.live(r),
    ensures
        !t.shields(r),
{
    if t.shields(r) {
        let s = choose|s: int| #[trigger] t.live(s) && t.home(t.slots[s].key->0) <= r < s;
        let k = t.slots[s].key->0;
        crate::lookup_laws::lemma_home_in_range(t, k);
        crate::lookup_laws::lemma_probe_ends(t, t.home(k), k);
        assert(!t.stops_at(r, k));
    }
}

/// One step that the table admits: the table holds the keys in order after it
/// as it did before, an insert putting its key last and a remove taking its
/// key out; the lookup of every other key stays as it was.
pub proof fn lemma_step_in_order<K: TableKey, V>(
    t: TableModel<K, V>,
    keys: Seq<K::V>,
    step: Step<K::V, V>,
)
    requires
        t.holds_in_order(keys),
        t.admits(step),
    ensures
        step matches Step::Insert { key, value } ==> t.step(step).holds_in_order(
            without(keys, key).push(key),
        ) && t.step(step).get(key) == Some(value),
        step matches Step::Remove { key } ==> t.step(step).holds_in_order(without(keys, key))
            && t.step(step).get(key) is None,
        forall|other: K::V|
            other != step.key() && #[trigger] keys.contains(other) ==> t.step(step).get(other)
                == t.get(other),
{
    lemma_in_order_keys(t, keys);
    match step {
        Step::Insert { key, value } => {
            lemma_insert_key(t, keys, key, value);
            assert forall|other: K::V| other != key && #[trigger] keys.contains(other) implies t.insert(
                key,
                value,
            ).get(other) == t.get(other) by {
                lemma_insert_keeps_lookup(t, key, value, other);
            }
        },
        Step::Remove { key } => {
            crate::lookup_laws::lemma_get_after_remove(t, key);
            if keys.contains(key) {
                let at = keys.index_of(key);
                lemma_remove_key(t, keys, at);
                assert forall|other: K::V|
                    other != key && #[trigger] keys.contains(other) implies t.remove(key).get(other)
                    == t.get(other) by {
                    let j = choose|j: int| 0 <= j < keys.len() && keys[j] == other;
                    assert(t.finds(keys[j]));
                    lemma_resolved_in_range(t, other);
                    let s = t.resolved(other);
                    if t.home(t.slots[s].key->0) <= t.resolved(key) < s {
                        assert(t.live(s));
                        assert(t.shields(t.resolved(key)));
                    }
                    lemma_remove_keeps_lookup(t, key, s);
                }
            } else {
                lemma_remove_missing_key(t, keys, key);
            }
        },
    }
}

/// Any run of steps from a table of empty slots, each step admitted at its
/// turn, leaves a table that holds in order the keys that are left, each with
/// the value most recently inserted for it; a key that is not left is absent.
/// So the links form one chain: with `n` live slots, `n - 1` steps along `next`
/// lead from the oldest slot to the latest and `n - 1` steps along `prev` lead
/// back, and with none the table has neither end.
pub proof fn lemma_run_in_order<K: TableKey, V>(capacity: nat, steps: Seq<Step<K::V, V>>)
    requires
        0 < capacity <= usize::MAX,
        TableModel::<K, V>::empty(capacity).admits_all(steps),
    ensures
        TableModel::<K, V>::empty(capacity).run(steps).holds_in_order(keys_after(steps)),
        forall|key: K::V|
            #[trigger] values_after(steps).dom().contains(key) <==> keys_after(steps).contains(key),
        forall|key: K::V| #[trigger]
            keys_after(steps).contains(key) ==> TableModel::<K, V>::empty(capacity).run(steps).get(
                key,
            ) == Some(values_after(steps)[key]),
        forall|key: K::V|
            !keys_after(steps).contains(key) && #[trigger] TableModel::<K, V>::empty(capacity).run(
                steps,
            ).resolves(key) ==> TableModel::<K, V>::empty(capacity).run(steps).get(key) is None,
        TableModel::<K, V>::empty(capacity).run(steps).live_slots().len() == keys_after(steps).len(),
        keys_after(steps).len() == 0 ==> {
            &&& TableModel::<K, V>::empty(capacity).run(steps).oldest is None
            &&& TableModel::<K, V>::empty(capacity).run(steps).latest is None
        },
        keys_after(steps).len() > 0 ==> {
            &&& TableModel::<K, V>::empty(capacity).run(steps).follow_next(
                TableModel::<K, V>::empty(capacity).run(steps).oldest,
                (keys_after(steps).len() - 1) as nat,
            ) == TableModel::<K, V>::empty(capacity).run(steps).latest
            &&& TableModel::<K, V>::empty(capacity).run(steps).follow_prev(
                TableModel::<K, V>::empty(capacity).run(steps).latest,
                (keys_after(steps).len() - 1) as nat,
            ) == TableModel::<K, V>::empty(capacity).run(steps).oldest
        },
    decreases steps.len(),
{
    let start = TableModel::<K, V>::empty(capacity);
    let done = start.run(steps);
    if steps.len() == 0 {
        lemma_empty_in_order::<K, V>(capacity);
    } else {
        let before = start.run(steps.drop_last());
        let keys = keys_after(steps.drop_last());
        let step = steps.last();
        lemma_run_in_order::<K, V>(capacity, steps.drop_last());
        lemma_in_order_keys(before, keys);
        lemma_step_in_order(before, keys, step);
        let now = keys_after(steps);
        assert forall|key: K::V| #[trigger]
            values_after(steps).dom().contains(key) <==> now.contains(key) by {
            lemma_without(keys, step.key(), key);
            if step is Insert {
                let grown = without(keys, step.key()).push(step.key());
                assert(grown[grown.len() - 1] == step.key());
                if without(keys, step.key()).contains(key) {
                    let j = choose|j: int|
                        0 <= j < without(keys, step.key()).len() && without(keys, step.key())[j]
                            == key;
                    assert(grown[j] == key);
                }
            }
        }
        assert forall|key: K::V| #[trigger] now.contains(key) implies done.get(key) == Some(
            values_after(steps)[key],
        ) by {
            if key != step.key() {
                assert(values_after(steps).dom().contains(key));
                assert(keys.contains(key));
            }
        }
    }
    lemma_in_order_keys(done, keys_after(steps));
    lemma_in_order_walk(done, keys_after(steps));
    assert forall|key: K::V|
        !keys_after(steps).contains(key) && #[trigger] done.resolves(key) implies done.get(key)
        is None by {
        assert(!done.holds(key));
        lemma_get_absent(done, key);
    }
}

} // verus!
