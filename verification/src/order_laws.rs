//! What holds of the order of recency: how an insert or a remove changes the
//! chain of links, and when the chain stays whole.

use crate::key::TableKey;
use crate::lookup_laws::lemma_home_in_range;
use crate::lookup_laws::lemma_probe_ends;
use crate::model::without;
use crate::model::Step;
use crate::model::TableModel;
use vstd::prelude::*;

verus! {

/// A table of empty slots has the empty order.
pub proof fn lemma_empty_ordered<K: TableKey, V>(capacity: nat)
    ensures
        TableModel::<K, V>::empty(capacity).ordered(Seq::empty()),
{
}

/// To put an empty slot at the latest end of the order keeps the table valid
/// and leaves the rest of the order as it was.
pub proof fn lemma_append_ordered<K: TableKey, V>(
    t: TableModel<K, V>,
    order: Seq<usize>,
    r: int,
    key: K::V,
    value: V,
)
    requires
        t.valid(),
        0 <= r < t.slots.len(),
        !t.live(r),
        t.ordered(order),
    ensures
        t.append_at(r, key, value).valid(),
        t.append_at(r, key, value).ordered(order.push(r as usize)),
{
    let after = t.append_at(r, key, value);
    let grown = order.push(r as usize);
    assert(!order.contains(r as usize)) by {
        if order.contains(r as usize) {
            let j = choose|j: int| 0 <= j < order.len() && order[j] == r as usize;
            assert(t.live(order[j] as int));
        }
    }
    assert forall|j: int| 0 <= j < grown.len() implies after.live(#[trigger] grown[j] as int) by {
        if j < order.len() {
            assert(t.live(order[j] as int));
        }
    }
    assert forall|i: int| #[trigger] after.live(i) implies grown.contains(i as usize) by {
        if i == r {
            assert(grown[order.len() as int] == r as usize);
        } else {
            assert(t.live(i));
            let j = choose|j: int| 0 <= j < order.len() && order[j] == i as usize;
            assert(grown[j] == i as usize);
        }
    }
    assert forall|j: int| 0 <= j < grown.len() - 1 implies after.slots[#[trigger] grown[j] as int].next
        == Some(grown[j + 1]) by {
        assert(t.live(order[j] as int));
    }
    assert forall|j: int| 0 < j < grown.len() implies after.slots[#[trigger] grown[j] as int].prev
        == Some(grown[j - 1]) by {
        if j < order.len() {
            assert(t.live(order[j] as int));
        }
    }
    if order.len() > 0 {
        assert(t.live(order[0] as int));
        assert(t.live(order[order.len() - 1] as int));
    }
}

/// To write a key and a value to the latest slot keeps the table valid and
/// leaves the order as it was.
pub proof fn lemma_update_latest_ordered<K: TableKey, V>(
    t: TableModel<K, V>,
    order: Seq<usize>,
    r: int,
    key: K::V,
    value: V,
)
    requires
        t.valid(),
        0 <= r < t.slots.len(),
        t.latest == Some(r as usize),
        t.ordered(order),
    ensures
        t.insert_at(r, key, value).valid(),
        t.insert_at(r, key, value).ordered(order),
{
    let after = t.insert_at(r, key, value);
    let n = order.len() as int;
    assert(order[n - 1] == r as usize);
    assert forall|j: int| 0 <= j < n implies after.live(#[trigger] order[j] as int) by {
        assert(t.live(order[j] as int));
    }
    assert forall|i: int| #[trigger] after.live(i) implies order.contains(i as usize) by {
        if i != r {
            assert(t.live(i));
        }
    }
    assert forall|j: int| 0 <= j < n - 1 implies after.slots[#[trigger] order[j] as int].next
        == Some(order[j + 1]) by {
        assert(t.live(order[j] as int));
    }
    assert forall|j: int| 0 < j < n implies after.slots[#[trigger] order[j] as int].prev == Some(
        order[j - 1],
    ) by {
        assert(t.live(order[j] as int));
    }
    assert(t.live(order[0] as int));
}

/// What a remove at a live slot `r` does to each slot: `r` becomes empty, the
/// slot that `r` names as its `prev` gets the `next` of `r`, the slot that `r`
/// names as its `next` gets the `prev` of `r`, and nothing else changes.
pub proof fn lemma_remove_at_links<K: TableKey, V>(t: TableModel<K, V>, r: int)
    requires
        t.valid(),
        t.live(r),
    ensures
        t.remove_at(r).slots.len() == t.slots.len(),
        !t.remove_at(r).live(r),
        t.remove_at(r).oldest == if t.oldest == Some(r as usize) {
            t.slots[r].next
        } else {
            t.oldest
        },
        t.remove_at(r).latest == if t.latest == Some(r as usize) {
            t.slots[r].prev
        } else {
            t.latest
        },
        forall|i: int|
            0 <= i < t.slots.len() && i != r ==> {
                &&& (#[trigger] t.remove_at(r).slots[i]).key == t.slots[i].key
                &&& t.remove_at(r).slots[i].next == if t.slots[r].prev == Some(i as usize) {
                    t.slots[r].next
                } else {
                    t.slots[i].next
                }
                &&& t.remove_at(r).slots[i].prev == if t.slots[r].next == Some(i as usize) {
                    t.slots[r].prev
                } else {
                    t.slots[i].prev
                }
            },
{
}

/// The chain that is left when the slot at place `at` of the order is
/// unlinked as a remove does it; `rest` is the order without that place.
proof fn lemma_unlinked_chain<K: TableKey, V>(
    t: TableModel<K, V>,
    after: TableModel<K, V>,
    order: Seq<usize>,
    rest: Seq<usize>,
    at: int,
)
    requires
        t.slots.len() <= usize::MAX,
        t.chain(order),
        0 <= at < order.len(),
        rest.len() == order.len() - 1,
        forall|j: int| 0 <= j < at ==> #[trigger] rest[j] == order[j],
        forall|j: int| at <= j < rest.len() ==> #[trigger] rest[j] == order[j + 1],
        at == 0 ==> t.slots[order[at] as int].prev is None,
        at == order.len() - 1 ==> t.slots[order[at] as int].next is None,
        after.slots.len() == t.slots.len(),
        !after.live(order[at] as int),
        after.oldest == if t.oldest == Some(order[at]) {
            t.slots[order[at] as int].next
        } else {
            t.oldest
        },
        after.latest == if t.latest == Some(order[at]) {
            t.slots[order[at] as int].prev
        } else {
            t.latest
        },
        forall|i: int|
            0 <= i < t.slots.len() && i != order[at] ==> {
                &&& (#[trigger] after.slots[i]).key == t.slots[i].key
                &&& after.slots[i].next == if t.slots[order[at] as int].prev == Some(i as usize) {
                    t.slots[order[at] as int].next
                } else {
                    t.slots[i].next
                }
                &&& after.slots[i].prev == if t.slots[order[at] as int].next == Some(i as usize) {
                    t.slots[order[at] as int].prev
                } else {
                    t.slots[i].prev
                }
            },
    ensures
        after.chain(rest),
        t.sealed() ==> after.sealed(),
{
    let r = order[at];
    let n = order.len() as int;
    let e = t.slots[r as int];
    assert(t.live(order[at] as int));
    assert(e.prev == if at == 0 { None } else { Some(order[at - 1]) });
    assert(e.next == if at == n - 1 { None } else { Some(order[at + 1]) });
    assert forall|j: int| 0 <= j < n - 1 implies {
        &&& after.live(#[trigger] rest[j] as int)
        &&& rest[j] != r
        &&& t.live(rest[j] as int)
    } by {
        if j < at {
            assert(t.live(order[j] as int));
        } else {
            assert(t.live(order[j + 1] as int));
        }
    }
    assert(rest.no_duplicates()) by {
        assert forall|a: int, b: int| 0 <= a < n - 1 && 0 <= b < n - 1 && a != b implies rest[a]
            != rest[b] by {
            let ka = if a < at { a } else { a + 1 };
            let kb = if b < at { b } else { b + 1 };
            assert(rest[a] == order[ka] && rest[b] == order[kb]);
        }
    }
    assert forall|i: int| #[trigger] after.live(i) implies rest.contains(i as usize) by {
        assert(i != r);
        assert(t.live(i));
        let j = choose|j: int| 0 <= j < n && order[j] == i as usize;
        if j < at {
            assert(rest[j] == i as usize);
        } else {
            assert(rest[j - 1] == i as usize);
        }
    }
    assert forall|j: int| 0 <= j < n - 2 implies after.slots[#[trigger] rest[j] as int].next
        == Some(rest[j + 1]) by {
        assert(after.live(rest[j] as int));
        if j + 1 < at {
            assert(rest[j] == order[j] && rest[j + 1] == order[j + 1]);
            assert(e.prev != Some(rest[j]));
        } else if j + 1 == at {
            assert(rest[j] == order[j] && rest[j + 1] == order[j + 2]);
            assert(e.prev == Some(rest[j]));
        } else {
            assert(rest[j] == order[j + 1] && rest[j + 1] == order[j + 2]);
            assert(e.prev != Some(rest[j]));
        }
    }
    assert forall|j: int| 0 < j < n - 1 implies after.slots[#[trigger] rest[j] as int].prev
        == Some(rest[j - 1]) by {
        assert(after.live(rest[j] as int));
        if j < at {
            assert(rest[j] == order[j] && rest[j - 1] == order[j - 1]);
            assert(e.next != Some(rest[j]));
        } else if j == at {
            assert(rest[j] == order[j + 1] && rest[j - 1] == order[j - 1]);
            assert(e.next == Some(rest[j]));
        } else {
            assert(rest[j] == order[j + 1] && rest[j - 1] == order[j]);
            assert(e.next != Some(rest[j]));
        }
    }
    if n >= 2 {
        assert(after.live(rest[0] as int));
        assert(after.live(rest[n - 2] as int));
        assert(rest[0] == order[if at == 0 { 1int } else { 0int }]);
        assert(rest[n - 2] == order[if at == n - 1 { n - 2 } else { n - 1 }]);
        assert(t.live(order[0] as int));
        assert(t.live(order[n - 1] as int));
    }
}

/// To take a live slot out of the order and empty it keeps the table valid.
pub proof fn lemma_remove_at_valid<K: TableKey, V>(t: TableModel<K, V>, r: int)
    requires
        t.valid(),
        0 <= r < t.slots.len(),
    ensures
        t.remove_at(r).valid(),
        t.remove_at(r).slots.len() == t.slots.len(),
        !t.remove_at(r).live(r),
{
}

/// To take the slot at place `at` of the order out of it leaves the rest of
/// the order as it was.
proof fn lemma_remove_at_place<K: TableKey, V>(
    t: TableModel<K, V>,
    order: Seq<usize>,
    at: int,
)
    requires
        t.valid(),
        t.ordered(order),
        0 <= at < order.len(),
    ensures
        t.remove_at(order[at] as int).ordered(order.remove(at)),
{
    let r = order[at] as int;
    let n = order.len() as int;
    assert(t.live(order[at] as int));
    assert(at == 0 ==> t.slots[r].prev is None);
    assert(at == n - 1 ==> t.slots[r].next is None);
    lemma_remove_at_links(t, r);
    lemma_unlinked_chain(t, t.remove_at(r), order, order.remove(at), at);
}

/// To take slot `r` out of the order and empty it keeps the table valid and
/// leaves the rest of the order as it was; an empty slot `r` is in no order,
/// and nothing changes.
pub proof fn lemma_remove_at_ordered<K: TableKey, V>(
    t: TableModel<K, V>,
    order: Seq<usize>,
    r: int,
)
    requires
        t.valid(),
        0 <= r < t.slots.len(),
        t.ordered(order),
    ensures
        t.remove_at(r).valid(),
        t.remove_at(r).ordered(without(order, r as usize)),
        t.remove_at(r).slots.len() == t.slots.len(),
        !t.remove_at(r).live(r),
{
    lemma_remove_at_valid(t, r);
    if order.contains(r as usize) {
        let at = order.index_of(r as usize);
        lemma_remove_at_place(t, order, at);
    } else {
        assert(!t.live(r));
    }
}

/// An insert at slot `r` keeps the table valid, and puts `r` at the latest
/// end of the order, whether the slot was empty, the latest already or
/// anywhere else in the order; the other slots stay in their order.
pub proof fn lemma_insert_at_ordered<K: TableKey, V>(
    t: TableModel<K, V>,
    order: Seq<usize>,
    r: int,
    key: K::V,
    value: V,
)
    requires
        t.valid(),
        0 <= r < t.slots.len(),
        t.ordered(order),
    ensures
        t.insert_at(r, key, value).valid(),
        t.insert_at(r, key, value).ordered(without(order, r as usize).push(r as usize)),
{
    if t.latest == Some(r as usize) {
        let n = order.len() as int;
        assert(order[n - 1] == r as usize);
        assert(order.contains(r as usize));
        assert(order.index_of(r as usize) == n - 1);
        assert(order.remove(n - 1).push(r as usize) =~= order);
        lemma_update_latest_ordered(t, order, r, key, value);
    } else {
        lemma_remove_at_ordered(t, order, r);
        lemma_append_ordered(t.remove_at(r), without(order, r as usize), r, key, value);
    }
}

/// An insert keeps the links one closed chain: the slot of the key comes to
/// the latest end of the order, and the other slots stay in their order.
pub proof fn lemma_insert_ordered<K: TableKey, V>(
    t: TableModel<K, V>,
    order: Seq<usize>,
    key: K::V,
    value: V,
)
    requires
        t.valid(),
        t.resolves(key),
        t.ordered(order),
    ensures
        t.insert(key, value).valid(),
        t.insert(key, value).ordered(
            without(order, t.resolved(key) as usize).push(t.resolved(key) as usize),
        ),
{
    lemma_home_in_range(t, key);
    lemma_probe_ends(t, t.home(key), key);
    lemma_insert_at_ordered(t, order, t.resolved(key), key, value);
}

/// A remove keeps the links one closed chain: the slot of the key leaves the
/// order, and the other slots stay in their order.
pub proof fn lemma_remove_ordered<K: TableKey, V>(t: TableModel<K, V>, order: Seq<usize>, key: K::V)
    requires
        t.valid(),
        t.resolves(key),
        t.ordered(order),
    ensures
        t.remove(key).valid(),
        t.remove(key).ordered(without(order, t.resolved(key) as usize)),
{
    lemma_home_in_range(t, key);
    lemma_probe_ends(t, t.home(key), key);
    lemma_remove_at_ordered(t, order, t.resolved(key));
}

/// What an insert keeps and gives, for a valid table whose links form one
/// closed chain: such a table again, with the key and the value in the latest
/// entry, and every order of the old chain turned into one of the new.
pub proof fn lemma_insert_linked<K: TableKey, V>(t: TableModel<K, V>, key: K::V, value: V)
    requires
        t.valid(),
        t.linked(),
        t.resolves(key),
    ensures
        0 <= t.resolved(key) < t.slots.len(),
        t.insert(key, value).valid(),
        t.insert(key, value).linked(),
        t.insert(key, value).last().key == Some(key),
        t.insert(key, value).last().value == Some(value),
        t.insert(key, value).last().next is None,
        forall|order: Seq<usize>|
            t.ordered(order) ==> #[trigger] t.insert(key, value).ordered(
                without(order, t.resolved(key) as usize).push(t.resolved(key) as usize),
            ),
{
    lemma_home_in_range(t, key);
    lemma_probe_ends(t, t.home(key), key);
    lemma_remove_at_valid(t, t.resolved(key));
    assert forall|order: Seq<usize>| t.ordered(order) implies #[trigger] t.insert(
        key,
        value,
    ).ordered(without(order, t.resolved(key) as usize).push(t.resolved(key) as usize)) by {
        lemma_insert_ordered(t, order, key, value);
    }
    let order = choose|order: Seq<usize>| t.ordered(order);
    lemma_insert_ordered(t, order, key, value);
}

/// What a remove keeps, for a valid table whose links form one closed chain:
/// such a table again, and every order of the old chain turned into one of the
/// new.
pub proof fn lemma_remove_linked<K: TableKey, V>(t: TableModel<K, V>, key: K::V)
    requires
        t.valid(),
        t.linked(),
        t.resolves(key),
    ensures
        0 <= t.resolved(key) < t.slots.len(),
        t.remove(key).valid(),
        t.remove(key).linked(),
        forall|order: Seq<usize>|
            t.ordered(order) ==> #[trigger] t.remove(key).ordered(
                without(order, t.resolved(key) as usize),
            ),
{
    lemma_home_in_range(t, key);
    lemma_probe_ends(t, t.home(key), key);
    assert forall|order: Seq<usize>| t.ordered(order) implies #[trigger] t.remove(key).ordered(
        without(order, t.resolved(key) as usize),
    ) by {
        lemma_remove_ordered(t, order, key);
    }
    let order = choose|order: Seq<usize>| t.ordered(order);
    lemma_remove_ordered(t, order, key);
}

/// The live slots below `n`, listed by index: each live slot below `n` once,
/// in rising order, and nothing else.
pub proof fn lemma_live_below<K: TableKey, V>(t: TableModel<K, V>, n: int)
    requires
        0 <= n <= t.slots.len() <= usize::MAX,
    ensures
        forall|j: int|
            0 <= j < t.live_below(n).len() ==> (#[trigger] t.live_below(n)[j]) < n && t.live(
                t.live_below(n)[j] as int,
            ),
        forall|i: int| 0 <= i < n && #[trigger] t.live(i) ==> t.live_below(n).contains(i as usize),
        forall|a: int, b: int|
            0 <= a < b < t.live_below(n).len() ==> (#[trigger] t.live_below(n)[a]) < (
            #[trigger] t.live_below(n)[b]),
        t.live_below(n).no_duplicates(),
    decreases n,
{
    if n > 0 {
        lemma_live_below(t, n - 1);
        let before = t.live_below(n - 1);
        let now = t.live_below(n);
        if t.slots[n - 1].is_live() {
            assert(now == before.push((n - 1) as usize));
            assert forall|i: int| 0 <= i < n && #[trigger] t.live(i) implies now.contains(
                i as usize,
            ) by {
                if i == n - 1 {
                    assert(now[before.len() as int] == i as usize);
                } else {
                    assert(before.contains(i as usize));
                    let j = choose|j: int| 0 <= j < before.len() && before[j] == i as usize;
                    assert(now[j] == i as usize);
                }
            }
        }
    }
}

/// A chain has as many places as the table has live slots.
pub proof fn lemma_chain_count<K: TableKey, V>(t: TableModel<K, V>, order: Seq<usize>)
    requires
        t.slots.len() <= usize::MAX,
        t.chain(order),
    ensures
        order.len() == t.live_slots().len(),
{
    let live = t.live_slots();
    lemma_live_below(t, t.slots.len() as int);
    assert forall|x: usize| order.contains(x) <==> live.contains(x) by {
        if order.contains(x) {
            let j = choose|j: int| 0 <= j < order.len() && order[j] == x;
            assert(t.live(order[j] as int));
        }
        if live.contains(x) {
            let j = choose|j: int| 0 <= j < live.len() && live[j] == x;
            assert(t.live(live[j] as int));
        }
    }
    assert(order.to_set() =~= live.to_set());
    order.unique_seq_to_set();
    live.unique_seq_to_set();
}

/// In a chain, `steps` steps along `next` lead from place `from` of the order
/// to place `from + steps`.
pub proof fn lemma_chain_forward<K: TableKey, V>(
    t: TableModel<K, V>,
    order: Seq<usize>,
    from: int,
    steps: nat,
)
    requires
        t.chain(order),
        0 <= from,
        from + steps < order.len(),
    ensures
        t.follow_next(Some(order[from]), steps) == Some(order[from + steps]),
    decreases steps,
{
    if steps > 0 {
        assert(t.live(order[from] as int));
        lemma_chain_forward(t, order, from + 1, (steps - 1) as nat);
    }
}

/// In a chain, `steps` steps along `prev` lead from place `from` of the order
/// to place `from - steps`.
pub proof fn lemma_chain_backward<K: TableKey, V>(
    t: TableModel<K, V>,
    order: Seq<usize>,
    from: int,
    steps: nat,
)
    requires
        t.chain(order),
        0 <= from - steps,
        from < order.len(),
    ensures
        t.follow_prev(Some(order[from]), steps) == Some(order[from - steps]),
    decreases steps,
{
    if steps > 0 {
        assert(t.live(order[from] as int));
        lemma_chain_backward(t, order, from - 1, (steps - 1) as nat);
    }
}

/// Where the links form a chain, the table has both ends or neither; and with
/// `n` live slots, `n - 1` steps along `next` lead from the oldest slot to the
/// latest, and `n - 1` steps along `prev` lead from the latest to the oldest.
pub proof fn lemma_chain_consistent<K: TableKey, V>(t: TableModel<K, V>, order: Seq<usize>)
    requires
        t.slots.len() <= usize::MAX,
        t.chain(order),
    ensures
        t.oldest is None <==> t.latest is None,
        t.oldest is None <==> t.live_slots().len() == 0,
        t.live_slots().len() > 0 ==> {
            &&& t.follow_next(t.oldest, (t.live_slots().len() - 1) as nat) == t.latest
            &&& t.follow_prev(t.latest, (t.live_slots().len() - 1) as nat) == t.oldest
        },
{
    lemma_chain_count(t, order);
    if order.len() > 0 {
        let n = order.len();
        lemma_chain_forward(t, order, 0, (n - 1) as nat);
        lemma_chain_backward(t, order, n - 1, (n - 1) as nat);
    }
}

/// Where the links form one closed chain, in whatever order: the table has
/// both ends or neither, and with `n` live slots, `n - 1` steps along `next`
/// lead from the oldest slot to the latest, and `n - 1` steps along `prev`
/// lead from the latest to the oldest.
pub proof fn lemma_linked_walks<K: TableKey, V>(t: TableModel<K, V>)
    requires
        t.valid(),
        t.linked(),
    ensures
        t.oldest is None <==> t.latest is None,
        t.oldest is None <==> t.live_slots().len() == 0,
        t.live_slots().len() > 0 ==> {
            &&& t.follow_next(t.oldest, (t.live_slots().len() - 1) as nat) == t.latest
            &&& t.follow_prev(t.latest, (t.live_slots().len() - 1) as nat) == t.oldest
            &&& t.first().prev is None
            &&& t.last().next is None
        },
{
    let order = choose|order: Seq<usize>| t.ordered(order);
    lemma_chain_consistent(t, order);
}

/// Any run of inserts and removes from a table of empty slots, the search of
/// each step ending inside the array: the table stays valid and its links
/// form one closed chain over the live slots, in the order in which the steps
/// left them. So with `n` live slots, `n - 1` steps along `next` lead from the
/// oldest slot to the latest and `n - 1` steps along `prev` lead back, and
/// with none the table has neither end.
pub proof fn lemma_run_ordered<K: TableKey, V>(capacity: nat, steps: Seq<Step<K::V, V>>)
    requires
        capacity <= usize::MAX,
        TableModel::<K, V>::empty(capacity).resolves_all(steps),
    ensures
        TableModel::<K, V>::empty(capacity).run(steps).valid(),
        TableModel::<K, V>::empty(capacity).run(steps).ordered(
            TableModel::<K, V>::empty(capacity).order_after(steps),
        ),
        TableModel::<K, V>::empty(capacity).order_after(steps).len() == TableModel::<
            K,
            V,
        >::empty(capacity).run(steps).live_slots().len(),
        TableModel::<K, V>::empty(capacity).run(steps).oldest is None <==> TableModel::<
            K,
            V,
        >::empty(capacity).run(steps).live_slots().len() == 0,
        TableModel::<K, V>::empty(capacity).run(steps).latest is None <==> TableModel::<
            K,
            V,
        >::empty(capacity).run(steps).live_slots().len() == 0,
        TableModel::<K, V>::empty(capacity).run(steps).live_slots().len() > 0 ==> {
            &&& TableModel::<K, V>::empty(capacity).run(steps).follow_next(
                TableModel::<K, V>::empty(capacity).run(steps).oldest,
                (TableModel::<K, V>::empty(capacity).run(steps).live_slots().len() - 1) as nat,
            ) == TableModel::<K, V>::empty(capacity).run(steps).latest
            &&& TableModel::<K, V>::empty(capacity).run(steps).follow_prev(
                TableModel::<K, V>::empty(capacity).run(steps).latest,
                (TableModel::<K, V>::empty(capacity).run(steps).live_slots().len() - 1) as nat,
            ) == TableModel::<K, V>::empty(capacity).run(steps).oldest
        },
    decreases steps.len(),
{
    let start = TableModel::<K, V>::empty(capacity);
    let done = start.run(steps);
    if steps.len() == 0 {
        lemma_empty_ordered::<K, V>(capacity);
    } else {
        let before = start.run(steps.drop_last());
        let order = start.order_after(steps.drop_last());
        lemma_run_ordered::<K, V>(capacity, steps.drop_last());
        match steps.last() {
            Step::Insert { key, value } => {
                lemma_insert_ordered(before, order, key, value);
            },
            Step::Remove { key } => {
                lemma_remove_ordered(before, order, key);
            },
        }
    }
    lemma_chain_count(done, start.order_after(steps));
    lemma_chain_consistent(done, start.order_after(steps));
}

} // verus!
