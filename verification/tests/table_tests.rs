use recency_map::HashMap;
use recency_map::HashNode;
use recency_map::ProbeExhausted;
use recency_map::TableKey;
use std::collections::hash_map::DefaultHasher;
use std::hash::Hash;
use std::hash::Hasher;

fn home_of(key: i32, capacity: usize) -> usize {
    key.hash_value() as usize % capacity
}

/// The first `count` keys from 0 on whose home slots in a table of `capacity`
/// slots are all different.
fn keys_with_distinct_homes(count: usize, capacity: usize) -> Vec<i32> {
    let mut taken = vec![false; capacity];
    let mut keys = Vec::new();
    let mut key = 0;
    while keys.len() < count {
        let home = home_of(key, capacity);
        if !taken[home] {
            taken[home] = true;
            keys.push(key);
        }
        key += 1;
    }
    keys
}

/// Two keys with the same home slot, which is not the last slot.
fn colliding_keys(capacity: usize) -> (i32, i32) {
    let mut a = 0;
    loop {
        let home = home_of(a, capacity);
        if home + 1 < capacity {
            let mut b = a + 1;
            while b < a + 10_000 {
                if home_of(b, capacity) == home {
                    return (a, b);
                }
                b += 1;
            }
        }
        a += 1;
    }
}

/// Walks the links from the oldest entry and from the latest, and holds them
/// against the keys expected from the oldest to the latest.
fn assert_chain(map: &HashMap<i32, String>, expected: &[i32]) {
    let rows = map.display();
    assert_eq!(rows.len(), expected.len());
    if expected.is_empty() {
        assert_eq!(map.get_first().key, None);
        assert_eq!(map.get_last().key, None);
        return;
    }
    let node_at = |index: usize| -> HashNode<i32, String> {
        rows.iter().find(|row| row.0 == index).expect("a live slot").1.clone()
    };
    let mut node = map.get_first();
    assert_eq!(node.prev_node_hash_index, None);
    let mut forward = vec![node.key.unwrap()];
    while let Some(next) = node.next_node_hash_index {
        assert!(forward.len() < expected.len());
        node = node_at(next);
        forward.push(node.key.unwrap());
    }
    assert_eq!(forward, expected);
    assert_eq!(node.key, map.get_last().key);

    let mut node = map.get_last();
    let mut backward = vec![node.key.unwrap()];
    while let Some(prev) = node.prev_node_hash_index {
        assert!(backward.len() < expected.len());
        node = node_at(prev);
        backward.push(node.key.unwrap());
    }
    backward.reverse();
    assert_eq!(backward, expected);
}

#[test]
fn new_table_is_empty() {
    let map: HashMap<i32, String> = HashMap::new(10);
    assert_eq!(map.get_first().key, None);
    assert_eq!(map.get_last().key, None);
    assert_eq!(map.get_first().value, None);
    assert!(map.display().is_empty());
    assert_eq!(map.get(&1), None);
    assert!(map.resolves(&1));
}

#[test]
fn node_constructors() {
    let node = HashNode::new(Some(5), Some(String::from("five")), Some(2), None);
    assert_eq!(node.key, Some(5));
    assert_eq!(node.value, Some(String::from("five")));
    assert_eq!(node.prev_node_hash_index, Some(2));
    assert_eq!(node.next_node_hash_index, None);

    let copy = node.clone();
    assert_eq!(copy.key, Some(5));
    assert_eq!(copy.value, Some(String::from("five")));
    assert_eq!(copy.prev_node_hash_index, Some(2));
    assert_eq!(copy.next_node_hash_index, None);

    let empty: HashNode<i32, String> = HashNode::new_empty();
    assert_eq!(empty.key, None);
    assert_eq!(empty.value, None);
    assert_eq!(empty.prev_node_hash_index, None);
    assert_eq!(empty.next_node_hash_index, None);
}

#[test]
fn integer_key_hash_is_the_default_hash() {
    let mut hasher = DefaultHasher::new();
    42i32.hash(&mut hasher);
    assert_eq!(42i32.hash_value(), hasher.finish());
    assert_ne!(42i32.hash_value(), DefaultHasher::new().finish());
    assert_ne!(42i32.hash_value(), 43i32.hash_value());
    assert!(42i32.same_key(&42));
    assert!(!42i32.same_key(&43));
    assert_eq!(42i32.duplicate(), 42);
}

#[test]
fn string_key_hash_is_the_default_hash() {
    let key = String::from("word");
    let mut hasher = DefaultHasher::new();
    key.hash(&mut hasher);
    assert_eq!(key.hash_value(), hasher.finish());
    assert_ne!(key.hash_value(), DefaultHasher::new().finish());
    assert_ne!(key.hash_value(), String::from("ward").hash_value());
    assert!(key.same_key(&String::from("word")));
    assert!(!key.same_key(&String::from("ward")));
    assert_eq!(key.duplicate(), "word");
}

#[test]
fn first_insert_lands_in_the_home_slot() {
    let mut map = HashMap::new(10);
    map.insert(7, String::from("seven"));
    let rows = map.display();
    assert_eq!(rows.len(), 1);
    let mut hasher = DefaultHasher::new();
    7i32.hash(&mut hasher);
    assert_eq!(rows[0].0, hasher.finish() as usize % 10);
    assert_eq!(rows[0].1.key, Some(7));
    assert_eq!(rows[0].1.value, Some(String::from("seven")));
    assert_eq!(rows[0].1.prev_node_hash_index, None);
    assert_eq!(rows[0].1.next_node_hash_index, None);
}

#[test]
fn sequential_inserts_keep_their_order() {
    let keys = keys_with_distinct_homes(8, 16);
    let mut map = HashMap::new(16);
    for (n, key) in keys.iter().enumerate() {
        assert_eq!(map.try_insert(*key, format!("v{}", key)), Ok(()));
        assert_eq!(map.get_first().key, Some(keys[0]));
        assert_eq!(map.get_last().key, Some(*key));
        assert_chain(&map, &keys[..n + 1]);
    }
    for key in keys.iter() {
        assert_eq!(map.get(key), Some(format!("v{}", key)));
    }
}

#[test]
fn reinserting_the_oldest_key_makes_it_the_latest() {
    let mut map = HashMap::new(10);
    map.insert(1, String::from("one"));
    map.insert(2, String::from("two"));
    map.insert(3, String::from("three"));
    map.insert(1, String::from("uno"));
    assert_eq!(map.get_last().key, Some(1));
    assert_eq!(map.get_last().value, Some(String::from("uno")));
    assert_eq!(map.get_first().key, Some(2));
    assert_eq!(map.get(&1), Some(String::from("uno")));
    assert_eq!(map.display().len(), 3);
    assert_eq!(map.get_first().prev_node_hash_index, None);
    assert_eq!(map.get_last().next_node_hash_index, None);
    assert_chain(&map, &[2, 3, 1]);
}

fn home_slot_in(map: &HashMap<i32, String>, key: i32) -> usize {
    map.display().iter().find(|row| row.1.key == Some(key)).expect("a live key").0
}

#[test]
fn reinserting_the_latest_key_keeps_the_order() {
    let mut map = HashMap::new(10);
    map.insert(1, String::from("one"));
    map.insert(2, String::from("two"));
    map.insert(2, String::from("zwei"));
    assert_chain(&map, &[1, 2]);
    assert_eq!(map.get(&2), Some(String::from("zwei")));
    assert_eq!(map.get_last().prev_node_hash_index, Some(home_slot_in(&map, 1)));
}

#[test]
fn reinserting_the_only_key_keeps_both_ends() {
    let mut map = HashMap::new(10);
    map.insert(1, String::from("one"));
    map.insert(1, String::from("uno"));
    assert_chain(&map, &[1]);
    assert_eq!(map.get(&1), Some(String::from("uno")));
}

#[test]
fn reinserting_a_middle_key_moves_it_to_the_latest_end() {
    let mut map = HashMap::new(10);
    map.insert(1, String::from("one"));
    map.insert(2, String::from("two"));
    map.insert(3, String::from("three"));
    let slot2 = home_slot_in(&map, 2);
    map.insert(2, String::from("zwei"));
    assert_eq!(home_slot_in(&map, 2), slot2);
    assert_eq!(map.get_first().key, Some(1));
    assert_eq!(map.get_last().key, Some(2));
    assert_eq!(map.get_last().value, Some(String::from("zwei")));
    assert_eq!(map.get_last().prev_node_hash_index, Some(home_slot_in(&map, 3)));
    assert_eq!(map.get_last().next_node_hash_index, None);
    assert_eq!(map.get_first().next_node_hash_index, Some(home_slot_in(&map, 3)));
    assert_chain(&map, &[1, 3, 2]);
}

#[test]
fn oldest_after_a_middle_key_moved_and_the_first_left() {
    let mut map = HashMap::new(10);
    map.insert(1, String::from("1"));
    map.insert(2, String::from("2"));
    map.insert(3, String::from("3"));
    map.insert(2, String::from("x"));
    map.remove(1);
    assert_eq!(map.get_first().key, Some(3));
    assert_eq!(map.get_last().key, Some(2));
    assert_eq!(map.get(&1), None);
    assert_chain(&map, &[3, 2]);
}

#[test]
fn reinserting_every_key_in_turn_rotates_the_order() {
    let mut map = HashMap::new(10);
    for key in 1..=4 {
        map.insert(key, format!("{}", key));
    }
    map.insert(1, String::from("a"));
    assert_chain(&map, &[2, 3, 4, 1]);
    map.insert(3, String::from("b"));
    assert_chain(&map, &[2, 4, 1, 3]);
    map.insert(3, String::from("c"));
    assert_chain(&map, &[2, 4, 1, 3]);
    map.insert(2, String::from("d"));
    assert_chain(&map, &[4, 1, 3, 2]);
    assert_eq!(map.get(&1), Some(String::from("a")));
    assert_eq!(map.get(&2), Some(String::from("d")));
    assert_eq!(map.get(&3), Some(String::from("c")));
    assert_eq!(map.get(&4), Some(String::from("4")));
}

#[test]
fn remove_of_absent_key_changes_nothing() {
    let mut map: HashMap<i32, String> = HashMap::new(10);
    map.remove(5);
    assert_eq!(map.get_first().key, None);
    assert_eq!(map.get_last().key, None);
    assert!(map.display().is_empty());

    map.insert(1, String::from("one"));
    map.insert(2, String::from("two"));
    map.remove(5);
    assert_eq!(map.try_remove(6), Ok(()));
    assert_chain(&map, &[1, 2]);
    assert_eq!(map.get(&1), Some(String::from("one")));
    assert_eq!(map.get(&2), Some(String::from("two")));
}

#[test]
fn insert_then_remove_leaves_no_ends() {
    let mut map = HashMap::new(10);
    map.insert(9, String::from("nine"));
    map.remove(9);
    assert_eq!(map.get_first().key, None);
    assert_eq!(map.get_last().key, None);
    assert!(map.display().is_empty());
    assert_eq!(map.get(&9), None);
}

#[test]
fn lookup_gives_the_latest_value() {
    let keys = keys_with_distinct_homes(3, 10);
    let (a, b, c) = (keys[0], keys[1], keys[2]);
    let mut map = HashMap::new(10);
    assert_eq!(map.get(&a), None);
    map.insert(a, String::from("a"));
    assert_eq!(map.get(&a), Some(String::from("a")));
    map.insert(a, String::from("b"));
    assert_eq!(map.get(&a), Some(String::from("b")));
    map.insert(b, String::from("c"));
    assert_eq!(map.get(&a), Some(String::from("b")));
    assert_eq!(map.get(&b), Some(String::from("c")));
    assert_eq!(map.get(&c), None);
    map.remove(a);
    assert_eq!(map.get(&a), None);
    assert_eq!(map.get(&b), Some(String::from("c")));
    assert_eq!(map.try_get(&b), Ok(Some(String::from("c"))));
    assert_eq!(map.try_get(&a), Ok(None));
}

#[test]
fn remove_unlinks_oldest_middle_and_latest() {
    let k = keys_with_distinct_homes(6, 16);
    let mut map = HashMap::new(16);
    for key in k[..5].iter() {
        map.insert(*key, format!("{}", key));
    }
    map.remove(k[2]);
    assert_chain(&map, &[k[0], k[1], k[3], k[4]]);
    map.remove(k[0]);
    assert_chain(&map, &[k[1], k[3], k[4]]);
    map.remove(k[4]);
    assert_chain(&map, &[k[1], k[3]]);
    map.insert(k[5], String::from("6"));
    assert_chain(&map, &[k[1], k[3], k[5]]);
    map.remove(k[1]);
    map.remove(k[3]);
    map.remove(k[5]);
    assert_chain(&map, &[]);
}

#[test]
fn chain_stays_whole_over_many_inserts_and_removes() {
    let capacity = 64;
    let keys = keys_with_distinct_homes(40, capacity);
    let mut map: HashMap<i32, String> = HashMap::new(capacity);
    let mut order: Vec<i32> = Vec::new();
    let mut state: u64 = 0x2545_f491_4f6c_dd1d;
    for round in 0..2000 {
        state = state.wrapping_mul(6364136223846793005).wrapping_add(1442695040888963407);
        let pick = keys[(state >> 33) as usize % keys.len()];
        if (state >> 20) % 3 == 0 {
            map.remove(pick);
            order.retain(|key| *key != pick);
            assert_eq!(map.get(&pick), None);
        } else {
            map.insert(pick, format!("{}-{}", pick, round));
            order.retain(|key| *key != pick);
            order.push(pick);
            assert_eq!(map.get(&pick), Some(format!("{}-{}", pick, round)));
            assert_eq!(map.get_last().key, Some(pick));
        }
        assert_chain(&map, &order);
    }
}

#[test]
fn chain_stays_whole_where_keys_collide() {
    // Keys that share home slots: a remove may hide another key from the
    // search, and a later insert of that key then takes a second slot. The
    // links still form one chain over the live slots.
    let capacity = 16;
    let mut map: HashMap<i32, String> = HashMap::new(capacity);
    let mut state: u64 = 0x9e37_79b9_7f4a_7c15;
    for round in 0..3000 {
        state = state.wrapping_mul(6364136223846793005).wrapping_add(1442695040888963407);
        let pick = ((state >> 33) % 12) as i32;
        if (state >> 20) % 3 == 0 {
            let _ = map.try_remove(pick);
        } else {
            let _ = map.try_insert(pick, format!("{}", round));
        }
        let rows = map.display();
        let first = map.get_first();
        let last = map.get_last();
        if rows.is_empty() {
            assert_eq!(first.key, None);
            assert_eq!(last.key, None);
            continue;
        }
        assert_eq!(first.prev_node_hash_index, None);
        assert_eq!(last.next_node_hash_index, None);
        let mut index = rows.iter().find(|row| row.1.prev_node_hash_index.is_none()).unwrap().0;
        let mut steps = 0;
        loop {
            let node = &rows.iter().find(|row| row.0 == index).expect("a live slot").1;
            match node.next_node_hash_index {
                Some(next) => {
                    let after = &rows.iter().find(|row| row.0 == next).expect("a live slot").1;
                    assert_eq!(after.prev_node_hash_index, Some(index));
                    index = next;
                    steps += 1;
                    assert!(steps < rows.len());
                }
                None => break,
            }
        }
        assert_eq!(steps, rows.len() - 1);
        let end = &rows.iter().find(|row| row.0 == index).unwrap().1;
        assert_eq!(end.key, last.key);
        assert_eq!(end.value, last.value);
    }
}

#[test]
fn two_inserts_keep_oldest_and_latest() {
    let mut map = HashMap::new(10);
    map.insert(1, String::from("one"));
    assert_eq!(map.get_first().key, Some(1));
    assert_eq!(map.get_last().key, Some(1));
    map.insert(2, String::from("two"));
    assert_eq!(map.get_first().key, Some(1));
    assert_eq!(map.get_last().key, Some(2));
    assert_eq!(map.get(&1), Some(String::from("one")));
    assert_eq!(map.get(&2), Some(String::from("two")));
}

#[test]
fn remove_on_empty_then_insert_and_remove() {
    let mut map = HashMap::new(10);
    map.remove(1);
    map.insert(1, String::from("1"));
    map.remove(1);
    assert_eq!(map.get_first().key, None);
    assert_eq!(map.get_last().key, None);
}

#[test]
fn update_in_the_middle_of_inserts() {
    let mut map = HashMap::new(10);
    map.insert(1, String::from("1"));
    map.insert(2, String::from("2"));
    map.insert(2, String::from("3"));
    map.insert(3, String::from("4"));
    map.insert(4, String::from("5"));
    assert_eq!(map.get(&2), Some(String::from("3")));
    assert_eq!(map.get_last().key, Some(4));
    assert_eq!(map.get_first().key, Some(1));
    assert_chain(&map, &[1, 2, 3, 4]);
}

#[test]
fn touch_oldest_then_remove_second() {
    let mut map = HashMap::new(10);
    map.insert(1, String::from("1"));
    map.insert(2, String::from("2"));
    map.insert(2, String::from("3"));
    map.insert(3, String::from("4"));
    map.insert(4, String::from("5"));
    map.insert(1, String::from("12"));
    map.remove(2);
    assert_eq!(map.get_first().key, Some(3));
    assert_eq!(map.get_last().key, Some(1));
    assert_eq!(map.get(&1), Some(String::from("12")));
    assert_eq!(map.get(&2), None);
    assert_eq!(map.get_first().prev_node_hash_index, None);
    assert_eq!(map.get_last().next_node_hash_index, None);
    assert_chain(&map, &[3, 4, 1]);
}

#[test]
fn string_keys_with_integer_values() {
    let mut map = HashMap::new(10);
    map.remove(String::from("2"));
    map.insert(String::from("1"), 1);
    map.insert(String::from("2"), 2);
    map.insert(String::from("2"), 3);
    map.insert(String::from("3"), 4);
    map.insert(String::from("4"), 5);
    assert_eq!(map.get(&String::from("2")), Some(3));
    assert_eq!(map.get_last().key, Some(String::from("4")));
    assert_eq!(map.get_first().key, Some(String::from("1")));
    map.insert(String::from("1"), 12);
    map.remove(String::from("2"));
    assert_eq!(map.get_first().key, Some(String::from("3")));
    assert_eq!(map.get_last().key, Some(String::from("1")));
    assert_eq!(map.get(&String::from("1")), Some(12));
}

#[test]
fn colliding_key_goes_to_the_next_slot() {
    let capacity = 16;
    let (a, b) = colliding_keys(capacity);
    let home = home_of(a, capacity);
    let mut map = HashMap::new(capacity);
    map.insert(a, String::from("a"));
    map.insert(b, String::from("b"));
    let rows = map.display();
    assert_eq!(rows.len(), 2);
    assert_eq!(rows[0].0, home);
    assert_eq!(rows[0].1.key, Some(a));
    assert_eq!(rows[0].1.next_node_hash_index, Some(home + 1));
    assert_eq!(rows[1].0, home + 1);
    assert_eq!(rows[1].1.key, Some(b));
    assert_eq!(rows[1].1.prev_node_hash_index, Some(home));
    assert_eq!(map.get(&a), Some(String::from("a")));
    assert_eq!(map.get(&b), Some(String::from("b")));
}

#[test]
fn removed_slot_hides_a_key_that_probed_past_it() {
    let capacity = 16;
    let (a, b) = colliding_keys(capacity);
    let home = home_of(a, capacity);
    let mut map = HashMap::new(capacity);
    map.insert(a, String::from("a"));
    map.insert(b, String::from("b"));
    map.remove(a);
    // The second key is still stored one slot on, but the search for it now
    // ends at the emptied home slot.
    let rows = map.display();
    assert_eq!(rows.len(), 1);
    assert_eq!(rows[0].0, home + 1);
    assert_eq!(rows[0].1.key, Some(b));
    assert_eq!(map.get(&b), None);
    assert_eq!(map.get_first().key, Some(b));
    assert_eq!(map.get_last().key, Some(b));
}

#[test]
fn display_lists_live_slots_by_index() {
    let keys = keys_with_distinct_homes(6, 32);
    let mut map = HashMap::new(32);
    for key in keys.iter() {
        map.insert(*key, format!("{}", key));
    }
    map.remove(keys[2]);
    let rows = map.display();
    assert_eq!(rows.len(), 5);
    for pair in rows.windows(2) {
        assert!(pair[0].0 < pair[1].0);
    }
    for row in rows.iter() {
        let key = row.1.key.unwrap();
        assert_eq!(row.0, home_of(key, 32));
        assert_eq!(row.1.value, Some(format!("{}", key)));
        assert_ne!(key, keys[2]);
    }
}

#[test]
fn zero_capacity_resolves_nothing() {
    let mut map: HashMap<i32, String> = HashMap::new(0);
    assert!(!map.resolves(&1));
    assert_eq!(map.try_insert(1, String::from("one")), Err(ProbeExhausted));
    assert_eq!(map.try_get(&1), Err(ProbeExhausted));
    assert_eq!(map.try_remove(1), Err(ProbeExhausted));
    assert_eq!(map.get_first().key, None);
    assert_eq!(map.get_last().key, None);
    assert!(map.display().is_empty());
}

#[test]
fn probe_past_the_last_slot_fails() {
    let mut map: HashMap<i32, String> = HashMap::new(1);
    assert_eq!(map.try_insert(1, String::from("one")), Ok(()));
    assert!(map.resolves(&1));
    assert!(!map.resolves(&2));
    assert_eq!(map.try_insert(2, String::from("two")), Err(ProbeExhausted));
    assert_eq!(map.try_get(&2), Err(ProbeExhausted));
    assert_eq!(map.try_remove(2), Err(ProbeExhausted));
    // The failed calls left the table as it was.
    assert_eq!(map.get(&1), Some(String::from("one")));
    assert_eq!(map.get_first().key, Some(1));
    assert_eq!(map.get_last().key, Some(1));
    assert_eq!(map.try_insert(1, String::from("uno")), Ok(()));
    assert_eq!(map.try_get(&1), Ok(Some(String::from("uno"))));
    assert_eq!(map.try_remove(1), Ok(()));
    assert_eq!(map.try_get(&1), Ok(None));
}

#[test]
fn probing_does_not_wrap_around() {
    let capacity = 8;
    // Two keys whose home is the last slot: the second finds no slot, though
    // the slots before it are empty.
    let mut last_home = Vec::new();
    let mut key = 0;
    while last_home.len() < 2 {
        if home_of(key, capacity) == capacity - 1 {
            last_home.push(key);
        }
        key += 1;
    }
    let mut map: HashMap<i32, String> = HashMap::new(capacity);
    assert_eq!(map.try_insert(last_home[0], String::from("a")), Ok(()));
    assert_eq!(map.try_insert(last_home[1], String::from("b")), Err(ProbeExhausted));
    assert_eq!(map.display().len(), 1);
}
