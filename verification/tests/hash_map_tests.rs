use recency_map::HashMap;

#[test]
fn test_insert_item() {
    let mut map = HashMap::new(10);

    map.insert(1, String::from("one"));

    assert_eq!(map.get_first().key.unwrap(), 1);
    assert_eq!(map.get_last().key.unwrap(), 1);

    map.insert(2, String::from("two"));

    assert_eq!(map.get_first().key.unwrap(), 1);
    assert_eq!(map.get_last().key.unwrap(), 2);

    assert_eq!(map.get(&1).unwrap(), String::from("one"));
    assert_eq!(map.get(&2).unwrap(), String::from("two"));

    map.insert(3, String::from("three"));

    assert_eq!(map.get_first().key.unwrap(), 1);
    assert_eq!(map.get_last().key.unwrap(), 3);

    map.insert(4, String::from("four"));

    assert_eq!(map.get_first().key.unwrap(), 1);
    assert_eq!(map.get_last().key.unwrap(), 4);
}

#[test]
fn test_remove_item() {
    let mut map = HashMap::new(10);

    map.remove(1);

    map.insert(1, String::from("one"));

    map.remove(1);

    assert_eq!(map.get_first().key, None);
    assert_eq!(map.get_last().key, None);

    map.insert(2, String::from("two"));

    assert_eq!(map.get_first().key.unwrap(), 2);
    assert_eq!(map.get_last().key.unwrap(), 2);

    map.insert(3, String::from("three"));

    assert_eq!(map.get_first().key.unwrap(), 2);
    assert_eq!(map.get_last().key.unwrap(), 3);

    map.insert(4, String::from("four"));

    assert_eq!(map.get_first().key.unwrap(), 2);
    assert_eq!(map.get_last().key.unwrap(), 4);
    map.display();
}
