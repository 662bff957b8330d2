use asterisk::string_map::StringMap;

#[test]
fn entries_are_kept_in_the_order_of_their_keys() {
    let mut map: StringMap<u32> = StringMap::new();
    assert!(map.is_empty());
    map.insert("pear".to_string(), 1);
    map.insert("apple".to_string(), 2);
    map.insert("quince".to_string(), 3);
    map.insert("banana".to_string(), 4);
    assert_eq!(map.len(), 4);
    assert_eq!(map.key_list(), vec!["apple", "banana", "pear", "quince"]);
    assert_eq!(map.get("apple"), Some(&2));
    assert_eq!(map.get("quince"), Some(&3));
}

#[test]
fn a_key_that_is_there_gets_the_new_value() {
    let mut map: StringMap<u32> = StringMap::new();
    map.insert("a".to_string(), 1);
    map.insert("b".to_string(), 2);
    map.insert("a".to_string(), 3);
    assert_eq!(map.len(), 2);
    assert_eq!(map.get("a"), Some(&3));
    assert_eq!(map.get("b"), Some(&2));
    assert_eq!(map.get("c"), None);
    assert!(map.contains_key("b"));
    assert!(!map.contains_key(""));
}

#[test]
fn position_is_the_slot_of_a_key() {
    let mut map: StringMap<u32> = StringMap::new();
    assert_eq!(map.position("x"), (0, false));
    map.insert("b".to_string(), 1);
    map.insert("d".to_string(), 2);
    assert_eq!(map.position("a"), (0, false));
    assert_eq!(map.position("b"), (0, true));
    assert_eq!(map.position("c"), (1, false));
    assert_eq!(map.position("d"), (1, true));
    assert_eq!(map.position("e"), (2, false));
}

#[test]
fn many_keys_stay_sorted() {
    let mut map: StringMap<usize> = StringMap::new();
    let mut expected: Vec<String> = Vec::new();
    for i in 0..200usize {
        let key = format!("k{}", (i * 7919) % 1000);
        map.insert(key.clone(), i);
        if !expected.contains(&key) {
            expected.push(key);
        }
    }
    expected.sort();
    assert_eq!(map.key_list(), expected);
}
