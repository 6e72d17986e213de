use hashtable::HashMap;

#[test]
fn insert() {
    let mut map = HashMap::new();
    map.insert("foo", 42);
    assert_eq!(map.get(&"foo"), Some(&42));
    assert_eq!(map.remove(&"foo"), Some(42));
    assert_eq!(map.get(&"foo"), None);
}

#[test]
fn get_on_empty_table() {
    let map: HashMap<&str, i32> = HashMap::new();
    assert_eq!(map.get(&"foo"), None);
}

#[test]
fn remove_on_empty_table() {
    let mut map: HashMap<&str, i32> = HashMap::new();
    assert_eq!(map.remove(&"foo"), None);
}

#[test]
fn insert_get_remove_round_trip() {
    let mut map = HashMap::new();
    assert_eq!(map.insert("foo", 42), None);
    assert_eq!(map.get(&"foo"), Some(&42));
    assert_eq!(map.remove(&"foo"), Some(42));
    assert_eq!(map.get(&"foo"), None);
}

#[test]
fn overwrite_returns_previous_value() {
    let mut map = HashMap::new();
    assert_eq!(map.insert("a", 1), None);
    assert_eq!(map.insert("a", 2), Some(1));
    assert_eq!(map.get(&"a"), Some(&2));
}

#[test]
fn hundred_integer_keys_all_retrievable() {
    let mut map: HashMap<u64, u64> = HashMap::new();
    for k in 0..100u64 {
        assert_eq!(map.insert(k, k * 2), None);
    }
    for k in 0..100u64 {
        assert_eq!(map.get(&k), Some(&(k * 2)));
    }
}

#[test]
fn insert_then_remove_all_behaves_empty() {
    let mut map: HashMap<u64, u64> = HashMap::new();
    for k in 0..20u64 {
        map.insert(k, k + 100);
    }
    // Remove in an order unrelated to insertion order.
    for k in [13u64, 2, 19, 0, 7, 11, 5, 17, 3, 8, 1, 15, 9, 4, 16, 6, 12, 18, 10, 14] {
        assert_eq!(map.remove(&k), Some(k + 100));
    }
    for k in 0..20u64 {
        assert_eq!(map.get(&k), None);
        assert_eq!(map.remove(&k), None);
    }
}

#[test]
fn remove_absent_key_leaves_others() {
    let mut map = HashMap::new();
    map.insert("kept", 7);
    assert_eq!(map.remove(&"absent"), None);
    assert_eq!(map.get(&"kept"), Some(&7));
}

#[test]
fn colliding_keys_share_a_bucket() {
    // With the identity hash on u64, these keys agree modulo every bucket
    // count the table reaches here, so they chain in one bucket.
    let base = 5u64;
    let keys = [base, base + (1 << 40), base + (2 << 40), base + (3 << 40)];
    let mut map: HashMap<u64, u64> = HashMap::new();
    for (i, k) in keys.iter().enumerate() {
        assert_eq!(map.insert(*k, i as u64), None);
    }
    for (i, k) in keys.iter().enumerate() {
        assert_eq!(map.get(k), Some(&(i as u64)));
    }
    // Removing from the middle of the chain keeps the rest intact.
    assert_eq!(map.remove(&keys[1]), Some(1));
    assert_eq!(map.get(&keys[0]), Some(&0));
    assert_eq!(map.get(&keys[1]), None);
    assert_eq!(map.get(&keys[2]), Some(&2));
    assert_eq!(map.get(&keys[3]), Some(&3));
}

#[test]
fn string_keys() {
    let mut map: HashMap<String, i32> = HashMap::new();
    assert_eq!(map.insert(String::from("alpha"), 1), None);
    assert_eq!(map.insert(String::from("beta"), 2), None);
    assert_eq!(map.get(&String::from("alpha")), Some(&1));
    assert_eq!(map.insert(String::from("alpha"), 3), Some(1));
    assert_eq!(map.get(&String::from("alpha")), Some(&3));
    assert_eq!(map.remove(&String::from("beta")), Some(2));
    assert_eq!(map.get(&String::from("beta")), None);
}

#[test]
fn non_ascii_string_keys() {
    let mut map: HashMap<&str, i32> = HashMap::new();
    map.insert("café", 1);
    map.insert("日本語", 2);
    map.insert("caf\u{65}\u{301}", 3); // decomposed é: a different char sequence
    assert_eq!(map.get(&"café"), Some(&1));
    assert_eq!(map.get(&"日本語"), Some(&2));
    assert_eq!(map.get(&"caf\u{65}\u{301}"), Some(&3));
}

#[test]
fn empty_string_key() {
    let mut map: HashMap<&str, i32> = HashMap::new();
    assert_eq!(map.insert("", 9), None);
    assert_eq!(map.get(&""), Some(&9));
    assert_eq!(map.remove(&""), Some(9));
    assert_eq!(map.get(&""), None);
}

#[test]
fn negative_integer_keys() {
    let mut map: HashMap<i32, &str> = HashMap::new();
    map.insert(-3, "minus three");
    map.insert(0, "zero");
    map.insert(3, "three");
    assert_eq!(map.get(&-3), Some(&"minus three"));
    assert_eq!(map.get(&0), Some(&"zero"));
    assert_eq!(map.get(&3), Some(&"three"));
    assert_eq!(map.get(&1), None);
}
