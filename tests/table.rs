use probe_table::{HashMap, Hashable, INITIAL_CAPACITY};

fn numbered_table(n: usize) -> HashMap<String, String> {
    let mut map = HashMap::<String, String>::new();
    for i in 0..n {
        map.insert(i.to_string(), (1000000 + i).to_string());
    }
    map
}

#[test]
fn new_table_is_empty() {
    let map = HashMap::<usize, usize>::new();
    assert_eq!(map.count(), 0);
    assert_eq!(map.capacity(), INITIAL_CAPACITY);
    assert_eq!(map.capacity(), 11);
    for i in 0..map.capacity() {
        assert!(map.slot(i).is_none());
    }
}

#[test]
fn eleven_entries_fill_the_table() {
    let map = numbered_table(11);
    assert_eq!(map.count(), 11);
    assert_eq!(map.get(&"5".to_string()), Some(&"1000005".to_string()));
    assert_eq!(map.count(), map.capacity());
}

#[test]
fn twelfth_key_rebuilds_at_twice_plus_one() {
    let mut map = numbered_table(11);
    map.insert("12".to_string(), "1000012".to_string());
    assert_eq!(map.capacity(), 11 * 2 + 1);
    assert_eq!(map.count(), 12);
    for i in 0..11usize {
        assert_eq!(map.get(&i.to_string()), Some(&(1000000 + i).to_string()));
    }
    assert_eq!(map.get(&"12".to_string()), Some(&"1000012".to_string()));
}

#[test]
fn same_key_twice_keeps_the_later_value() {
    let mut map = HashMap::<String, String>::new();
    map.insert("3".to_string(), "x".to_string());
    let before = map.count();
    map.insert("3".to_string(), "y".to_string());
    assert_eq!(map.get(&"3".to_string()), Some(&"y".to_string()));
    assert_eq!(map.count(), before);
    assert_eq!(map.count(), 1);
}

#[test]
fn missing_key_is_absent() {
    let empty = HashMap::<String, String>::new();
    assert_eq!(empty.get(&"missing".to_string()), None);
    let full = numbered_table(11);
    assert_eq!(full.get(&"missing".to_string()), None);
    assert_eq!(full.get_index(&"missing".to_string()), None);
    let mut grown = numbered_table(12);
    assert_eq!(grown.get(&"missing".to_string()), None);
    assert!(grown.get_mut(&"missing".to_string()).is_none());
    assert_eq!(grown.count(), 12);
}

#[test]
fn random_integer_keys_found_and_updated() {
    let mut map = HashMap::<usize, usize>::new();
    let mut keys: Vec<usize> = Vec::new();
    for _ in 0..1000 {
        let key = rand::random::<usize>();
        map.insert(key, 1);
        match map.get_mut(&key) {
            Some(value) => {
                assert_eq!(*value, 1);
                *value = 2;
            }
            None => panic!("key just inserted is missing"),
        }
        if !keys.contains(&key) {
            keys.push(key);
        }
    }
    assert_eq!(map.count(), keys.len());
    for key in &keys {
        assert_eq!(map.get(key), Some(&2));
    }
}

#[test]
fn full_table_takes_updates_without_growing() {
    let mut map = numbered_table(11);
    map.insert("7".to_string(), "seven".to_string());
    assert_eq!(map.capacity(), 11);
    assert_eq!(map.count(), 11);
    assert_eq!(map.get(&"7".to_string()), Some(&"seven".to_string()));
}

#[test]
fn capacity_never_shrinks() {
    let mut map = HashMap::<usize, usize>::new();
    let mut last = map.capacity();
    for k in 0..100usize {
        map.insert(k * 7, k);
        assert!(map.capacity() >= last);
        if map.capacity() != last {
            assert_eq!(map.capacity(), last * 2 + 1);
        }
        last = map.capacity();
    }
    assert_eq!(map.capacity(), 191);
    assert_eq!(map.count(), 100);
}

#[test]
fn growth_keeps_every_entry() {
    let mut map = HashMap::<usize, usize>::new();
    for k in 0..5usize {
        map.insert(k * 11, k + 100);
    }
    map.extend();
    assert_eq!(map.capacity(), 23);
    assert_eq!(map.count(), 5);
    for k in 0..5usize {
        assert_eq!(map.get(&(k * 11)), Some(&(k + 100)));
    }
}

#[test]
fn round_trip_after_other_inserts() {
    let mut map = HashMap::<usize, usize>::new();
    map.insert(42, 1);
    for k in 0..30usize {
        if k != 42 {
            map.insert(k, k);
        }
    }
    assert_eq!(map.get(&42), Some(&1));
    map.insert(42, 5);
    assert_eq!(map.get(&42), Some(&5));
}

#[test]
fn no_key_occupies_two_slots() {
    let mut map = HashMap::<usize, usize>::new();
    for k in [3usize, 14, 3, 25, 14, 3] {
        map.insert(k, k);
    }
    assert_eq!(map.count(), 3);
    let mut seen: Vec<usize> = Vec::new();
    let mut occupied = 0;
    for i in 0..map.capacity() {
        if let Some((k, _)) = map.slot(i) {
            assert!(!seen.contains(k));
            seen.push(*k);
            occupied += 1;
        }
    }
    assert_eq!(occupied, map.count());
}

#[test]
fn sequential_integer_keys_fill_in_order() {
    let mut map = HashMap::<usize, usize>::new();
    for k in 0..11usize {
        map.insert(k, k * 2);
    }
    for i in 0..11usize {
        assert_eq!(map.slot(i), Some((&i, &(i * 2))));
        assert_eq!(map.get_index(&i), Some(i));
    }
}

#[test]
fn colliding_keys_probe_forward_and_wrap() {
    let mut map = HashMap::<usize, usize>::new();
    map.insert(10, 0);
    map.insert(21, 1);
    map.insert(32, 2);
    assert_eq!(map.get_index(&10), Some(10));
    assert_eq!(map.get_index(&21), Some(0));
    assert_eq!(map.get_index(&32), Some(1));
    assert_eq!(map.get(&32), Some(&2));
}

#[test]
fn rebuild_places_entries_by_new_capacity() {
    let mut map = HashMap::<usize, usize>::new();
    for k in 0..11usize {
        map.insert(k, k);
    }
    map.insert(30, 30);
    assert_eq!(map.capacity(), 23);
    assert_eq!(map.get_index(&30), Some(11));
    assert_eq!(map.get_index(&5), Some(5));
}

#[test]
fn string_hash_is_djb2_over_bytes() {
    assert_eq!(String::new().hash(), 5381);
    assert_eq!("a".to_string().hash(), 5381 * 33 + 97);
    assert_eq!("ab".to_string().hash(), 5863208);
    assert_eq!("é".to_string().hash(), (5381 * 33 + 0xc3) * 33 + 0xa9);
}

#[test]
fn string_hash_wraps() {
    let long = "z".repeat(40);
    let mut expected: usize = 5381;
    for _ in 0..40 {
        expected = expected.wrapping_mul(33).wrapping_add(b'z' as usize);
    }
    assert_eq!(long.hash(), expected);
}

#[test]
fn integer_hash_is_identity() {
    assert_eq!(0usize.hash(), 0);
    assert_eq!(12345usize.hash(), 12345);
    assert_eq!(usize::MAX.hash(), usize::MAX);
}

#[test]
fn key_comparison_by_content() {
    assert!("abc".to_string().same_key(&"abc".to_string()));
    assert!(!"abc".to_string().same_key(&"abd".to_string()));
    assert!(7usize.same_key(&7));
    assert!(!7usize.same_key(&8));
}

#[test]
fn get_mut_changes_value_in_place() {
    let mut map = numbered_table(3);
    if let Some(v) = map.get_mut(&"1".to_string()) {
        v.push('!');
    }
    assert_eq!(map.get(&"1".to_string()), Some(&"1000001!".to_string()));
    assert_eq!(map.count(), 3);
    assert_eq!(map.capacity(), 11);
}
