use chained_hash::hashtable::HashTable;

#[test]
fn insert_and_get() {
    let mut hashtable: HashTable<String, i32> = HashTable::new();

    hashtable.insert("key".to_string(), 1);
    assert_eq!(hashtable.get(&"key".to_string()), Some(&1));
}

#[test]
fn insert_and_get_mut() {
    let mut hashtable: HashTable<String, i32> = HashTable::new();

    hashtable.insert("key".to_string(), 1);
    if let Some(x) = hashtable.get_mut(&"key".to_string()) {
        *x = 30;
    }

    assert_eq!(*hashtable.index(&"key".to_string()), 30)
}

#[test]
fn contains_key() {
    let mut hashtable: HashTable<i32, i32> = HashTable::new();

    hashtable.insert(1, 1);

    assert_eq!(hashtable.contains_key(&1), true);
}

#[test]
fn remove() {
    let mut hashtable: HashTable<String, i32> = HashTable::new();

    hashtable.insert("key".to_string(), 1);
    hashtable.remove(&"key".to_string());

    assert_eq!(hashtable.is_empty(), true);
    assert_eq!(hashtable.contains_key(&"key".to_string()), false);
}

#[test]
fn new_table_is_empty_with_sixteen_buckets() {
    let hashtable: HashTable<i32, i32> = HashTable::new();
    assert!(hashtable.is_empty());
    assert_eq!(hashtable.len(), 0);
    assert_eq!(hashtable.capacity(), 16);
    assert_eq!(hashtable.get(&0), None);
    assert!(hashtable.inter().is_empty());
}

#[test]
fn round_trip_on_several_keys() {
    let mut hashtable: HashTable<String, u64> = HashTable::new();
    hashtable.insert("alpha".to_string(), 10);
    hashtable.insert("beta".to_string(), 20);
    hashtable.insert(String::new(), 30);
    assert_eq!(hashtable.get(&"alpha".to_string()), Some(&10));
    assert_eq!(hashtable.get(&"beta".to_string()), Some(&20));
    assert_eq!(hashtable.get(&String::new()), Some(&30));
    assert_eq!(hashtable.get(&"gamma".to_string()), None);
    assert_eq!(hashtable.len(), 3);
}

#[test]
fn overwrite_keeps_size() {
    let mut hashtable: HashTable<String, i32> = HashTable::new();
    hashtable.insert("key".to_string(), 1);
    hashtable.insert("key".to_string(), 30);
    assert_eq!(hashtable.get(&"key".to_string()), Some(&30));
    assert_eq!(hashtable.len(), 1);
}

#[test]
fn contains_key_absent() {
    let mut hashtable: HashTable<i32, i32> = HashTable::new();
    hashtable.insert(1, 1);
    assert!(hashtable.contains_key(&1));
    assert!(!hashtable.contains_key(&2));
    assert_eq!(hashtable.contains_key(&2), hashtable.get(&2).is_some());
    assert_eq!(hashtable.contains_key(&1), hashtable.get(&1).is_some());
}

#[test]
fn remove_present_and_absent() {
    let mut hashtable: HashTable<i32, i32> = HashTable::new();
    hashtable.insert(1, 100);
    hashtable.insert(2, 200);
    assert_eq!(hashtable.remove(&3), None);
    assert_eq!(hashtable.len(), 2);
    assert_eq!(hashtable.remove(&1), Some(100));
    assert_eq!(hashtable.len(), 1);
    assert!(!hashtable.contains_key(&1));
    assert_eq!(hashtable.get(&2), Some(&200));
    assert_eq!(hashtable.remove(&1), None);
    assert_eq!(hashtable.len(), 1);
}

#[test]
fn growth_doubles_once_and_keeps_entries() {
    let mut hashtable: HashTable<i32, i32> = HashTable::new();
    let mut k: i32 = 0;
    while k < 22 {
        hashtable.insert(k, k * 10);
        k += 1;
    }
    assert_eq!(hashtable.capacity(), 16);
    hashtable.insert(22, 220);
    assert_eq!(hashtable.capacity(), 32);
    assert_eq!(hashtable.len(), 23);
    let mut q: i32 = 0;
    while q < 23 {
        assert_eq!(hashtable.get(&q), Some(&(q * 10)));
        q += 1;
    }
}

#[test]
fn growth_with_string_keys() {
    let mut hashtable: HashTable<String, usize> = HashTable::new();
    let mut n: usize = 0;
    while n < 100 {
        hashtable.insert(format!("item-{}", n), n);
        n += 1;
    }
    assert_eq!(hashtable.len(), 100);
    assert_eq!(hashtable.capacity(), 128);
    let mut q: usize = 0;
    while q < 100 {
        assert_eq!(hashtable.get(&format!("item-{}", q)), Some(&q));
        q += 1;
    }
}

#[test]
fn iteration_yields_every_record_once() {
    let mut hashtable: HashTable<i64, i64> = HashTable::new();
    let mut k: i64 = -20;
    while k < 20 {
        hashtable.insert(k, k * k);
        k += 1;
    }
    hashtable.remove(&0);
    let pairs = hashtable.inter();
    assert_eq!(pairs.len(), hashtable.len());
    assert_eq!(pairs.len(), 39);
    let mut seen: Vec<i64> = Vec::new();
    for (key, value) in pairs.iter() {
        assert_eq!(**value, **key * **key);
        assert_eq!(hashtable.get(*key), Some(*value));
        assert!(!seen.contains(*key));
        seen.push(**key);
    }
    assert!(!seen.contains(&0));
}

#[test]
fn clear_empties_and_keeps_capacity() {
    let mut hashtable: HashTable<u32, u32> = HashTable::new();
    let mut k: u32 = 0;
    while k < 30 {
        hashtable.insert(k, k);
        k += 1;
    }
    assert_eq!(hashtable.capacity(), 32);
    hashtable.clear();
    assert!(hashtable.is_empty());
    assert_eq!(hashtable.capacity(), 32);
    assert!(!hashtable.contains_key(&3));
    hashtable.insert(3, 4);
    assert_eq!(hashtable.get(&3), Some(&4));
}

#[test]
fn index_mut_updates_value() {
    let mut hashtable: HashTable<u64, String> = HashTable::new();
    hashtable.insert(7, "seven".to_string());
    *hashtable.index_mut(&7) = "SEVEN".to_string();
    assert_eq!(hashtable.index(&7), "SEVEN");
    assert_eq!(hashtable.len(), 1);
}

#[test]
fn get_mut_absent_is_none() {
    let mut hashtable: HashTable<i32, i32> = HashTable::new();
    hashtable.insert(-5, 1);
    assert!(hashtable.get_mut(&5).is_none());
    assert_eq!(hashtable.get(&-5), Some(&1));
}

