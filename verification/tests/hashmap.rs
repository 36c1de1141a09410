use lab_allocator::hashmap::HashMap;

#[test]
fn hashmap_new_is_empty() {
    let m: HashMap<u32, u32> = HashMap::new();
    assert_eq!(m.inner.capacity, 16);
    assert_eq!(m.inner.size, 0);
    let mut it = m.iter();
    assert!(it.next().is_none());
}

#[test]
fn hashmap_insert_and_iterate_in_bucket_order() {
    let mut m: HashMap<u32, u32> = HashMap::new();
    assert_eq!(m.insert_at(3, 1, 10), None);
    assert_eq!(m.insert_at(5, 2, 20), None);
    assert_eq!(m.inner.size, 2);
    let mut it = m.iter();
    assert_eq!(it.next(), Some((1, 10)));
    assert_eq!(it.next(), Some((2, 20)));
    assert_eq!(it.next(), None);
}

#[test]
fn hashmap_replaces_value_in_same_bucket() {
    let mut m: HashMap<u32, u32> = HashMap::new();
    assert_eq!(m.insert_at(2, 7, 1), None);
    assert_eq!(m.insert_at(2, 7, 9), Some(1));
    assert_eq!(m.inner.size, 1);
    let mut it = m.iter();
    assert_eq!(it.next(), Some((7, 9)));
    assert_eq!(it.next(), None);
}

#[test]
fn hashmap_same_key_in_another_bucket_duplicates() {
    // Only the chosen bucket is scanned for an existing key, so a key sent
    // to two different buckets exists twice; the caller's bucket choice
    // carries this responsibility.
    let mut m: HashMap<u32, u32> = HashMap::new();
    assert_eq!(m.insert_at(1, 7, 1), None);
    assert_eq!(m.insert_at(4, 7, 2), None);
    assert_eq!(m.inner.size, 2);
    let mut it = m.iter();
    assert_eq!(it.next(), Some((7, 1)));
    assert_eq!(it.next(), Some((7, 2)));
    assert_eq!(it.next(), None);
}

#[test]
fn hashmap_iterator_snapshot_is_stable() {
    let mut m: HashMap<u8, String> = HashMap::new();
    assert_eq!(m.insert_at(0, 1, String::from("one")), None);
    let mut it = m.iter();
    assert_eq!(m.insert_at(0, 2, String::from("two")), None);
    // The iterator was taken before the second insertion and keeps its
    // snapshot of one entry.
    assert_eq!(it.next(), Some((1, String::from("one"))));
    assert_eq!(it.next(), None);
}

#[test]
fn hashmap_string_keys_replace() {
    let mut m: HashMap<String, u64> = HashMap::new();
    assert_eq!(m.insert_at(9, String::from("k"), 5), None);
    assert_eq!(m.insert_at(9, String::from("k"), 6), Some(5));
    assert_eq!(m.inner.size, 1);
}
