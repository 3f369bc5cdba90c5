use lru::cache::LruCache;

#[test]
fn test_cache() -> Result<(), Box<dyn std::error::Error>> {
    let mut cache = LruCache::<String, usize>::new(5);
    assert_eq!(5, cache.capacity());
    assert_eq!(0, cache.size());
    assert!(cache.get(&"apple".to_owned()).is_none());

    cache.put("apple".to_owned(), 2);
    cache.put("banana".to_owned(), 4);
    cache.put("mango".to_owned(), 1);
    cache.put("kiwi".to_owned(), 5);
    assert_eq!(4, cache.size());
    assert_eq!(1, *cache.get(&"mango".to_owned()).unwrap());
    assert_eq!(2, *cache.get(&"apple".to_owned()).unwrap());
    assert_eq!(5, *cache.get(&"kiwi".to_owned()).unwrap());
    assert_eq!(4, *cache.get(&"banana".to_owned()).unwrap());

    cache.put("orange".to_owned(), 3);
    cache.put("pineapple".to_owned(), 7);
    assert_eq!(5, cache.size());
    assert!(cache.get(&"mango".to_owned()).is_none());
    assert_eq!(3, *cache.get(&"orange".to_owned()).unwrap());
    assert_eq!(7, *cache.get(&"pineapple".to_owned()).unwrap());
    assert_eq!(2, *cache.get(&"apple".to_owned()).unwrap());
    assert_eq!(5, *cache.get(&"kiwi".to_owned()).unwrap());
    assert_eq!(4, *cache.get(&"banana".to_owned()).unwrap());
    assert_eq!(7, *cache.get(&"pineapple".to_owned()).unwrap());
    assert_eq!(7, *cache.get(&"pineapple".to_owned()).unwrap());
    assert_eq!(2, *cache.get(&"apple".to_owned()).unwrap());
    assert_eq!(5, *cache.get(&"kiwi".to_owned()).unwrap());

    cache.put("apple".to_owned(), 1);
    cache.put("banana".to_owned(), 8);
    cache.put("mango".to_owned(), 4);
    cache.put("kiwi".to_owned(), 3);
    assert_eq!(5, cache.size());
    assert!(cache.get(&"orange".to_owned()).is_none());
    assert_eq!(1, *cache.get(&"apple".to_owned()).unwrap());
    assert_eq!(8, *cache.get(&"banana".to_owned()).unwrap());
    assert_eq!(4, *cache.get(&"mango".to_owned()).unwrap());
    assert_eq!(3, *cache.get(&"kiwi".to_owned()).unwrap());
    assert_eq!(7, *cache.get(&"pineapple".to_owned()).unwrap());
    Ok(())
}

#[test]
fn size_never_exceeds_capacity() {
    let mut cache = LruCache::<u32, u32>::new(3);
    for k in 0..20u32 {
        cache.put(k, k * 10);
        assert!(cache.size() <= cache.capacity());
        cache.get(&k);
        assert!(cache.size() <= cache.capacity());
    }
    assert_eq!(3, cache.size());
}

#[test]
fn put_new_key_grows_by_one_until_full() {
    let mut cache = LruCache::<u32, u32>::new(4);
    for k in 0..4u32 {
        let before = cache.size();
        cache.put(k, k);
        assert_eq!(before + 1, cache.size());
    }
    // At capacity: size stays, and exactly one previously-present key
    // (the least-recently-used one, key 0) becomes absent.
    cache.put(100, 100);
    assert_eq!(4, cache.size());
    assert!(cache.get(&0).is_none());
    assert_eq!(Some(&1), cache.get(&1));
    assert_eq!(Some(&2), cache.get(&2));
    assert_eq!(Some(&3), cache.get(&3));
    assert_eq!(Some(&100), cache.get(&100));
}

#[test]
fn recently_touched_key_is_not_evicted() {
    let mut cache = LruCache::<u32, u32>::new(3);
    cache.put(1, 1);
    cache.put(2, 2);
    cache.put(3, 3);
    // Touch key 1 via get: it becomes most-recently-used, so the next two
    // insertions of new keys evict 2 and 3 but spare 1.
    assert_eq!(Some(&1), cache.get(&1));
    cache.put(4, 4);
    cache.put(5, 5);
    assert_eq!(Some(&1), cache.get(&1));
    assert!(cache.get(&2).is_none());
    assert!(cache.get(&3).is_none());
    // A third new key now evicts it: capacity other keys have been touched.
    cache.put(6, 6);
    cache.put(7, 7);
    cache.put(8, 8);
    assert!(cache.get(&1).is_none());
}

#[test]
fn eviction_strikes_least_recently_touched() {
    let mut cache = LruCache::<String, u32>::new(2);
    cache.put("old".to_owned(), 1);
    cache.put("new".to_owned(), 2);
    // Updating "old" makes "new" the least-recently-touched entry.
    cache.put("old".to_owned(), 3);
    cache.put("extra".to_owned(), 4);
    assert!(cache.get(&"new".to_owned()).is_none());
    assert_eq!(Some(&3), cache.get(&"old".to_owned()));
    assert_eq!(Some(&4), cache.get(&"extra".to_owned()));
}

#[test]
fn update_existing_key_keeps_size() {
    let mut cache = LruCache::<String, u32>::new(2);
    cache.put("a".to_owned(), 1);
    cache.put("b".to_owned(), 2);
    assert_eq!(2, cache.size());
    cache.put("a".to_owned(), 9);
    // No eviction happened: both keys are still present, "a" holds the new
    // value.
    assert_eq!(2, cache.size());
    assert_eq!(Some(&9), cache.get(&"a".to_owned()));
    assert_eq!(Some(&2), cache.get(&"b".to_owned()));
}

#[test]
fn capacity_one_always_evicts_sole_entry() {
    let mut cache = LruCache::<u32, u32>::new(1);
    cache.put(1, 10);
    assert_eq!(1, cache.size());
    cache.put(2, 20);
    assert_eq!(1, cache.size());
    assert!(cache.get(&1).is_none());
    assert_eq!(Some(&20), cache.get(&2));
}

#[test]
fn get_on_empty_or_missing_never_mutates() {
    let mut cache = LruCache::<u32, u32>::new(2);
    assert!(cache.get(&7).is_none());
    assert_eq!(0, cache.size());
    cache.put(1, 1);
    assert!(cache.get(&7).is_none());
    assert_eq!(1, cache.size());
    assert_eq!(Some(&1), cache.get(&1));
}
