use cache_lru_project::Cache;
use cache_lru_project::LruCache;

#[test]
fn test_simple_put_get() {
    let mut cache = LruCache::new(2);
    cache.put("A", 1);
    cache.put("B", 2);
    assert_eq!(cache.get(&"A"), Some(&1));
    assert_eq!(cache.get(&"B"), Some(&2));
}

#[test]
fn test_eviction_lru() {
    let mut cache = LruCache::new(2);
    cache.put("A", 1);
    cache.put("B", 2);
    cache.get(&"A");
    cache.put("C", 3);
    assert_eq!(cache.get(&"B"), None);
    assert_eq!(cache.get(&"A"), Some(&1));
    assert_eq!(cache.get(&"C"), Some(&3));
}

#[test]
fn trait_interface_matches_inherent_behaviour() {
    let mut cache: LruCache<&str, i32> = <LruCache<&str, i32> as Cache<&str, i32>>::new(2);
    <LruCache<&str, i32> as Cache<&str, i32>>::put(&mut cache, "A", 1);
    <LruCache<&str, i32> as Cache<&str, i32>>::put(&mut cache, "B", 2);
    assert_eq!(<LruCache<&str, i32> as Cache<&str, i32>>::len(&cache), 2);
    assert_eq!(
        <LruCache<&str, i32> as Cache<&str, i32>>::get(&mut cache, &"A"),
        Some(&1)
    );
}

#[test]
fn len_stays_within_capacity() {
    let mut cache = LruCache::new(2);
    assert_eq!(cache.len(), 0);
    cache.put("A", 1);
    assert_eq!(cache.len(), 1);
    cache.put("B", 2);
    assert_eq!(cache.len(), 2);
    cache.put("C", 3);
    assert_eq!(cache.len(), 2);
    cache.put("C", 4);
    assert_eq!(cache.len(), 2);
}

#[test]
fn update_existing_key_keeps_length_and_rewrites_value() {
    let mut cache = LruCache::new(2);
    cache.put("k", 1);
    cache.put("k", 2);
    assert_eq!(cache.len(), 1);
    assert_eq!(cache.get(&"k"), Some(&2));
}

#[test]
fn miss_changes_nothing() {
    let mut cache = LruCache::new(2);
    cache.put("A", 1);
    assert_eq!(cache.get(&"Z"), None);
    assert_eq!(cache.len(), 1);
    assert_eq!(cache.get(&"A"), Some(&1));
}

#[test]
fn string_keys_work() {
    let mut cache: LruCache<String, String> = LruCache::new(2);
    cache.put("one".to_string(), "1".to_string());
    cache.put("two".to_string(), "2".to_string());
    assert_eq!(cache.get(&"one".to_string()), Some(&"1".to_string()));
    cache.put("three".to_string(), "3".to_string());
    assert_eq!(cache.get(&"two".to_string()), None);
}

#[test]
fn scenario_capacity_three() {
    // keys arrive in the order A, B, C, D, B, A, E; each miss is followed
    // by an insertion of the key itself, as the demonstration driver does
    let mut cache = LruCache::new(3);
    cache.put("A", "A");
    cache.put("B", "B");
    cache.put("C", "C");
    cache.put("D", "D");
    assert_eq!(cache.get(&"B"), Some(&"B"));
    assert_eq!(cache.get(&"A"), None);
    cache.put("A", "A");
    assert_eq!(cache.get(&"E"), None);
    cache.put("E", "E");
    assert_eq!(cache.len(), 3);
    assert_eq!(cache.get(&"C"), None);
    assert_eq!(cache.get(&"D"), None);
    assert_eq!(cache.get(&"B"), Some(&"B"));
    assert_eq!(cache.get(&"A"), Some(&"A"));
    assert_eq!(cache.get(&"E"), Some(&"E"));
}

#[test]
fn repeated_get_promotes_only_once() {
    let mut cache: LruCache<Vec<u8>, Vec<u8>> = LruCache::new(3);
    cache.put(b"A".to_vec(), b"1".to_vec());
    cache.put(b"B".to_vec(), b"2".to_vec());
    cache.put(b"C".to_vec(), b"3".to_vec());
    cache.get(&b"B".to_vec());
    let once = cache.records();
    cache.get(&b"B".to_vec());
    cache.get(&b"B".to_vec());
    assert_eq!(cache.records(), once);
    assert_eq!(cache.len(), 3);
}
