use cache_lru_project::LruCache;

fn b(s: &str) -> Vec<u8> {
    s.as_bytes().to_vec()
}

#[test]
fn save_writes_tail_to_head() {
    let mut cache: LruCache<Vec<u8>, Vec<u8>> = LruCache::new(3);
    cache.put(b("A"), b("1"));
    cache.put(b("B"), b("2"));
    cache.put(b("C"), b("3"));
    assert_eq!(cache.save_to_bytes(), b("A=1\nB=2\nC=3\n"));
}

#[test]
fn get_reorders_saved_image() {
    let mut cache: LruCache<Vec<u8>, Vec<u8>> = LruCache::new(3);
    cache.put(b("A"), b("1"));
    cache.put(b("B"), b("2"));
    cache.put(b("C"), b("3"));
    cache.get(&b("A"));
    assert_eq!(cache.save_to_bytes(), b("B=2\nC=3\nA=1\n"));
}

#[test]
fn round_trip_preserves_order_and_values() {
    let mut cache: LruCache<Vec<u8>, Vec<u8>> = LruCache::new(3);
    cache.put(b("A"), b("1"));
    cache.put(b("B"), b("2"));
    cache.put(b("C"), b("3"));
    cache.get(&b("B"));
    let saved = cache.save_to_bytes();
    let reloaded = LruCache::new_from_bytes(3, &saved);
    assert_eq!(reloaded.records(), cache.records());
    assert_eq!(reloaded.save_to_bytes(), saved);
}

#[test]
fn load_replays_lines_oldest_first() {
    let text = b("A=1\nB=2\nC=3\n");
    let cache = LruCache::new_from_bytes(4, &text);
    assert_eq!(
        cache.records(),
        vec![(b("C"), b("3")), (b("B"), b("2")), (b("A"), b("1"))]
    );
}

#[test]
fn load_skips_lines_without_delimiter() {
    let text = b("A=1\nno delimiter here\nB=2\n");
    let cache = LruCache::new_from_bytes(4, &text);
    assert_eq!(cache.records(), vec![(b("B"), b("2")), (b("A"), b("1"))]);
}

#[test]
fn load_evicts_when_file_exceeds_capacity() {
    let text = b("A=1\nB=2\nC=3\n");
    let cache = LruCache::new_from_bytes(2, &text);
    assert_eq!(cache.records(), vec![(b("C"), b("3")), (b("B"), b("2"))]);
}

#[test]
fn value_may_contain_delimiter() {
    let text = b("A=x=y\n");
    let cache = LruCache::new_from_bytes(2, &text);
    assert_eq!(cache.records(), vec![(b("A"), b("x=y"))]);
}

#[test]
fn empty_image_gives_empty_cache() {
    let empty: Vec<u8> = Vec::new();
    let cache = LruCache::new_from_bytes(4, &empty);
    assert_eq!(cache.len(), 0);
    assert_eq!(cache.save_to_bytes(), Vec::<u8>::new());
}

#[test]
fn unterminated_final_line_still_counts() {
    let text = b("A=1\nB=2");
    let cache = LruCache::new_from_bytes(4, &text);
    assert_eq!(cache.records(), vec![(b("B"), b("2")), (b("A"), b("1"))]);
}

#[test]
fn empty_key_and_value_survive() {
    let text = b("=\n");
    let cache = LruCache::new_from_bytes(2, &text);
    assert_eq!(cache.records(), vec![(b(""), b(""))]);
}

#[test]
fn duplicate_keys_in_file_keep_last_value() {
    let text = b("A=1\nA=2\n");
    let cache = LruCache::new_from_bytes(4, &text);
    assert_eq!(cache.records(), vec![(b("A"), b("2"))]);
}
