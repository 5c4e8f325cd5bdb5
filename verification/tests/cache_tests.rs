use retiler::dataset_cache::DatasetCache;
use retiler::dataset_cache::DatasetCacheResult;

fn reserve(cache: &mut DatasetCache, key: &str) -> usize {
    match cache.access_mut(key) {
        DatasetCacheResult::Invalid(offset) => offset,
        DatasetCacheResult::Valid(_) => panic!("key unexpectedly resident"),
    }
}

#[test]
fn lru_evicts_least_recently_touched() {
    let mut cache = DatasetCache::new(4, 2);

    // unknown key "a": miss, evict, fill
    let off_a = reserve(&mut cache, "a");
    cache.fill_slot(off_a, &vec![1, 2, 3, 4]);

    // unknown key "b": miss, evicts the other slot, fill
    let off_b = reserve(&mut cache, "b");
    assert_ne!(off_a, off_b);
    cache.fill_slot(off_b, &vec![5, 6, 7, 8]);

    // "a" again: hit
    assert_eq!(cache.access("a"), Some(off_a));

    // unknown key "c": must evict "b", the least-recently-touched, not "a"
    let off_c = reserve(&mut cache, "c");
    assert_eq!(off_c, off_b);
    assert_eq!(cache.access("b"), None);
    assert_eq!(cache.access("a"), Some(off_a));
    assert_eq!(cache.read_slot(off_a), vec![1, 2, 3, 4]);
}

#[test]
fn hit_returns_same_buffer_without_eviction() {
    let mut cache = DatasetCache::new(2, 2);
    let off = reserve(&mut cache, "k");
    cache.fill_slot(off, &vec![9, 9]);
    match cache.access_mut("k") {
        DatasetCacheResult::Valid(offset) => assert_eq!(offset, off),
        DatasetCacheResult::Invalid(_) => panic!("resident key reported missing"),
    }
    assert_eq!(cache.read_slot(off), vec![9, 9]);
}

#[test]
fn read_only_probe_of_absent_key_does_not_evict() {
    let mut cache = DatasetCache::new(2, 1);
    let off = reserve(&mut cache, "k");
    cache.fill_slot(off, &vec![1, 2]);
    assert_eq!(cache.access("other"), None);
    // "k" is still resident afterwards
    assert_eq!(cache.access("k"), Some(off));
}

#[test]
fn slots_start_zero_filled() {
    let cache = DatasetCache::new(3, 2);
    assert_eq!(cache.read_slot(0), vec![0, 0, 0]);
    assert_eq!(cache.read_slot(3), vec![0, 0, 0]);
}
