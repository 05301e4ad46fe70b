use ciforest::tree::transform::feature_keys;
use ciforest::tree::transform::may_grow;
use ciforest::tree::transform::FeatureCache;

#[test]
fn keys_go_interval_by_interval() {
    let keys = feature_keys(7, &vec![(0, 3), (2, 9)], &vec![5, 1, 22]);
    assert_eq!(
        keys,
        vec![(7, 0, 3, 5), (7, 0, 3, 1), (7, 0, 3, 22), (7, 2, 9, 5), (7, 2, 9, 1), (7, 2, 9, 22)]
    );
}

#[test]
fn no_intervals_or_no_descriptors_give_no_keys() {
    assert!(feature_keys(1, &vec![], &vec![1, 2]).is_empty());
    assert!(feature_keys(1, &vec![(0, 3)], &vec![]).is_empty());
}

#[test]
fn a_table_may_grow_under_four_fifths_of_the_memory() {
    // A table of 10 entries counts for 2 * 10 * 41 = 820 bytes.
    assert!(!may_grow(10, 1025)); // four fifths of 1025 are 820
    assert!(!may_grow(10, 1026)); // four fifths of 1026 are 820.8, cut to 820
    assert!(may_grow(10, 1027)); // four fifths of 1027 are 821.6, cut to 821
    assert!(!may_grow(0, 0));
    assert!(!may_grow(0, 1));
    assert!(may_grow(0, 2));
    assert!(!may_grow(usize::MAX, usize::MAX));
}

#[test]
fn what_is_stored_is_read_again() {
    let mut cache = FeatureCache::new(1 << 30);
    assert_eq!(cache.get((1, 0, 3, 4)), None);
    assert!(cache.offer((1, 0, 3, 4), 99));
    assert_eq!(cache.get((1, 0, 3, 4)), Some(99));
    assert_eq!(cache.get((1, 0, 3, 4)), Some(99));
    assert_eq!(cache.get((1, 0, 3, 5)), None);
    assert_eq!(cache.get((2, 0, 3, 4)), None);
    assert!(cache.offer((1, 0, 3, 5), -7));
    assert_eq!(cache.get((1, 0, 3, 4)), Some(99));
    assert_eq!(cache.get((1, 0, 3, 5)), Some(-7));
    assert!(cache.offer((1, 0, 3, 4), 100));
    assert_eq!(cache.get((1, 0, 3, 4)), Some(100));
}

#[test]
fn a_cache_without_memory_never_grows() {
    let mut cache = FeatureCache::new(0);
    assert!(!cache.offer((1, 0, 3, 4), 99));
    assert_eq!(cache.get((1, 0, 3, 4)), None);
    assert!(!cache.offer((1, 0, 3, 4), 99));
    assert_eq!(cache.get((1, 0, 3, 4)), None);
}

#[test]
fn a_full_cache_keeps_what_it_has() {
    let mut cache = FeatureCache::new(1 << 30);
    assert!(cache.offer_at((1, 0, 3, 4), 5, 10));
    // Told of a table too large for the memory, the cache refuses.
    assert!(!cache.offer_at((1, 0, 3, 9), 6, usize::MAX));
    assert!(!cache.offer_at((1, 0, 3, 4), 7, usize::MAX));
    assert_eq!(cache.get((1, 0, 3, 4)), Some(5));
    assert_eq!(cache.get((1, 0, 3, 9)), None);
}

#[test]
fn a_cleared_cache_is_empty() {
    let mut cache = FeatureCache::new(1 << 30);
    assert!(cache.offer((1, 0, 3, 4), 99));
    cache.clear();
    assert_eq!(cache.get((1, 0, 3, 4)), None);
    assert!(cache.offer((1, 0, 3, 4), 98));
    assert_eq!(cache.get((1, 0, 3, 4)), Some(98));
}
