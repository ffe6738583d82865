use mdbook_linkcheck::cache::{Cache, CacheEntry};

#[test]
fn entries_remember_their_time() {
    let entry = CacheEntry::new(1_000, true);
    assert_eq!(entry, CacheEntry { unix_timestamp: 1_000, successful: true });
    assert_eq!(entry.elapsed(1_000), 0);
    assert_eq!(entry.elapsed(1_250), 250);
}

#[test]
fn an_entry_is_valid_while_it_is_young_and_successful() {
    let entry = CacheEntry::new(1_000, true);
    assert!(entry.is_still_valid(1_000, 1));
    assert!(entry.is_still_valid(1_099, 100));
    assert!(!entry.is_still_valid(1_100, 100));
    assert!(!entry.is_still_valid(999, 100));
    assert!(!entry.is_still_valid(1_000, 0));
    assert!(!CacheEntry::new(1_000, false).is_still_valid(1_001, 100));
}

#[test]
fn lookups_are_counted() {
    let mut cache = Cache::new();
    assert_eq!(cache.cache_hits(), 0);
    assert_eq!(cache.cache_misses(), 0);
    assert_eq!(cache.lookup("https://example.com/"), None);
    assert_eq!(cache.cache_misses(), 1);

    cache.insert("https://example.com/".to_string(), CacheEntry::new(5, true));
    assert_eq!(cache.lookup("https://example.com/"), Some(CacheEntry::new(5, true)));
    assert_eq!(cache.lookup("https://example.com/"), Some(CacheEntry::new(5, true)));
    assert_eq!(cache.lookup("https://example.org/"), None);
    assert_eq!(cache.cache_hits(), 2);
    assert_eq!(cache.cache_misses(), 2);

    cache.reset_counters();
    assert_eq!(cache.cache_hits(), 0);
    assert_eq!(cache.cache_misses(), 0);
    assert_eq!(cache.lookup("https://example.com/"), Some(CacheEntry::new(5, true)));
}

#[test]
fn a_later_entry_replaces_the_earlier_one() {
    let mut cache = Cache::default();
    cache.insert("a".to_string(), CacheEntry::new(1, true));
    cache.insert("b".to_string(), CacheEntry::new(2, true));
    cache.insert("a".to_string(), CacheEntry::new(3, false));
    assert_eq!(cache.lookup("a"), Some(CacheEntry::new(3, false)));
    assert_eq!(cache.lookup("b"), Some(CacheEntry::new(2, true)));
    assert_eq!(
        cache.entries(),
        vec![
            ("a".to_string(), CacheEntry::new(3, false)),
            ("b".to_string(), CacheEntry::new(2, true)),
        ]
    );
}

#[test]
fn a_cache_comes_back_from_its_entries() {
    let entries = vec![
        ("a".to_string(), CacheEntry::new(1, true)),
        ("b".to_string(), CacheEntry::new(2, true)),
        ("a".to_string(), CacheEntry::new(3, false)),
    ];
    let mut cache = Cache::from_entries(entries);
    assert_eq!(cache.entries().len(), 2);
    assert_eq!(cache.lookup("a"), Some(CacheEntry::new(3, false)));
    assert_eq!(cache.lookup("b"), Some(CacheEntry::new(2, true)));
    assert_eq!(cache.lookup("c"), None);
    let again = Cache::from_entries(cache.entries());
    assert_eq!(again.entries(), cache.entries());
}

#[test]
fn a_new_cache_lists_nothing() {
    let mut cache = Cache::new();
    assert!(cache.entries().is_empty());
    assert_eq!(cache.cache_hits(), 0);
    assert_eq!(cache.cache_misses(), 0);
    assert_eq!(cache.lookup("https://example.com/"), None);
    assert!(Cache::default().entries().is_empty());
}
