use feed_watch::store::SeenItems;

#[test]
fn new_store_knows_nothing() {
    let s = SeenItems::new();
    assert!(!s.contains("http://feed", "http://x/a"));
    assert!(s.to_records().is_empty());
}

#[test]
fn mark_seen_then_contains() {
    let mut s = SeenItems::new();
    s.mark_seen("http://feed", "http://x/a");
    assert!(s.contains("http://feed", "http://x/a"));
    assert!(!s.contains("http://feed", "http://x/b"));
    assert!(!s.contains("http://feed/", "http://x/a"));
    assert!(!s.contains("http://other", "http://x/a"));
}

#[test]
fn mark_seen_is_idempotent() {
    let mut s = SeenItems::new();
    s.mark_seen("u", "k");
    s.mark_seen("u", "k");
    let rs = s.to_records();
    assert_eq!(rs, vec![("u".to_string(), vec!["k".to_string()])]);
}

#[test]
fn add_feed_keeps_keys() {
    let mut s = SeenItems::new();
    s.add_feed("u");
    assert_eq!(s.to_records(), vec![("u".to_string(), Vec::<String>::new())]);
    s.mark_seen("u", "k");
    s.add_feed("u");
    assert!(s.contains("u", "k"));
}

#[test]
fn save_then_load_keeps_membership() {
    let mut s = SeenItems::new();
    s.mark_seen("f1", "a");
    s.mark_seen("f1", "b");
    s.mark_seen("f2", "c");
    s.add_feed("f3");
    let saved = s.to_records();
    let loaded = SeenItems::from_records(&saved);
    for (u, k) in [("f1", "a"), ("f1", "b"), ("f2", "c")] {
        assert!(loaded.contains(u, k));
    }
    assert!(!loaded.contains("f2", "a"));
    assert!(!loaded.contains("f3", "a"));
    assert_eq!(loaded.to_records(), saved);
}

#[test]
fn from_records_merges_repeated_feed() {
    let rs = vec![
        ("u".to_string(), vec!["a".to_string(), "a".to_string()]),
        ("u".to_string(), vec!["b".to_string()]),
    ];
    let s = SeenItems::from_records(&rs);
    assert!(s.contains("u", "a"));
    assert!(s.contains("u", "b"));
    assert_eq!(s.to_records(), vec![("u".to_string(), vec!["a".to_string(), "b".to_string()])]);
}

#[test]
fn saved_records_have_one_per_feed_and_distinct_keys() {
    let mut s = SeenItems::new();
    s.mark_seen("http://x/feed", "http://x/a");
    s.mark_seen("http://x/feed", "No link");
    s.mark_seen("http://x/feed", "No link");
    let rs = s.to_records();
    assert_eq!(rs.len(), 1);
    assert_eq!(rs[0].0, "http://x/feed");
    let mut keys = rs[0].1.clone();
    keys.sort();
    assert_eq!(keys, vec!["No link".to_string(), "http://x/a".to_string()]);
}
