use diskclear::cache::{HashCache, MAX_ENTRIES};

#[test]
fn cache_hit_requires_same_size_and_mtime() {
    let mut c = HashCache::new();
    c.put(r"C:\a.bin", 100, 500, "deadbeef".to_string());
    assert_eq!(c.get(r"C:\a.bin", 100, 500).as_deref(), Some("deadbeef"));
    assert_eq!(c.get(r"C:\a.bin", 101, 500), None);
    assert_eq!(c.get(r"C:\a.bin", 100, 501), None);
    assert_eq!(c.get(r"C:\other.bin", 100, 500), None);
}

#[test]
fn cache_put_replaces_earlier_record() {
    let mut c = HashCache::new();
    c.put(r"C:\a.bin", 100, 500, "old".to_string());
    c.put(r"C:\a.bin", 200, 600, "new".to_string());
    assert_eq!(c.get(r"C:\a.bin", 100, 500), None);
    assert_eq!(c.get(r"C:\a.bin", 200, 600).as_deref(), Some("new"));
}

#[test]
fn cache_marks_dirty_until_taken() {
    let mut c = HashCache::new();
    assert!(!c.take_dirty());
    c.put(r"C:\x.bin", 1, 2, "h".to_string());
    assert!(c.take_dirty());
    assert!(!c.take_dirty());
}

#[test]
fn full_cache_keeps_known_paths_and_empties_for_a_new_one() {
    let mut c = HashCache::new();
    for i in 0..MAX_ENTRIES {
        c.put(&format!("p{}", i), 1, 1, "h".to_string());
    }
    assert_eq!(c.saved_entries().len(), MAX_ENTRIES);
    c.put("p7", 2, 2, "h2".to_string());
    assert_eq!(c.saved_entries().len(), MAX_ENTRIES);
    assert_eq!(c.get("p8", 1, 1).as_deref(), Some("h"));
    c.put("new", 3, 3, "h3".to_string());
    assert_eq!(c.saved_entries().len(), 1);
    assert_eq!(c.get("new", 3, 3).as_deref(), Some("h3"));
    assert_eq!(c.get("p8", 1, 1), None);
}
