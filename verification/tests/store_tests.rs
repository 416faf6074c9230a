//! History store tests: dedup, listing, search, pinning, and eviction.

use wayclip::store::Database;
use wayclip::types::ContentType;

fn insert(db: &mut Database, hash: &str, preview: &str, bytes: &[u8], now: i64) -> i64 {
    db.insert_entry(
        hash.to_string(),
        ContentType::Text,
        "text/plain".to_string(),
        preview.to_string(),
        bytes.to_vec(),
        now,
    )
    .unwrap()
}

#[test]
fn insert_assigns_increasing_ids() {
    let mut db = Database::new();
    assert_eq!(insert(&mut db, "h1", "one", b"one", 10), 1);
    assert_eq!(insert(&mut db, "h2", "two", b"two", 11), 2);
    assert_eq!(db.count_entries(), 2);
}

#[test]
fn find_by_hash_hits_and_misses() {
    let mut db = Database::new();
    let id = insert(&mut db, "cafe", "x", b"x", 1);
    assert_eq!(db.find_by_hash("cafe"), Some(id));
    assert_eq!(db.find_by_hash("beef"), None);
}

#[test]
fn touch_updates_last_used_and_count() {
    let mut db = Database::new();
    let id = insert(&mut db, "h", "x", b"x", 100);
    assert_eq!(db.entry_stats(id), Some((100, 100, 1, false)));
    db.touch_by_hash("h", 150);
    assert_eq!(db.entry_stats(id), Some((100, 150, 2, false)));
    db.touch_entry(id, 140);
    // A touch never moves the last use backwards.
    assert_eq!(db.entry_stats(id), Some((100, 150, 3, false)));
}

#[test]
fn get_history_lists_newest_first() {
    let mut db = Database::new();
    insert(&mut db, "h1", "one", b"one", 10);
    insert(&mut db, "h2", "two", b"two", 20);
    insert(&mut db, "h3", "three", b"three", 30);
    let (entries, total) = db.get_history(None, None, None);
    assert_eq!(total, 3);
    let previews: Vec<&str> = entries.iter().map(|e| e.preview.as_str()).collect();
    assert_eq!(previews, vec!["three", "two", "one"]);
}

#[test]
fn get_history_with_limit_zero_returns_total_only() {
    let mut db = Database::new();
    insert(&mut db, "h1", "one", b"one", 10);
    insert(&mut db, "h2", "two", b"two", 20);
    let (entries, total) = db.get_history(Some(0), None, None);
    assert_eq!(entries.len(), 0);
    assert_eq!(total, 2);
}

#[test]
fn get_history_pages_with_limit_and_offset() {
    let mut db = Database::new();
    for i in 0..5 {
        insert(&mut db, &format!("h{}", i), &format!("p{}", i), b"x", 10 + i);
    }
    let (entries, total) = db.get_history(Some(2), Some(1), None);
    assert_eq!(total, 5);
    let previews: Vec<&str> = entries.iter().map(|e| e.preview.as_str()).collect();
    assert_eq!(previews, vec!["p3", "p2"]);
}

#[test]
fn search_filters_case_insensitively_and_counts_matches() {
    let mut db = Database::new();
    insert(&mut db, "h1", "Hello World", b"a", 10);
    insert(&mut db, "h2", "goodbye", b"b", 20);
    insert(&mut db, "h3", "WORLD news", b"c", 30);
    let (entries, total) = db.get_history(None, None, Some("world"));
    assert_eq!(total, 2);
    let previews: Vec<&str> = entries.iter().map(|e| e.preview.as_str()).collect();
    assert_eq!(previews, vec!["WORLD news", "Hello World"]);
    // An empty search filters nothing.
    let (_, total) = db.get_history(None, None, Some(""));
    assert_eq!(total, 3);
}

#[test]
fn get_content_returns_stored_bytes() {
    let mut db = Database::new();
    let id = insert(&mut db, "h", "x", b"payload", 10);
    let (mime, bytes) = db.get_content(id).unwrap();
    assert_eq!(mime, "text/plain");
    assert_eq!(bytes, b"payload".to_vec());
    assert!(db.get_content(id + 1).is_none());
}

#[test]
fn delete_entry_reports_existence() {
    let mut db = Database::new();
    let id = insert(&mut db, "h", "x", b"x", 10);
    assert!(db.delete_entry(id));
    assert!(!db.delete_entry(id));
    assert_eq!(db.count_entries(), 0);
}

#[test]
fn set_pinned_twice_equals_once() {
    let mut db = Database::new();
    let id = insert(&mut db, "h", "x", b"x", 10);
    assert!(db.set_pinned(id, true));
    let once = db.entry_stats(id);
    assert!(db.set_pinned(id, true));
    assert_eq!(db.entry_stats(id), once);
    assert_eq!(db.entry_stats(id).unwrap().3, true);
    assert!(db.set_pinned(id, false));
    let unpinned_once = db.entry_stats(id);
    assert!(db.set_pinned(id, false));
    assert_eq!(db.entry_stats(id), unpinned_once);
    assert!(!db.set_pinned(id + 5, true));
}

#[test]
fn clear_unpinned_spares_pinned_entries() {
    let mut db = Database::new();
    let a = insert(&mut db, "ha", "a", b"a", 10);
    let b = insert(&mut db, "hb", "b", b"b", 20);
    db.set_pinned(b, true);
    db.clear_unpinned();
    assert_eq!(db.count_entries(), 1);
    assert!(db.get_content(a).is_none());
    assert!(db.get_content(b).is_some());
}

#[test]
fn cleanup_evicts_least_recently_used_first() {
    let mut db = Database::new();
    let a = insert(&mut db, "ha", "a", b"a", 10);
    let b = insert(&mut db, "hb", "b", b"b", 11);
    let c = insert(&mut db, "hc", "c", b"c", 12);
    db.touch_entry(a, 50);
    db.cleanup(2);
    assert_eq!(db.count_entries(), 2);
    // `b` had the smallest last use, so it went first.
    assert!(db.get_content(b).is_none());
    assert!(db.get_content(a).is_some());
    assert!(db.get_content(c).is_some());
}

#[test]
fn cleanup_never_evicts_pinned_entries() {
    let mut db = Database::new();
    let a = insert(&mut db, "ha", "a", b"a", 10);
    let b = insert(&mut db, "hb", "b", b"b", 11);
    let c = insert(&mut db, "hc", "c", b"c", 12);
    db.set_pinned(a, true);
    db.set_pinned(b, true);
    db.cleanup(0);
    assert_eq!(db.count_entries(), 2);
    assert!(db.get_content(a).is_some());
    assert!(db.get_content(b).is_some());
    assert!(db.get_content(c).is_none());
}

#[test]
fn sweep_applies_age_rule_before_count_rule() {
    let mut db = Database::new();
    let old_entry = insert(&mut db, "ha", "a", b"a", 86400);
    let young = insert(&mut db, "hb", "b", b"b", 86400 * 10);
    // Two days of retention, evaluated ten days in: the first entry is too old.
    db.sweep(100, 2, 86400 * 10);
    assert!(db.get_content(old_entry).is_none());
    assert!(db.get_content(young).is_some());
    // With the age rule disabled nothing is evicted by age.
    let mut db2 = Database::new();
    insert(&mut db2, "ha", "a", b"a", 0);
    db2.sweep(100, 0, 86400 * 1000);
    assert_eq!(db2.count_entries(), 1);
}
