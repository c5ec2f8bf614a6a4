use roses::feedbin::Entry;
use std::collections::HashMap;

use roses::store::{data_dir_from, db_path, seed_load, snapshot_unread_ids, stale_unread, validator_keys, CachedSnapshot};

fn entry(id: i64) -> Entry {
    Entry {
        id,
        feed_id: 7,
        title: None,
        url: None,
        author: None,
        published: None,
        summary: None,
        content: None,
        images: None,
        enclosure: None,
        json_feed: None,
    }
}

#[test]
fn stale_unread_lists_the_absent() {
    assert_eq!(stale_unread(&[2, 1], &[2, 1]), Vec::<i64>::new());
    assert_eq!(stale_unread(&[2, 1], &[2]), vec![1]);
    assert_eq!(stale_unread(&[5, 4, 3], &[9]), vec![5, 4, 3]);
}

#[test]
fn snapshot_unread_set_is_entries_then_pending() {
    assert_eq!(snapshot_unread_ids(&[entry(3), entry(2)], &[1]), vec![3, 2, 1]);
}

#[test]
fn validators_live_under_endpoint_keys() {
    let (etag, modified) = validator_keys("unread");
    assert_eq!(etag, "unread.etag");
    assert_eq!(modified, "unread.last_modified");
}

#[test]
fn data_dir_follows_xdg() {
    assert_eq!(data_dir_from(Some("/x/data"), "/home/r"), "/x/data/roses");
    assert_eq!(data_dir_from(Some(""), "/home/r"), "/home/r/.local/share/roses");
    assert_eq!(data_dir_from(None, "/home/r"), "/home/r/.local/share/roses");
    assert_eq!(db_path("/home/r/.local/share/roses"), "/home/r/.local/share/roses/roses.db");
}

#[test]
fn seeding_from_the_cache_counts_loaded_and_pending() {
    let e = |id: i64| Entry {
        id,
        feed_id: 1,
        title: None,
        url: None,
        author: None,
        published: None,
        summary: None,
        content: None,
        images: None,
        enclosure: None,
        json_feed: None,
    };
    let snap = CachedSnapshot { entries: vec![e(9), e(8)], feed_titles: HashMap::new(), total_unread: 5 };
    let loaded = seed_load(snap, &vec![9, 8, 7, 6, 5]).expect("entries were cached");
    assert_eq!(loaded.entries.len(), 2);
    assert_eq!(loaded.pending_ids, vec![7, 6, 5], "the rest of the cached unread set waits to be hydrated");
    assert_eq!(loaded.total_unread, 5);
    let empty = CachedSnapshot { entries: Vec::new(), feed_titles: HashMap::new(), total_unread: 0 };
    assert!(seed_load(empty, &Vec::new()).is_none());
}
