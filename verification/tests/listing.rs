use std::collections::HashMap;

use roses::feedbin::Entry;
use roses::ui::format_unread;

fn entry(feed_id: i64, title: Option<&str>, url: Option<&str>) -> Entry {
    Entry {
        id: 1,
        feed_id,
        title: title.map(str::to_string),
        url: url.map(str::to_string),
        author: None,
        published: None,
        summary: None,
        content: None,
        images: None,
        enclosure: None,
        json_feed: None,
    }
}

#[test]
fn empty_unread_is_friendly() {
    let out = format_unread(&[], &HashMap::new(), 0);
    assert!(out.to_lowercase().contains("caught up"), "expected a friendly empty message, got: {out}");
}

#[test]
fn lists_titles_with_feed_names_and_a_count() {
    let mut feeds = HashMap::new();
    feeds.insert(7, "Rust Blog".to_string());
    let entries = vec![entry(7, Some("Releasing 1.0"), Some("https://example.com/1")), entry(99, None, None)];
    let out = format_unread(&entries, &feeds, 42);
    assert!(out.contains("showing 2 of 42"), "{out}");
    assert!(out.contains("Releasing 1.0"), "{out}");
    assert!(out.contains("Rust Blog"), "{out}");
    assert!(out.contains("https://example.com/1"), "{out}");
    assert!(out.contains("(untitled)"), "{out}");
    assert!(out.contains("(unknown feed)"), "{out}");
}

#[test]
fn entry_without_url_omits_the_separator() {
    let mut feeds = HashMap::new();
    feeds.insert(7, "Rust Blog".to_string());
    let out = format_unread(&[entry(7, Some("No link here"), None)], &feeds, 1);
    assert!(out.contains("No link here"), "{out}");
    assert!(out.contains("Rust Blog"), "{out}");
    assert!(!out.contains('·'), "no URL means no ' · ' separator: {out}");
}

#[test]
fn listing_has_the_exact_layout() {
    let mut feeds = HashMap::new();
    feeds.insert(7, "Rust Blog".to_string());
    let out = format_unread(&[entry(7, Some("A"), Some("https://a")), entry(8, Some("B"), None)], &feeds, 5);
    assert_eq!(
        out,
        "Unread entries (showing 2 of 5):\n\n1. A\n   Rust Blog · https://a\n2. B\n   (unknown feed)\n"
    );
    assert_eq!(format_unread(&[], &feeds, 0), "You're all caught up — no unread entries.\n");
}
