use roses::feedbin::{
    api_url, check_status, feed_titles_from, id_chunks, ids_csv, write_body, Entry, EntryImages, ImageSize, Import,
    ImportItem, JsonFeed, Subscription, Validators, MAX_IDS_PER_REQUEST, MAX_UNREAD_IDS_PER_REQUEST,
};
use roses::feedbin::Enclosure;

#[test]
fn import_tally_counts_pending_and_unknown_statuses() {
    let import = Import {
        id: 1,
        complete: false,
        import_items: vec![
            ImportItem { feed_url: Some("https://a/feed".to_string()), status: "pending".to_string() },
            ImportItem { feed_url: None, status: "queued".to_string() },
        ],
    };
    let tally = import.tally();
    assert_eq!(tally.complete, 0);
    assert_eq!(tally.failed, 0);
    assert_eq!(tally.pending, 2);
    assert!(tally.failed_urls.is_empty());
}

#[test]
fn import_tally_collects_failed_urls() {
    let import = Import {
        id: 2,
        complete: true,
        import_items: vec![
            ImportItem { feed_url: Some("https://ok".to_string()), status: "complete".to_string() },
            ImportItem { feed_url: Some("https://bad".to_string()), status: "failed".to_string() },
            ImportItem { feed_url: None, status: "failed".to_string() },
        ],
    };
    let tally = import.tally();
    assert_eq!((tally.complete, tally.pending, tally.failed), (1, 0, 2));
    assert_eq!(tally.failed_urls, vec!["https://bad".to_string()]);
}

#[test]
fn entry_accessors_reach_into_extended_objects() {
    let mut e = Entry {
        id: 1,
        feed_id: 2,
        title: None,
        url: None,
        author: None,
        published: None,
        summary: None,
        content: None,
        images: Some(Box::new(EntryImages { size_1: Some(ImageSize { cdn_url: Some("https://cdn/x".to_string()) }) })),
        enclosure: Some(Box::new(Enclosure {
            enclosure_url: Some("https://m.mp3".to_string()),
            enclosure_type: None,
            itunes_duration: None,
        })),
        json_feed: Some(Box::new(JsonFeed { external_url: Some("https://ext".to_string()) })),
    };
    assert_eq!(e.lead_image_url(), Some("https://cdn/x"));
    assert_eq!(e.enclosure_url(), Some("https://m.mp3"));
    assert_eq!(e.external_url(), Some("https://ext"));
    e.images = Some(Box::new(EntryImages { size_1: None }));
    e.enclosure = None;
    e.json_feed = Some(Box::new(JsonFeed { external_url: None }));
    assert_eq!(e.lead_image_url(), None);
    assert_eq!(e.enclosure_url(), None);
    assert_eq!(e.external_url(), None);
}

#[test]
fn entries_batch_at_the_id_limit() {
    let ids: Vec<i64> = (1..=250).collect();
    let chunks = id_chunks(&ids, MAX_IDS_PER_REQUEST);
    assert_eq!(chunks.len(), 3);
    assert_eq!(chunks[0].len(), 100);
    assert_eq!(chunks[2], (201..=250).collect::<Vec<i64>>());
    assert_eq!(chunks.concat(), ids);
    assert!(id_chunks(&[], MAX_UNREAD_IDS_PER_REQUEST).is_empty(), "no ids, no request");
    assert_eq!(id_chunks(&ids, MAX_UNREAD_IDS_PER_REQUEST).len(), 1);
}

#[test]
fn write_bodies_are_json_id_lists() {
    assert_eq!(write_body("unread_entries", &[5, 6]), "{\"unread_entries\":[5,6]}");
    assert_eq!(write_body("updated_entries", &[]), "{\"updated_entries\":[]}");
    assert_eq!(ids_csv(&[1013, -2, 2000000]), "1013,-2,2000000");
}

#[test]
fn status_errors_are_actionable() {
    assert!(check_status(200, "200 OK", "").is_ok());
    assert!(check_status(204, "204 No Content", "").is_ok());
    let err = check_status(401, "401 Unauthorized", "nope").unwrap_err();
    assert!(err.contains("401"), "error should name the 401 status: {err}");
    assert!(err.contains("roses logout"));
    assert_eq!(
        check_status(500, "500 Internal Server Error", "  boom \n").unwrap_err(),
        "Feedbin request failed (HTTP 500 Internal Server Error): boom"
    );
    assert_eq!(check_status(404, "404 Not Found", "   ").unwrap_err(), "Feedbin request failed (HTTP 404 Not Found)");
    let long = "x".repeat(300);
    let err = check_status(502, "502 Bad Gateway", &long).unwrap_err();
    assert_eq!(err.len(), "Feedbin request failed (HTTP 502 Bad Gateway): ".len() + 200, "snippet capped at 200 chars");
}

#[test]
fn feed_titles_skip_untitled_feeds() {
    let subs = vec![
        Subscription { feed_id: 7, title: Some("Rust Blog".to_string()), feed_url: None, site_url: None },
        Subscription { feed_id: 8, title: None, feed_url: None, site_url: None },
    ];
    let titles = feed_titles_from(subs);
    assert_eq!(titles.len(), 1);
    assert_eq!(titles.get(&7).map(String::as_str), Some("Rust Blog"));
}

#[test]
fn api_urls_join_without_double_slashes() {
    assert_eq!(api_url("https://api.feedbin.com/v2/", "entries.json"), "https://api.feedbin.com/v2/entries.json");
    assert_eq!(api_url("http://127.0.0.1:1234/v2", "imports/3.json"), "http://127.0.0.1:1234/v2/imports/3.json");
}

#[test]
fn validators_default_to_empty() {
    let v = Validators::default();
    assert!(v.etag.is_none() && v.last_modified.is_none());
}

#[test]
fn import_status_reports_completion_and_tally() {
    // A finished import: two feeds subscribed, one dead.
    let import = Import {
        id: 6,
        complete: true,
        import_items: vec![
            ImportItem { feed_url: Some("https://a/feed".to_string()), status: "complete".to_string() },
            ImportItem { feed_url: Some("https://b/feed".to_string()), status: "complete".to_string() },
            ImportItem { feed_url: Some("https://dead/feed".to_string()), status: "failed".to_string() },
        ],
    };
    assert!(import.complete);
    let tally = import.tally();
    assert_eq!((tally.complete, tally.pending, tally.failed), (2, 0, 1));
    assert_eq!(tally.failed_urls, vec!["https://dead/feed".to_string()]);
}
