use roses::opml::OpmlFeed;
use roses::commands::sort_by_keys;
use roses::commands::{
    export_feeds, export_message, import_report, importing_message, is_blank, keep_polling, newest_ids, parse_command,
    skipped_message, Command,
};
use roses::feedbin::{Import, ImportItem, Subscription};

fn args(v: &[&str]) -> Vec<String> {
    v.iter().map(|s| s.to_string()).collect()
}

#[test]
fn commands_parse_from_the_arguments() {
    assert_eq!(parse_command(&args(&[])), Ok(Command::Tui));
    assert_eq!(parse_command(&args(&["list"])), Ok(Command::List));
    assert_eq!(parse_command(&args(&["export"])), Ok(Command::Export(None)));
    assert_eq!(parse_command(&args(&["export", "out.opml"])), Ok(Command::Export(Some("out.opml".to_string()))));
    assert_eq!(parse_command(&args(&["import"])), Ok(Command::Import(None)));
    assert_eq!(parse_command(&args(&["logout"])), Ok(Command::Logout));
    assert_eq!(parse_command(&args(&["preview"])), Ok(Command::Preview));
    assert_eq!(
        parse_command(&args(&["frobnicate"])),
        Err("unknown command \"frobnicate\". Usage: roses [list | export [FILE] | import FILE | logout | preview]"
            .to_string())
    );
}

#[test]
fn list_takes_the_twenty_newest_ids() {
    let ids = newest_ids((1..=30).collect());
    assert_eq!(ids, (11..=30).rev().collect::<Vec<i64>>());
    assert_eq!(newest_ids(vec![2, 5]), vec![5, 2]);
}

fn sub(feed_id: i64, title: Option<&str>, feed_url: Option<&str>, site_url: Option<&str>) -> Subscription {
    Subscription {
        feed_id,
        title: title.map(str::to_string),
        feed_url: feed_url.map(str::to_string),
        site_url: site_url.map(str::to_string),
    }
}

#[test]
fn export_labels_and_sorts_feeds() {
    let (feeds, skipped) = export_feeds(vec![
        sub(1, Some("zeta"), Some("https://z/feed"), Some("https://z")),
        sub(2, None, None, None),
        sub(3, Some("  "), Some("https://b/feed"), None),
        sub(4, Some("Alpha"), Some("https://a/feed"), None),
    ]);
    assert_eq!(skipped, 1, "a subscription with no feed URL is skipped");
    let labels: Vec<&str> = feeds.iter().map(|f| f.text.as_str()).collect();
    assert_eq!(labels, vec!["Alpha", "https://b/feed", "zeta"], "sorted case-insensitively by label");
    assert_eq!(feeds[2].html_url.as_deref(), Some("https://z"));
}

#[test]
fn export_and_import_messages() {
    assert_eq!(export_message(1, Some("subs.opml")), "Exported 1 subscription to subs.opml.");
    assert_eq!(export_message(3, None), "Exported 3 subscriptions.");
    assert_eq!(skipped_message(0), None);
    assert_eq!(skipped_message(2).as_deref(), Some("Skipped 2 feed(s) with no feed URL."));
    assert_eq!(importing_message(0), None);
    assert_eq!(importing_message(1).as_deref(), Some("Importing 1 feed…"));
    assert_eq!(importing_message(4).as_deref(), Some("Importing 4 feeds…"));
}

#[test]
fn blank_files_have_nothing_to_import() {
    assert!(is_blank(b""));
    assert!(is_blank(b" \n\t\r\x0c"));
    assert!(!is_blank(b" <opml/> "));
    assert!(!is_blank(b"\x0b"), "vertical tab is not ASCII whitespace here");
}

#[test]
fn import_report_summarizes_the_tally() {
    let done = Import {
        id: 7,
        complete: true,
        import_items: vec![
            ImportItem { feed_url: Some("https://a".to_string()), status: "complete".to_string() },
            ImportItem { feed_url: Some("https://b".to_string()), status: "failed".to_string() },
        ],
    };
    assert_eq!(import_report(&done), vec!["Done: 1 complete, 1 failed.".to_string(), "  failed: https://b".to_string()]);
    let running = Import {
        id: 8,
        complete: false,
        import_items: vec![ImportItem { feed_url: None, status: "pending".to_string() }],
    };
    assert_eq!(
        import_report(&running),
        vec!["Still processing after 300s: 0 complete, 1 pending, 0 failed. Re-run later or check Feedbin (import #8)."
            .to_string()]
    );
    assert!(keep_polling(false, 0));
    assert!(!keep_polling(true, 0));
    assert!(!keep_polling(false, 150));
}

#[test]
fn export_sort_ignores_case() {
    let (feeds, _) = export_feeds(vec![
        sub(1, Some("beta"), Some("https://b"), None),
        sub(2, Some("Zeta"), Some("https://z"), None),
        sub(3, Some("Alpha"), Some("https://a"), None),
        sub(4, Some("alpha"), Some("https://a2"), None),
    ]);
    let labels: Vec<&str> = feeds.iter().map(|f| f.text.as_str()).collect();
    assert_eq!(labels, vec!["Alpha", "alpha", "beta", "Zeta"], "stable, case-insensitive");
}

#[test]
fn feeds_sort_stably_by_the_given_keys() {
    let feed = |t: &str| OpmlFeed { text: t.to_string(), xml_url: format!("https://{t}/feed"), html_url: None };
    let feeds = vec![feed("b"), feed("a1"), feed("c"), feed("a2")];
    let keys = vec!["2".to_string(), "1".to_string(), "3".to_string(), "1".to_string()];
    let sorted: Vec<String> = sort_by_keys(feeds, keys).into_iter().map(|f| f.text).collect();
    assert_eq!(sorted, vec!["a1", "a2", "b", "c"], "equal keys keep their order");
}
