use roses::opml::{to_opml, xml_escape, OpmlFeed};

#[test]
fn to_opml_writes_a_golden_document_with_escaping() {
    let feeds = vec![
        OpmlFeed {
            text: "Rust Blog".to_string(),
            xml_url: "https://blog.rust-lang.org/feed.xml".to_string(),
            html_url: Some("https://blog.rust-lang.org".to_string()),
        },
        OpmlFeed {
            text: "Tom & Jerry <\"news\">".to_string(),
            xml_url: "https://example.com/feed?a=1&b=2".to_string(),
            html_url: None,
        },
    ];
    let opml = to_opml("roses subscriptions", &feeds);
    let expected = "\
<?xml version=\"1.0\" encoding=\"UTF-8\"?>
<opml version=\"2.0\">
  <head>
    <title>roses subscriptions</title>
  </head>
  <body>
    <outline type=\"rss\" text=\"Rust Blog\" xmlUrl=\"https://blog.rust-lang.org/feed.xml\" htmlUrl=\"https://blog.rust-lang.org\"/>
    <outline type=\"rss\" text=\"Tom &amp; Jerry &lt;&quot;news&quot;&gt;\" xmlUrl=\"https://example.com/feed?a=1&amp;b=2\"/>
  </body>
</opml>
";
    assert_eq!(opml, expected);
}

#[test]
fn to_opml_with_no_feeds_is_still_valid() {
    let opml = to_opml("empty", &[]);
    assert!(opml.starts_with("<?xml version=\"1.0\" encoding=\"UTF-8\"?>\n"));
    assert!(opml.contains("<title>empty</title>"));
    assert!(opml.contains("<body>\n  </body>"));
    assert!(opml.trim_end().ends_with("</opml>"));
}

#[test]
fn escape_covers_all_five_entities() {
    assert_eq!(xml_escape("a&b<c>d\"e'f"), "a&amp;b&lt;c&gt;d&quot;e&apos;f");
    assert_eq!(xml_escape("plain ✓"), "plain ✓");
    let escaped = xml_escape("<'\">");
    assert!(!escaped.contains('<') && !escaped.contains('"') && !escaped.contains('\''));
}
