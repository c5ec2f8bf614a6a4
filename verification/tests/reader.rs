use std::collections::HashMap;

use roses::feedbin::{Enclosure, Entry, EntryImages, ImageSize, JsonFeed};
use roses::reader::{
    format_duration, format_published, format_published_in, image_notice, loading_indicator, podcast_indicator,
    reader_lines, split_words, wrap_title, ReaderLine,
};
use roses::tui::ImageState;
use unicode_width::UnicodeWidthStr;

fn flatten(entry: &Entry, images: &HashMap<String, ImageState>) -> String {
    let date = format_published(&entry.published);
    reader_lines(entry, date)
        .into_iter()
        .map(|line| match line {
            ReaderLine::Title(t)
            | ReaderLine::Meta(t)
            | ReaderLine::Media(t)
            | ReaderLine::Link(t)
            | ReaderLine::Permalink(t)
            | ReaderLine::Text(t) => t,
            ReaderLine::Blank => String::new(),
            ReaderLine::Image(url) => {
                image_notice(images.get(&url).copied(), &url, true).unwrap_or_else(|| "[art]".to_string())
            }
        })
        .collect::<Vec<_>>()
        .join("\n")
}

fn header_entry(author: Option<&str>, published: Option<&str>) -> Entry {
    Entry {
        id: 1,
        feed_id: 9,
        title: Some("Headline".to_string()),
        url: None,
        author: author.map(str::to_string),
        published: published.map(str::to_string),
        summary: None,
        content: None,
        images: None,
        enclosure: None,
        json_feed: None,
    }
}

#[test]
fn published_date_formats_in_the_target_timezone() {
    assert_eq!(
        format_published_in("2023-12-02T02:30:21.000000Z", 0).as_deref(),
        Some("Saturday, December 2, 2023 at 2:30 AM"),
    );
    assert_eq!(
        format_published_in("2023-12-02T02:30:21.000000Z", -8 * 3600).as_deref(),
        Some("Friday, December 1, 2023 at 6:30 PM"),
    );
    assert_eq!(format_published_in("", 0), None);
    assert_eq!(format_published_in("not-a-date", 0), None);
}

#[test]
fn reader_header_shows_author_and_humanized_date_not_the_feed_name() {
    let rendered = flatten(&header_entry(Some("Ada Lovelace"), Some("2023-12-02T02:30:21.000000Z")), &HashMap::new());
    assert!(rendered.contains("Ada Lovelace · "), "author then a separator: {rendered:?}");
    assert!(rendered.contains("December"), "month name: {rendered:?}");
    assert!(rendered.contains("2023"), "year: {rendered:?}");
    assert!(rendered.contains(" at "), "human time: {rendered:?}");
    assert!(!rendered.contains("2023-12-02T02:30:21"), "raw ISO timestamp must be reformatted: {rendered:?}");
}

#[test]
fn reader_header_without_author_shows_only_the_date() {
    let rendered = flatten(&header_entry(None, Some("2023-12-02T02:30:21.000000Z")), &HashMap::new());
    assert!(rendered.contains("December"), "date shown: {rendered:?}");
    assert!(!rendered.contains(" · "), "no separator when author is absent: {rendered:?}");
}

#[test]
fn reader_header_drops_the_meta_line_when_nothing_to_show() {
    let rendered = flatten(&header_entry(None, Some("not-a-date")), &HashMap::new());
    assert!(!rendered.contains("not-a-date"), "raw value hidden: {rendered:?}");
    assert!(!rendered.contains(" · "), "no meta separator: {rendered:?}");
    let none = flatten(&header_entry(None, None), &HashMap::new());
    assert!(!none.contains(" · "), "no meta separator: {none:?}");
}

#[test]
fn reader_header_strips_control_characters_from_title_author_and_url() {
    let mut e = header_entry(Some("Auth\x07or"), None);
    e.title = Some("Ti\x1btle".to_string());
    e.url = Some("https://example.com/\x1bpath".to_string());
    let rendered = flatten(&e, &HashMap::new());
    assert!(!rendered.contains('\u{1b}') && !rendered.contains('\u{7}'), "no control chars: {rendered:?}");
    assert!(rendered.contains("Title"), "visible title kept: {rendered:?}");
    assert!(rendered.contains("Author"), "visible author kept: {rendered:?}");
    assert!(rendered.contains("https://example.com/path"), "visible url kept: {rendered:?}");
}

#[test]
fn reader_renders_image_placeholder_then_graceful_failure() {
    let entry = Entry {
        id: 1,
        feed_id: 9,
        title: Some("T".to_string()),
        url: None,
        author: None,
        published: None,
        summary: None,
        content: Some("<img src=\"https://x/i.png\">".to_string()),
        images: None,
        enclosure: None,
        json_feed: None,
    };
    let mut images = HashMap::new();
    assert!(flatten(&entry, &images).contains("image loading"), "placeholder while loading");
    images.insert("https://x/i.png".to_string(), ImageState::Failed);
    assert!(flatten(&entry, &images).contains("image unavailable"), "graceful failure");
}

fn extended_entry(
    content: &str,
    images: Option<Box<EntryImages>>,
    enclosure: Option<Box<Enclosure>>,
    json_feed: Option<Box<JsonFeed>>,
) -> Entry {
    Entry {
        id: 1,
        feed_id: 7,
        title: Some("T".to_string()),
        url: Some("https://permalink".to_string()),
        author: None,
        published: None,
        summary: None,
        content: Some(content.to_string()),
        images,
        enclosure,
        json_feed,
    }
}

#[test]
fn lead_image_is_drawn_only_without_an_inline_image() {
    let lead = || Some(Box::new(EntryImages { size_1: Some(ImageSize { cdn_url: Some("https://cdn/lead.jpg".to_string()) }) }));
    let mut images = HashMap::new();
    images.insert("https://cdn/lead.jpg".to_string(), ImageState::Failed);
    let no_inline = extended_entry("<p>text only</p>", lead(), None, None);
    assert!(flatten(&no_inline, &images).contains("https://cdn/lead.jpg"), "lead image shown when the body has none");
    let with_inline = extended_entry("<p>x</p><img src=\"https://body/img.png\">", lead(), None, None);
    let out = flatten(&with_inline, &images);
    assert!(!out.contains("https://cdn/lead.jpg"), "lead image suppressed: {out:?}");
    assert!(out.contains("https://body/img.png"), "inline image kept");
}

#[test]
fn reader_shows_podcast_indicator_and_external_link_with_permalink() {
    let entry = extended_entry(
        "<p>body</p>",
        None,
        Some(Box::new(Enclosure {
            enclosure_url: Some("https://media.mp3".to_string()),
            enclosure_type: Some("audio/mpeg".to_string()),
            itunes_duration: Some("2823".to_string()),
        })),
        Some(Box::new(JsonFeed { external_url: Some("https://external-target".to_string()) })),
    );
    let out = flatten(&entry, &HashMap::new());
    assert!(out.contains("Audio · 47:03"), "podcast indicator: {out:?}");
    assert!(out.contains("https://external-target"), "external url: {out:?}");
    assert!(out.contains("permalink: https://permalink"), "permalink kept: {out:?}");
}

#[test]
fn reader_lines_come_in_header_then_body_order() {
    let mut e = header_entry(Some("  Ada  "), None);
    e.url = Some("https://u".to_string());
    e.content = Some("<p>one</p><p>two</p>".to_string());
    let lines = reader_lines(&e, Some("Monday".to_string()));
    assert!(matches!(&lines[0], ReaderLine::Title(t) if t == "Headline"));
    assert!(matches!(&lines[1], ReaderLine::Meta(t) if t == "Ada · Monday"));
    assert!(matches!(&lines[2], ReaderLine::Link(t) if t == "https://u"));
    assert!(matches!(&lines[3], ReaderLine::Blank));
    assert!(matches!(&lines[4], ReaderLine::Text(t) if t == "one"));
    assert!(matches!(&lines[5], ReaderLine::Text(t) if t.is_empty()));
    assert!(matches!(&lines[6], ReaderLine::Text(t) if t == "two"));
    assert_eq!(lines.len(), 7);
    let placeholder = header_entry(None, None);
    let lines = reader_lines(&placeholder, None);
    assert!(matches!(&lines[2], ReaderLine::Text(t) if t == "(no content)"));
}

#[test]
fn podcast_indicator_names_the_media_kind() {
    let enc = |t: Option<&str>, d: Option<&str>| Enclosure {
        enclosure_url: None,
        enclosure_type: t.map(str::to_string),
        itunes_duration: d.map(str::to_string),
    };
    assert_eq!(podcast_indicator(&enc(Some("video/mp4"), Some(" 3661 "))), "Video · 1:01:01");
    assert_eq!(podcast_indicator(&enc(Some("audio/mpeg"), Some("   "))), "Audio");
    assert_eq!(podcast_indicator(&enc(None, Some("47:03"))), "Media · 47:03");
    assert_eq!(podcast_indicator(&enc(Some("image/png"), None)), "Media");
}

#[test]
fn format_duration_seconds_and_passthrough() {
    assert_eq!(format_duration("2823"), "47:03");
    assert_eq!(format_duration("3661"), "1:01:01");
    assert_eq!(format_duration("42"), "0:42");
    assert_eq!(format_duration("47:03"), "47:03");
}

#[test]
fn format_duration_accepts_what_u64_parsing_accepts() {
    assert_eq!(format_duration("+60"), "1:00");
    assert_eq!(format_duration("0"), "0:00");
    assert_eq!(format_duration("-5"), "-5");
    assert_eq!(format_duration("99999999999999999999"), "99999999999999999999");
}

#[test]
fn loading_indicator_frames_and_text() {
    assert_eq!(loading_indicator(4, 19, 0), "⠋ Loading 4 of 19 images");
    assert_eq!(loading_indicator(4, 19, 1), "⠙ Loading 4 of 19 images");
    assert_eq!(loading_indicator(0, 1, 10), "⠋ Loading 0 of 1 images");
}

#[test]
fn wrap_title_keeps_short_titles_on_one_line() {
    assert_eq!(wrap_title("Hello world", 40), vec!["Hello world"]);
}

#[test]
fn wrap_title_wraps_on_whitespace_within_width() {
    let lines = wrap_title("Hello World Foo", 10);
    assert!(lines.len() >= 2, "a long title wraps: {lines:?}");
    for line in &lines {
        assert!(UnicodeWidthStr::width(line.as_str()) <= 10, "each wrapped line fits the width: {line:?}");
    }
    assert_eq!(lines.join(" "), "Hello World Foo");
}

#[test]
fn wrap_title_hard_breaks_a_word_wider_than_the_line() {
    assert_eq!(wrap_title("abcdefghij", 4), vec!["abcd", "efgh", "ij"]);
}

#[test]
fn wrap_title_is_never_empty_and_guards_zero_width() {
    assert_eq!(wrap_title("", 10), vec![String::new()]);
    assert_eq!(wrap_title("ab", 0), vec!["a", "b"]);
}

#[test]
fn wrap_title_measures_wide_characters() {
    assert_eq!(wrap_title("日本語 ok", 6), vec!["日本語", "ok"]);
    assert_eq!(wrap_title("日本語", 4), vec!["日本", "語"]);
}

#[test]
fn words_split_on_unicode_whitespace() {
    assert_eq!(split_words("  a\u{3000}b\tc  "), vec!["a", "b", "c"]);
    assert!(split_words(" \n ").is_empty());
}

#[test]
fn remote_images_off_shows_a_placeholder_instead_of_art() {
    let url = "https://x/i.png";
    assert_eq!(image_notice(None, url, false).as_deref(), Some("[remote images off: https://x/i.png]"));
    assert_eq!(
        image_notice(Some(ImageState::Ready), url, false).as_deref(),
        Some("[remote images off: https://x/i.png]")
    );
    assert_eq!(image_notice(Some(ImageState::Ready), url, true), None);
    assert_eq!(image_notice(None, url, true).as_deref(), Some("[image loading… https://x/i.png]"));
    assert_eq!(
        image_notice(Some(ImageState::Failed), url, true).as_deref(),
        Some("[image unavailable: https://x/i.png]")
    );
}
